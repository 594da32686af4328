//! Decoding of SonoWare ultrasonic recordings and the projections derived from them.
//!
//! A recording is a text header, ended by a sentinel, followed by one binary
//! span per subset. [`dataset::UsData::load`] checks and decodes it into one
//! volume of 16-bit samples per recorded channel; [`scan`] cuts traces and
//! depth windows from those volumes and picks the peaks from which the
//! amplitude and time-of-flight projections are built.

pub mod dataset;
pub mod error;
pub mod gain;
pub mod header;
pub mod layout;
pub mod number;
pub mod outside;
pub mod scan;
pub mod text;
pub mod volume;
