//! Why a recording could not be loaded, or a projection not computed.
use vstd::prelude::*;

verus! {

/// Why a recording was rejected.
#[derive(Debug)]
pub enum LoadError {
    /// The sentinel that ends the text header is absent.
    HeaderNotFound,
    /// The value on this header line is not of the field's type; the value
    /// is empty where the header has no such line.
    HeaderFieldParseError { line: usize, value: Vec<u8> },
    /// The subsets' byte spans do not add up to the binary segment.
    StructuralMismatch,
    /// A data subset stores samples narrower than two bytes.
    UnsupportedSampleWidth,
}

pub enum LoadErrorModel {
    HeaderNotFound,
    HeaderFieldParseError { line: int, value: Seq<u8> },
    StructuralMismatch,
    UnsupportedSampleWidth,
}

impl View for LoadError {
    type V = LoadErrorModel;

    open spec fn view(&self) -> LoadErrorModel {
        match self {
            LoadError::HeaderNotFound => LoadErrorModel::HeaderNotFound,
            LoadError::HeaderFieldParseError { line, value } =>
                LoadErrorModel::HeaderFieldParseError { line: *line as int, value: value@ },
            LoadError::StructuralMismatch => LoadErrorModel::StructuralMismatch,
            LoadError::UnsupportedSampleWidth => LoadErrorModel::UnsupportedSampleWidth,
        }
    }
}

/// Why a query on a loaded recording was refused.
#[derive(Debug, PartialEq, Eq, Structural, Clone, Copy)]
pub enum ScanError {
    /// The channel index is not below the number of recorded channels.
    ChannelNotRecorded,
    /// The depth window is empty or reaches past the recorded depth.
    InvalidWindow,
    /// The column or row lies outside the scanned area.
    PositionOutOfRange,
}

} // verus!
