use sonoware::dataset::{get_state, UsData};
use sonoware::error::{LoadError, ScanError};
use sonoware::volume::ByteOrder;

/// One subset of a synthetic recording.
struct Sub {
    name: &'static str,
    element_size: u8,
    sample_nums: u32,
    gain: Option<u32>,
}

/// The value stored at linear sample index `i` of subset `k`.
fn raw_value(k: usize, i: usize) -> i16 {
    ((i as i64 * 37 + k as i64 * 1001) % 65536 - 32768) as i16
}

fn header_text(subs: &[Sub], sx: u16, sy: u16) -> String {
    let mut lines: Vec<String> = vec![
        "Format: SonoWare".to_string(),
        "Version: 3.1".to_string(),
        "Comment: synthetic".to_string(),
        "Axes: 2".to_string(),
        format!("Subsets: {}", subs.len()),
        "X Axis: X".to_string(),
        format!("Samples: {}", sx),
        "X Unit: mm".to_string(),
        "Resolution: 0.5 mm".to_string(),
        "Y Axis: Y".to_string(),
        format!("Samples: {}", sy),
        "Y Unit: mm".to_string(),
        "Resolution: 0.25 mm".to_string(),
        "Subset list:".to_string(),
    ];
    for s in subs {
        lines.push(format!("Name: {}", s.name));
        lines.push(format!("Element Size: {}", s.element_size));
        lines.push("Type: int".to_string());
        lines.push(format!("Samples: {}", s.sample_nums));
        lines.push("Min: 1.5 us".to_string());
        lines.push("Resolution: 0.01 us".to_string());
        match s.gain {
            Some(g) => lines.push(format!("Settings: <Param name=\"Gain\">{}</Param>", g)),
            None => lines.push("Settings: none".to_string()),
        }
        for _ in 0..5 {
            lines.push("Reserved: -".to_string());
        }
    }
    let mut text = String::new();
    for l in lines {
        text.push_str(&l);
        text.push_str("\r\n");
    }
    text
}

fn payload(subs: &[Sub], sx: u16, sy: u16, order: ByteOrder) -> Vec<u8> {
    let points = sx as usize * sy as usize;
    let mut out = Vec::new();
    for (k, s) in subs.iter().enumerate() {
        for i in 0..(s.sample_nums as usize * points) {
            let v = raw_value(k, i);
            let b = match order {
                ByteOrder::BigEndian => v.to_be_bytes(),
                ByteOrder::LittleEndian => v.to_le_bytes(),
            };
            out.push(b[0]);
            out.push(b[1]);
            for _ in 2..s.element_size {
                out.push(0xAA);
            }
        }
    }
    out
}

fn recording(subs: &[Sub], sx: u16, sy: u16, order: ByteOrder) -> Vec<u8> {
    recording_with_header(header_text(subs, sx, sy), subs, sx, sy, order)
}

fn recording_with_header(header: String, subs: &[Sub], sx: u16, sy: u16, order: ByteOrder) -> Vec<u8> {
    let mut data = header.into_bytes();
    data.extend_from_slice(b"|^Data Set^|");
    data.extend_from_slice(b"\r\n\x00");
    data.extend(payload(subs, sx, sy, order));
    data
}

fn two_channels() -> Vec<Sub> {
    vec![
        Sub { name: "Data Channel 1", element_size: 2, sample_nums: 64, gain: None },
        Sub { name: "Axis Index", element_size: 4, sample_nums: 1, gain: Some(12) },
        Sub { name: "Data Channel 2", element_size: 2, sample_nums: 64, gain: Some(30) },
    ]
}

fn normalized(raw: i16) -> f64 {
    (raw as f64 - i16::MIN as f64) / (i16::MAX as f64 - i16::MIN as f64) * 2.0 - 1.0
}

fn check_trace(sx: u16, sy: u16, x: usize, y: usize) {
    let subs = vec![Sub { name: "Data", element_size: 2, sample_nums: 16, gain: None }];
    let data = UsData::load_sonoware(recording(&subs, sx, sy, ByteOrder::BigEndian)).unwrap();
    let trace = data.a_scan(0, y, x).unwrap();
    assert_eq!(trace.len(), 16);
    for (d, v) in trace.iter().enumerate() {
        let i = (x * sx as usize + y) * 16 + d;
        assert_eq!(*v, raw_value(0, i));
        assert_eq!(normalized(*v), normalized(raw_value(0, i)));
    }
}

#[test]
fn start_scan() {
    check_trace(60, 95, 0, 0);
}

#[test]
fn mid_scan() {
    check_trace(60, 95, 17, 42);
}

#[test]
fn end_scan() {
    check_trace(60, 95, 91, 56);
}

#[test]
fn fixture_trace_matches_big_endian_bytes() {
    let subs = two_channels();
    let bytes = recording(&subs, 10, 10, ByteOrder::BigEndian);
    let data = UsData::load_sonoware(bytes.clone()).unwrap();
    assert_eq!(data.header.channels, 2);
    assert_eq!(data.datasets.len(), 2);
    let trace = data.a_scan(0, 5, 3).unwrap();
    assert_eq!(trace.len(), 64);
    let start = bytes.len() - payload(&subs, 10, 10, ByteOrder::BigEndian).len();
    for d in 0..64 {
        let at = start + (3 * 10 + 5) * 64 * 2 + d * 2;
        let raw = i16::from_be_bytes([bytes[at], bytes[at + 1]]);
        assert_eq!(trace[d], raw);
        let n = normalized(trace[d]);
        assert!((-1.0..=1.0).contains(&n));
        assert_eq!(n, normalized(raw));
    }
}

#[test]
fn second_channel_skips_auxiliary_span() {
    let subs = two_channels();
    let data = UsData::load_sonoware(recording(&subs, 10, 10, ByteOrder::BigEndian)).unwrap();
    let trace = data.a_scan(1, 0, 0).unwrap();
    for d in 0..64 {
        assert_eq!(trace[d], raw_value(2, d));
    }
}

#[test]
fn header_fields_are_read() {
    let data = UsData::load_sonoware(recording(&two_channels(), 10, 7, ByteOrder::BigEndian)).unwrap();
    let h = &data.header;
    assert_eq!(h.format, "SonoWare");
    assert_eq!(h.version, "3.1");
    assert_eq!(h.axes, 2);
    assert_eq!(h.samples_x, 10);
    assert_eq!(h.samples_y, 7);
    assert_eq!(h.res_x, "0.5");
    assert_eq!(h.res_y, "0.25");
    assert_eq!(h.sub_sets.len(), 3);
    assert_eq!(h.sub_sets[1].name, "Axis Index");
    assert_eq!(h.sub_sets[1].element_size, 4);
    assert_eq!(h.sub_sets[0].min_sample_pos, "1.5");
    assert_eq!(h.sub_sets[0].sample_resolution, "0.01");
    assert_eq!(h.samples, 64);
    let v = &data.datasets[0];
    assert_eq!((v.rows, v.cols, v.depth), (7, 10, 64));
}

#[test]
fn gains_align_after_leading_zero() {
    let data = UsData::load_sonoware(recording(&two_channels(), 4, 4, ByteOrder::BigEndian)).unwrap();
    let gains: Vec<u64> = data.header.sub_sets.iter().map(|s| s.gain).collect();
    assert_eq!(gains, vec![0, 12, 30]);
}

#[test]
fn missing_gains_default_to_zero() {
    let subs = vec![
        Sub { name: "Data A", element_size: 2, sample_nums: 2, gain: None },
        Sub { name: "Data B", element_size: 2, sample_nums: 2, gain: None },
    ];
    let data = UsData::load_sonoware(recording(&subs, 2, 2, ByteOrder::BigEndian)).unwrap();
    assert_eq!(data.header.sub_sets[1].gain, 0);
}

#[test]
fn channel_subset_counts_data_subsets_only() {
    let data = UsData::load_sonoware(recording(&two_channels(), 3, 3, ByteOrder::BigEndian)).unwrap();
    assert_eq!(data.get_channel_subset(0).unwrap().name, "Data Channel 1");
    assert_eq!(data.get_channel_subset(1).unwrap().name, "Data Channel 2");
    assert!(data.get_channel_subset(2).is_none());
    assert!(data.get_channel(1).is_some());
    assert!(data.get_channel(2).is_none());
}

#[test]
fn unrecorded_channel_is_refused() {
    let data = UsData::load_sonoware(recording(&two_channels(), 3, 3, ByteOrder::BigEndian)).unwrap();
    let before = data.a_scan(0, 1, 1).unwrap();
    assert!(matches!(data.windows(2, 0, 10), Err(ScanError::ChannelNotRecorded)));
    assert!(matches!(data.a_scan(7, 0, 0), Err(ScanError::ChannelNotRecorded)));
    assert_eq!(data.a_scan(0, 1, 1).unwrap(), before);
    assert_eq!(data.datasets.len(), 2);
}

#[test]
fn extra_payload_byte_is_structural_mismatch() {
    let mut bytes = recording(&two_channels(), 3, 3, ByteOrder::BigEndian);
    bytes.push(0);
    assert!(matches!(UsData::load_sonoware(bytes), Err(LoadError::StructuralMismatch)));
}

#[test]
fn missing_payload_byte_is_structural_mismatch() {
    let mut bytes = recording(&two_channels(), 3, 3, ByteOrder::BigEndian);
    bytes.pop();
    assert!(matches!(UsData::load_sonoware(bytes), Err(LoadError::StructuralMismatch)));
}

#[test]
fn missing_sentinel_is_header_not_found() {
    let bytes = header_text(&two_channels(), 3, 3).into_bytes();
    assert!(matches!(UsData::load_sonoware(bytes), Err(LoadError::HeaderNotFound)));
}

#[test]
fn malformed_number_names_its_line() {
    let subs = two_channels();
    let text = header_text(&subs, 3, 3).replacen("Samples: 3", "Samples: three", 1);
    match UsData::load_sonoware(recording_with_header(text, &subs, 3, 3, ByteOrder::BigEndian)) {
        Err(LoadError::HeaderFieldParseError { line, value }) => {
            assert_eq!(line, 6);
            assert_eq!(value, b"three".to_vec());
        }
        other => panic!("unexpected result {:?}", other.map(|_| ())),
    }
}

#[test]
fn short_measurement_is_parse_error() {
    let subs = two_channels();
    let text = header_text(&subs, 3, 3).replacen("Resolution: 0.5 mm", "Resolution: mm", 1);
    assert!(matches!(
        UsData::load_sonoware(recording_with_header(text, &subs, 3, 3, ByteOrder::BigEndian)),
        Err(LoadError::HeaderFieldParseError { line: 8, .. })
    ));
}

#[test]
fn truncated_header_reports_missing_line() {
    let mut bytes = b"Format: SonoWare\r\nVersion: 1\r\nC: x\r\nAxes: 2\r\n".to_vec();
    bytes.extend_from_slice(b"|^Data Set^|abc");
    match UsData::load_sonoware(bytes) {
        Err(LoadError::HeaderFieldParseError { line, value }) => {
            assert_eq!(line, 4);
            assert!(value.is_empty());
        }
        other => panic!("unexpected result {:?}", other.map(|_| ())),
    }
}

#[test]
fn bad_number_with_later_lines_missing_is_parse_error() {
    let mut bytes = b"Format: S\r\nVersion: 1\r\nC: x\r\nAxes: 2\r\nSubsets: 1\r\nX: x\r\nSamples: ten\r\n".to_vec();
    bytes.extend_from_slice(b"|^Data Set^|abc");
    assert!(matches!(
        UsData::load_sonoware(bytes),
        Err(LoadError::HeaderFieldParseError { .. })
    ));
}

#[test]
fn gain_tags_in_payload_are_ignored() {
    let subs = vec![
        Sub { name: "Data A", element_size: 2, sample_nums: 4, gain: None },
        Sub { name: "Data B", element_size: 2, sample_nums: 4, gain: None },
    ];
    let mut bytes = header_text(&subs, 1, 1).into_bytes();
    bytes.extend_from_slice(b"|^Data Set^|\r\n\x00");
    bytes.extend_from_slice(b"\"Gain\">9");
    bytes.extend_from_slice(&[0u8; 8]);
    let data = UsData::load_sonoware(bytes).unwrap();
    assert_eq!(data.header.sub_sets[1].gain, 0);
}

#[test]
fn one_byte_data_samples_are_refused() {
    let subs = vec![Sub { name: "Data", element_size: 1, sample_nums: 2, gain: None }];
    let mut bytes = header_text(&subs, 2, 2).into_bytes();
    bytes.extend_from_slice(b"|^Data Set^|\r\n\x00");
    bytes.extend(vec![1u8; 8]);
    assert!(matches!(UsData::load_sonoware(bytes), Err(LoadError::UnsupportedSampleWidth)));
}

#[test]
fn little_endian_layout_is_explicit() {
    let subs = two_channels();
    let bytes = recording(&subs, 4, 4, ByteOrder::LittleEndian);
    let data = UsData::load(&bytes, ByteOrder::LittleEndian).unwrap();
    assert_eq!(data.a_scan(0, 2, 1).unwrap()[5], raw_value(0, (1 * 4 + 2) * 64 + 5));
    let be = UsData::load(&bytes, ByteOrder::BigEndian).unwrap();
    assert_ne!(be.a_scan(0, 2, 1).unwrap()[5], raw_value(0, (1 * 4 + 2) * 64 + 5));
}

#[test]
fn wide_samples_use_first_two_bytes() {
    let subs = vec![Sub { name: "Data", element_size: 4, sample_nums: 3, gain: None }];
    let data = UsData::load_sonoware(recording(&subs, 2, 2, ByteOrder::BigEndian)).unwrap();
    assert_eq!(data.a_scan(0, 1, 1).unwrap(), vec![raw_value(0, 9), raw_value(0, 10), raw_value(0, 11)]);
}

#[test]
fn windows_cut_every_trace() {
    let subs = vec![Sub { name: "Data", element_size: 2, sample_nums: 8, gain: None }];
    let data = UsData::load_sonoware(recording(&subs, 3, 2, ByteOrder::BigEndian)).unwrap();
    let w = data.windows(0, 2, 5).unwrap();
    assert_eq!(w.len(), 6);
    assert_eq!(w[4], vec![raw_value(0, 34), raw_value(0, 35), raw_value(0, 36)]);
    assert!(matches!(data.windows(0, 5, 5), Err(ScanError::InvalidWindow)));
    assert!(matches!(data.windows(0, 0, 9), Err(ScanError::InvalidWindow)));
    assert!(matches!(data.a_scan(0, 3, 0), Err(ScanError::PositionOutOfRange)));
}

#[test]
fn state_reports_loaded_data() {
    assert_eq!(get_state(&None), "free storage");
    let data = UsData::load_sonoware(recording(&two_channels(), 2, 2, ByteOrder::BigEndian)).unwrap();
    assert_eq!(get_state(&Some(data)), "loaded data");
}

#[test]
fn non_numeric_measurement_is_parse_error() {
    let subs = two_channels();
    let text = header_text(&subs, 3, 3).replacen("Min: 1.5 us", "Min: 1,5 us", 1);
    match UsData::load_sonoware(recording_with_header(text, &subs, 3, 3, ByteOrder::BigEndian)) {
        Err(LoadError::HeaderFieldParseError { line, value }) => {
            assert_eq!(line, 18);
            assert_eq!(value, b"1,5 us".to_vec());
        }
        other => panic!("unexpected result {:?}", other.map(|_| ())),
    }
}
