use sonoware::gain::gain_from_tag;
use sonoware::layout::{vec_to_2d_list, vec_to_list};
use sonoware::number::is_float_text;
use sonoware::scan::{amplitude_projection, first_peak, peak_indices, tof_projection};
use sonoware::text::{entry_bytes, get_entry, parse_unsigned, split_lines};
use sonoware::volume::{read_sample, ByteOrder};

#[test]
fn entry_is_text_after_last_separator() {
    assert_eq!(get_entry("Name: Data: Channel 1"), "Channel 1");
    assert_eq!(get_entry("no separator"), "");
    assert_eq!(entry_bytes(b"no separator"), Vec::<u8>::new());
    assert_eq!(get_entry("Empty: "), "");
    assert_eq!(get_entry("Ünit: µs"), "µs");
    assert_eq!(entry_bytes(b"Samples: 64"), b"64".to_vec());
}

#[test]
fn unsigned_parse_follows_std() {
    assert_eq!(parse_unsigned(b"+12", 255), Some(12));
    assert_eq!(parse_unsigned(b"255", 255), Some(255));
    assert_eq!(parse_unsigned(b"256", 255), None);
    assert_eq!(parse_unsigned(b"", 255), None);
    assert_eq!(parse_unsigned(b"+", 255), None);
    assert_eq!(parse_unsigned(b"-1", 255), None);
    assert_eq!(parse_unsigned(b"1 ", 255), None);
    assert_eq!(parse_unsigned(b"4294967295", 4294967295), Some(4294967295));
    for s in ["0", "7", "+65535", "65536", "12a", "99999999999999999999999"] {
        assert_eq!(parse_unsigned(s.as_bytes(), 65535), s.parse::<u16>().ok().map(|v| v as u64));
    }
}

#[test]
fn lines_split_on_newline_and_drop_carriage_return() {
    let lines = split_lines(b"a: 1\r\nb: 2\n\nc");
    assert_eq!(lines, vec![b"a: 1".to_vec(), b"b: 2".to_vec(), b"".to_vec(), b"c".to_vec()]);
    let text = "x\r\ny\n\nz\n";
    let ours: Vec<Vec<u8>> = split_lines(text.as_bytes());
    let std_lines: Vec<Vec<u8>> = text.lines().map(|l| l.as_bytes().to_vec()).collect();
    assert_eq!(ours, std_lines);
}

#[test]
fn gain_tag_digits_are_read() {
    assert_eq!(gain_from_tag("\"Gain\">42"), Some(42));
    assert_eq!(gain_from_tag("\"Gain\">007"), Some(7));
    assert_eq!(gain_from_tag("\"Gain\">"), None);
    assert_eq!(gain_from_tag("\"Gain\">٣"), None);
    assert_eq!(gain_from_tag("\"Gain\">99999999999999999999999"), Some(u64::MAX));
}

#[test]
fn samples_decode_in_both_byte_orders() {
    assert_eq!(read_sample(0x12, 0x34, ByteOrder::BigEndian), 0x1234);
    assert_eq!(read_sample(0x12, 0x34, ByteOrder::LittleEndian), 0x3412);
    assert_eq!(read_sample(0xFF, 0xFE, ByteOrder::BigEndian), -2);
    assert_eq!(read_sample(0x80, 0x00, ByteOrder::BigEndian), i16::MIN);
    assert_eq!(read_sample(0x7F, 0xFF, ByteOrder::BigEndian), i16::MAX);
}

#[test]
fn normalization_stays_in_unit_range_and_inverts() {
    for raw in [i16::MIN, -12345, -1, 0, 1, 777, i16::MAX] {
        let n = (raw as f64 - i16::MIN as f64) / (i16::MAX as f64 - i16::MIN as f64) * 2.0 - 1.0;
        assert!((-1.0..=1.0).contains(&n));
        let back = ((n + 1.0) / 2.0 * 65535.0 + i16::MIN as f64).floor() as i16;
        assert_eq!(back, raw);
        let bytes = back.to_be_bytes();
        assert_eq!(read_sample(bytes[0], bytes[1], ByteOrder::BigEndian), raw);
    }
}

#[test]
fn first_peak_takes_first_of_equal_maxima() {
    assert_eq!(first_peak(&vec![1, 5, 5, 2]), 1);
    assert_eq!(first_peak(&vec![-3]), 0);
    assert_eq!(first_peak(&vec![i64::MIN, -7, -7, -9]), 1);
    assert_eq!(peak_indices(&vec![vec![0, 1, 2], vec![2, 1, 0]]), vec![2, 0]);
}

#[test]
fn tof_is_offset_by_window_start() {
    let keys = vec![vec![3, 9, 9, 1], vec![4, 4, 4, 4], vec![0, 0, 0, 8]];
    let tof = tof_projection(&keys, 10);
    assert_eq!(tof, vec![11, 10, 13]);
    for t in tof {
        assert!((10..14).contains(&t));
    }
}

#[test]
fn amplitude_takes_value_at_peak() {
    let values = vec![vec![0.1, 0.9, 0.5], vec![-0.2, -0.4, -0.1]];
    let keys = vec![vec![1, 9, 5], vec![-2, -4, -1]];
    assert_eq!(amplitude_projection(&values, &keys), vec![0.9, -0.1]);
}

#[test]
fn flat_values_become_rows() {
    let v = vec![1, 2, 3, 4, 5, 6, 7];
    assert_eq!(vec_to_2d_list(&v, 3), vec![vec![1, 2, 3], vec![4, 5, 6], vec![7]]);
    assert_eq!(vec_to_2d_list(&v, 7), vec![v.clone()]);
    assert_eq!(vec_to_2d_list(&Vec::<u8>::new(), 0), Vec::<Vec<u8>>::new());
}

#[test]
fn float_text_matches_std_parse() {
    let cases = [
        "0.5", "12", "1.", ".5", "+.5", "-3.25", "1e5", "1E-3", "2.5e+7", "inf", "-Infinity",
        "NaN", "+nan", ".", "", "+", "e5", "1e", "1e+", "1.2.3", "1_000", " 1", "0x10", "infin",
        "--1", "1e5.0", "..5", "5..",
    ];
    for c in cases {
        assert_eq!(is_float_text(c.as_bytes()), c.parse::<f32>().is_ok(), "case {:?}", c);
    }
}

#[test]
fn list_keeps_order() {
    let list = vec_to_list(&vec![3, 1, 2]);
    assert_eq!(list.into_iter().collect::<Vec<_>>(), vec![3, 1, 2]);
    assert!(vec_to_list(&Vec::<u8>::new()).is_empty());
}
