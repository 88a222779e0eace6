use ksm::text::decode_lines;

#[test]
fn decode_lines_splits_and_strips() {
    let lines = decode_lines(b"first\r\nsecond\nthird");
    assert_eq!(lines, vec!["first".to_string(), "second".to_string(), "third".to_string()]);
}

#[test]
fn decode_lines_trailing_newline_yields_no_empty_line() {
    assert_eq!(decode_lines(b"one\n"), vec!["one".to_string()]);
    assert_eq!(decode_lines(b""), Vec::<String>::new());
    assert_eq!(decode_lines(b"a\n\nb"), vec!["a".to_string(), "".to_string(), "b".to_string()]);
}

#[test]
fn decode_lines_maps_high_bytes() {
    // 0xC4 is the capital a-umlaut in the Nordic set
    let lines = decode_lines(&[0xC4, b'\n']);
    assert_eq!(lines, vec!["\u{c4}".to_string()]);
}
