use ksm::article::{parse_art_text, read_article_parameters};
use ksm::error::ParseError;
use ksm::table::Value;

fn lines(v: &[&str]) -> Vec<String> {
    v.iter().map(|s| s.to_string()).collect()
}

fn str_cell(t: &ksm::table::Table, name: &str) -> String {
    t.first_value_or_empty_string(name)
}

#[test]
fn parse_missing_none_article() {
    let input = lines(&["round_local", "something_else", "cable_parts = 6"]);
    let result = read_article_parameters(&input);
    assert!(
        matches!(result, Err(ParseError::MissingField(_))),
        "Did not return ParseError::MissingField"
    );
}

#[test]
fn parse_valid_article_parameters() {
    let input = lines(&[
        "round_local",
        "None",
        "cable_parts = 6",
        "check_wall_min_nomlimit = 0.13",
        "info1 = FKUX 105 0,25",
        "info6 = 202",
        "material_core = Cu",
    ]);
    let result = read_article_parameters(&input).expect("parse failed");
    assert_eq!(result.height(), 1);
    assert_eq!(str_cell(&result, "pgm_name"), "round_local");
    assert_eq!(str_cell(&result, "cable_parts"), "6");
    assert_eq!(str_cell(&result, "check_wall_min_nomlimit"), "0.13");
    assert_eq!(str_cell(&result, "info1"), "FKUX 105 0,25");
    assert_eq!(str_cell(&result, "info6"), "202");
    assert_eq!(str_cell(&result, "material_core"), "Cu");
}

#[test]
fn article_scenario_round_local() {
    // whole-file bytes: name line, sentinel, two parameters
    let bytes = b"round_local\nNone\ncable_parts = 6\ninfo1 = FKUX 105 0,25\n";
    let t = parse_art_text(bytes).expect("parse failed");
    assert_eq!(t.height(), 1);
    assert_eq!(t.width(), 3);
    assert_eq!(str_cell(&t, "pgm_name"), "round_local");
    assert_eq!(str_cell(&t, "cable_parts"), "6");
    assert_eq!(str_cell(&t, "info1"), "FKUX 105 0,25");
}

#[test]
fn article_missing_name_line() {
    let input = lines(&[]);
    match read_article_parameters(&input) {
        Err(ParseError::MissingField(f)) => assert_eq!(f, "pgm_name"),
        other => panic!("expected MissingField, got {:?}", other),
    }
}

#[test]
fn article_ends_before_sentinel() {
    let input = lines(&["round_local"]);
    assert!(matches!(
        read_article_parameters(&input),
        Err(ParseError::IOError(_))
    ));
}

#[test]
fn article_malformed_entry() {
    let input = lines(&["round_local", "None", "no separator here"]);
    match read_article_parameters(&input) {
        Err(ParseError::MalformedEntry(l)) => assert_eq!(l, "no separator here"),
        other => panic!("expected MalformedEntry, got {:?}", other),
    }
}

#[test]
fn article_blank_lines_skipped() {
    let input = lines(&["round_local", "None", "", "   ", "a = 1", ""]);
    let t = read_article_parameters(&input).expect("parse failed");
    assert_eq!(t.width(), 2);
    assert_eq!(str_cell(&t, "a"), "1");
}

#[test]
fn article_duplicate_key_overwrites() {
    let input = lines(&["round_local", "None", "a = 1", "b = 2", "a = 3"]);
    let t = read_article_parameters(&input).expect("parse failed");
    assert_eq!(t.width(), 3);
    assert_eq!(str_cell(&t, "a"), "3");
    assert_eq!(str_cell(&t, "b"), "2");
}

#[test]
fn article_values_trimmed() {
    let input = lines(&["  round_local  ", "  None ", "key =   padded value  "]);
    let t = read_article_parameters(&input).expect("parse failed");
    assert_eq!(str_cell(&t, "pgm_name"), "round_local");
    assert_eq!(str_cell(&t, "key"), "padded value");
    // the row holds text cells only
    assert!(t.rows[0].iter().all(|v| matches!(v, Value::Str(_))));
}

#[test]
fn article_decodes_nordic_bytes() {
    // 0xE4 decodes to an a-umlaut, 0xFF to the kra letter: the decoder must
    // map high bytes through the Nordic table, not pass them through
    let bytes = b"name\nNone\ninfo1 = \xE4\xFF\n";
    let t = parse_art_text(bytes).expect("parse failed");
    assert_eq!(str_cell(&t, "info1"), "\u{e4}\u{138}");
}
