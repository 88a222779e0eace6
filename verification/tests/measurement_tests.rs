use ksm::error::ParseError;
use ksm::measurement::{
    align_dataframes_and_insert_row, create_dataframe_from_columns_and_values,
    read_measurement_entries,
};
use ksm::table::{Column, DataType, Table, Value};

fn lines(v: &[&str]) -> Vec<String> {
    v.iter().map(|s| s.to_string()).collect()
}

const TZ: &str = "Europe/Stockholm";

#[test]
fn parse_valid_measurement_data() {
    let input = lines(&[
        "\"measure_time1970\"\t\"centervalue\"\t\"info6\"",
        "0\t1.5\tA",
        "\"measure_time1970\"\t\"centervalue\"\t\"info6\"",
        "86400\t2.5\tB",
    ]);
    let t = read_measurement_entries(&input, TZ).expect("parse failed");
    assert_eq!(t.width(), 4, "Wrong number of columns");
    assert_eq!(t.height(), 2, "Wrong number of rows");
    // the derived local_time column renders the instants in the zone
    let lt = t.find_column("local_time").expect("no local_time column");
    assert_eq!(t.rows[0][lt], Value::Str("1970-01-01T01:00:00+01:00".to_string()));
    assert_eq!(t.rows[1][lt], Value::Str("1970-01-02T01:00:00+01:00".to_string()));
}

#[test]
fn parse_uneven_rows_measurement_data() {
    // a header line with no value line after it
    let input = lines(&["\"a\"\t\"b\"", "1\t2", "\"a\"\t\"b\""]);
    match read_measurement_entries(&input, TZ) {
        Ok(_) => panic!("Should return an error"),
        Err(e) => assert!(
            matches!(e, ParseError::MalformedEntry { .. }),
            "Should return MalformedEntry"
        ),
    }
}

#[test]
fn parse_uneven_col_measurement_data() {
    // a value line short of one token
    let input = lines(&["\"a\"\t\"b\"", "1"]);
    match read_measurement_entries(&input, TZ) {
        Ok(_) => panic!("Should return an error"),
        Err(e) => assert!(
            matches!(e, ParseError::ColumnMismatchError),
            "Should return ColumnMismatchError"
        ),
    }
}

#[test]
fn measurement_mismatch_after_good_pair_discards_all() {
    // the first pair is fine; the second mismatches; no partial table comes back
    let input = lines(&["\"a\"", "1", "\"a\"\t\"b\"", "1"]);
    assert!(matches!(
        read_measurement_entries(&input, TZ),
        Err(ParseError::ColumnMismatchError)
    ));
}

#[test]
fn measurement_null_placement_across_pairs() {
    // two pairs with overlapping column sets: exact null placement
    let input = lines(&["\"a\"\t\"b\"", "\"1\"\t\"x\"", "\"b\"\t\"c\"", "\"2\"\t\"y\""]);
    let t = read_measurement_entries(&input, TZ).expect("parse failed");
    assert_eq!(t.height(), 2);
    assert_eq!(t.width(), 3);
    let a = t.find_column("a").unwrap();
    let b = t.find_column("b").unwrap();
    let c = t.find_column("c").unwrap();
    assert_eq!(t.rows[0][a], Value::Str("\"1\"".to_string()));
    assert_eq!(t.rows[0][b], Value::Str("\"x\"".to_string()));
    assert_eq!(t.rows[0][c], Value::Null);
    assert_eq!(t.rows[1][a], Value::Null);
    assert_eq!(t.rows[1][b], Value::Str("\"2\"".to_string()));
    assert_eq!(t.rows[1][c], Value::Str("\"y\"".to_string()));
}

#[test]
fn measurement_duplicate_header_pair_dropped() {
    let input = lines(&["\"a\"\t\"a\"", "1\t2", "\"b\"", "3"]);
    let t = read_measurement_entries(&input, TZ).expect("parse failed");
    assert_eq!(t.height(), 1);
    assert_eq!(t.width(), 1);
    assert_eq!(t.first_value_or_empty_string("b"), "3");
}

#[test]
fn measurement_cell_typing() {
    let t = create_dataframe_from_columns_and_values(
        "\"centervalue\"\t\"measure_time1970\"\t\"info6\"",
        "12.5\t1700000000\thello",
    )
    .expect("pair parse failed");
    let cv = t.find_column("centervalue").unwrap();
    let mt = t.find_column("measure_time1970").unwrap();
    let i6 = t.find_column("info6").unwrap();
    assert_eq!(t.cols[cv].dtype, DataType::Float64);
    assert_eq!(t.cols[mt].dtype, DataType::Int64);
    assert_eq!(t.cols[i6].dtype, DataType::Str);
    assert_eq!(t.rows[0][cv], Value::Float("12.5".to_string()));
    assert_eq!(t.rows[0][mt], Value::Int(1700000000));
    assert_eq!(t.rows[0][i6], Value::Str("hello".to_string()));
}

#[test]
fn measurement_bad_numeric_becomes_null() {
    // the lenient policy: a centervalue that does not parse yields a null
    let t = create_dataframe_from_columns_and_values("\"centervalue\"", "not-a-number")
        .expect("pair parse failed");
    assert_eq!(t.rows[0][0], Value::Null);
}

#[test]
fn measurement_pair_mismatch_and_duplicate_errors() {
    assert!(matches!(
        create_dataframe_from_columns_and_values("\"a\"\t\"b\"", "1"),
        Err(ParseError::ColumnMismatchError)
    ));
    assert!(matches!(
        create_dataframe_from_columns_and_values("\"a\"\t\"a\"", "1\t2"),
        Err(ParseError::DuplicateColumns)
    ));
}

#[test]
fn measurement_empty_header_line_ends_stream() {
    let input = lines(&["\"a\"", "1", "", "\"b\"", "2"]);
    let t = read_measurement_entries(&input, TZ).expect("parse failed");
    assert_eq!(t.height(), 1);
    assert_eq!(t.width(), 1);
}

#[test]
fn reconcile_disjoint_column_sets() {
    // a table over {A,B} and a row over {B,C}: the union {A,B,C}, with
    // nulls in the columns each side lacked
    let mut main = create_dataframe_from_columns_and_values("\"A\"\t\"B\"", "a1\tb1")
        .expect("pair parse failed");
    let row = create_dataframe_from_columns_and_values("\"B\"\t\"C\"", "b2\tc2")
        .expect("pair parse failed");
    align_dataframes_and_insert_row(&mut main, &row).expect("alignment failed");
    assert_eq!(main.width(), 3);
    assert_eq!(main.height(), 2);
    let a = main.find_column("A").unwrap();
    let b = main.find_column("B").unwrap();
    let c = main.find_column("C").unwrap();
    assert_eq!(main.rows[0][a], Value::Str("a1".to_string()));
    assert_eq!(main.rows[0][b], Value::Str("b1".to_string()));
    assert_eq!(main.rows[0][c], Value::Null);
    assert_eq!(main.rows[1][a], Value::Null);
    assert_eq!(main.rows[1][b], Value::Str("b2".to_string()));
    assert_eq!(main.rows[1][c], Value::Str("c2".to_string()));
}

#[test]
fn reconcile_type_clash_fails_and_leaves_table() {
    // a hand-built table whose shared column declares a different type
    let mut main = Table {
        cols: vec![Column { name: "centervalue".to_string(), dtype: DataType::Str }],
        rows: vec![vec![Value::Str("text".to_string())]],
    };
    let row = create_dataframe_from_columns_and_values("\"centervalue\"", "1.5")
        .expect("pair parse failed");
    match align_dataframes_and_insert_row(&mut main, &row) {
        Err(ParseError::DataAlignmentError) => {}
        other => panic!("expected DataAlignmentError, got {:?}", other),
    }
    assert_eq!(main.height(), 1);
    assert_eq!(main.width(), 1);
}

#[test]
fn measurement_time_conversion_failures() {
    // scaling to milliseconds overflows
    let input = lines(&["\"measure_time1970\"", "9223372036854775807"]);
    assert!(matches!(
        read_measurement_entries(&input, TZ),
        Err(ParseError::EpochToDatetime(_))
    ));
    // an unknown zone name
    let input = lines(&["\"measure_time1970\"", "0"]);
    assert!(matches!(
        read_measurement_entries(&input, "Atlantis/Nowhere"),
        Err(ParseError::EpochToDatetime(_))
    ));
}

#[test]
fn measurement_null_epoch_stays_null() {
    let input = lines(&["\"measure_time1970\"\t\"a\"", "oops\tv"]);
    let t = read_measurement_entries(&input, TZ).expect("parse failed");
    let lt = t.find_column("local_time").unwrap();
    let mt = t.find_column("measure_time1970").unwrap();
    assert_eq!(t.rows[0][mt], Value::Null);
    assert_eq!(t.rows[0][lt], Value::Null);
}

#[test]
fn measurement_summer_time_offset() {
    // 2022-07-01T00:00:00Z renders with the summer offset of the zone
    let input = lines(&["\"measure_time1970\"", "1656633600"]);
    let t = read_measurement_entries(&input, TZ).expect("parse failed");
    let lt = t.find_column("local_time").unwrap();
    assert_eq!(t.rows[0][lt], Value::Str("2022-07-01T02:00:00+02:00".to_string()));
}
