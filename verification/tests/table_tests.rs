use ksm::error::ParseError;
use ksm::measurement::create_dataframe_from_columns_and_values;
use ksm::table::{dtype_for, DataType, Table, Value};

fn meas(table_hdr: &str, vals: &str) -> Table {
    create_dataframe_from_columns_and_values(table_hdr, vals).expect("pair parse failed")
}

#[test]
fn dtype_lookup() {
    assert_eq!(dtype_for("measure_time1970"), DataType::Int64);
    assert_eq!(dtype_for("centervalue"), DataType::Float64);
    assert_eq!(dtype_for("wall_min"), DataType::Float64);
    assert_eq!(dtype_for("check_diameter_outer_mean_nomlimit"), DataType::Float64);
    assert_eq!(dtype_for("info6"), DataType::Str);
    assert_eq!(dtype_for("local_time"), DataType::Str);
    assert_eq!(dtype_for(""), DataType::Str);
}

#[test]
fn error_messages() {
    assert_eq!(
        ParseError::MissingField("pgm_name".to_string()).describe(),
        "Missing required field: pgm_name"
    );
    assert_eq!(
        ParseError::MalformedEntry("bad line".to_string()).describe(),
        "Malformed entry found: bad line"
    );
    assert_eq!(ParseError::ColumnMismatchError.describe(), "Column mismatch");
    assert_eq!(ParseError::DuplicateColumns.describe(), "Duplicate columns");
    assert_eq!(
        ParseError::TypeConversionError("c".into(), "v".into(), "Int64".into()).describe(),
        "Error when converting column c to Int64: v"
    );
    assert_eq!(
        ParseError::EpochToDatetime("zone".to_string()).describe(),
        "Error converting epoch column to datetime: zone"
    );
}

#[test]
fn first_value_fallbacks() {
    let t = meas("\"info6\"\t\"centervalue\"", "abc\t1.5");
    assert_eq!(t.first_value_or_empty_string("info6"), "abc");
    // a float cell is not text
    assert_eq!(t.first_value_or_empty_string("centervalue"), "");
    // an unknown column
    assert_eq!(t.first_value_or_empty_string("nope"), "");
    // a table without rows
    let empty = Table::new();
    assert_eq!(empty.first_value_or_empty_string("info6"), "");
}

#[test]
fn select_columns_subset_and_order() {
    let t = meas("\"a\"\t\"b\"\t\"c\"", "1\t2\t3");
    let s = t.select_dataframe_columns("c,a").expect("select failed");
    assert_eq!(s.width(), 2);
    assert_eq!(s.cols[0].name, "c");
    assert_eq!(s.cols[1].name, "a");
    assert_eq!(s.rows[0][0], Value::Str("3".to_string()));
    assert_eq!(s.rows[0][1], Value::Str("1".to_string()));
}

#[test]
fn select_columns_edge_cases() {
    let t = meas("\"a\"\t\"b\"", "1\t2");
    // the empty request keeps the whole table
    let all = t.select_dataframe_columns("").expect("select failed");
    assert_eq!(all.width(), 2);
    assert_eq!(all.height(), 1);
    // an unknown name
    assert!(t.select_dataframe_columns("a,z").is_none());
    // a repeated name
    assert!(t.select_dataframe_columns("a,a").is_none());
}

#[test]
fn filter_by_measure_time_range() {
    let header = "\"measure_time1970\"\t\"info6\"";
    let mut t = meas(header, "100\tfirst");
    for vals in ["200\tsecond", "300\tthird", "oops\tnull-row"] {
        let row = meas(header, vals);
        ksm::measurement::align_dataframes_and_insert_row(&mut t, &row).expect("align failed");
    }
    let kept = t.filter_dataframe_by_measure_time(150, 300).expect("filter failed");
    assert_eq!(kept.height(), 2);
    let i6 = kept.find_column("info6").unwrap();
    assert_eq!(kept.rows[0][i6], Value::Str("second".to_string()));
    assert_eq!(kept.rows[1][i6], Value::Str("third".to_string()));
    // a table without the epoch column cannot be filtered
    let plain = meas("\"a\"", "1");
    assert!(plain.filter_dataframe_by_measure_time(0, 10).is_none());
}
