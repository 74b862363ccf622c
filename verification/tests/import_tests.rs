use toolkit::error::DataError;
use toolkit::imports::{
    array_rows, csv_data_rows, csv_rows_to_import, identify_rows, insert_statement, normalize_dynamic_headers,
    optional_single_row, quote_identifier, required_single_row, sample_json_rows, sample_text2_rows,
    sample_text_rows, split_fixed, value_to_string,
};
use toolkit::json::JsonValue;

fn s(x: &str) -> String {
    x.to_string()
}

fn row(cells: &[&str]) -> Vec<String> {
    cells.iter().map(|c| c.to_string()).collect()
}

fn obj(members: Vec<(&str, JsonValue)>) -> JsonValue {
    JsonValue::Object(members.into_iter().map(|(k, v)| (k.to_string(), v)).collect())
}

#[test]
fn fixed_width_split() {
    let fields = split_fixed(b"CBB1A20240101xyz", &[3, 1, 1, 8]).unwrap();
    assert_eq!(fields, row(&["CBB", "1", "A", "20240101"]));
}

#[test]
fn fixed_width_too_short() {
    match split_fixed(b"CBB1", &[3, 1, 1, 8]) {
        Err(DataError::LineTooShort { expected, got }) => {
            assert_eq!(expected, 13);
            assert_eq!(got, 4);
        },
        _ => panic!("expected a short line error"),
    }
}

#[test]
fn fixed_width_bad_utf8() {
    let line = [b'C', b'B', b'B', 0xff, b'A', b'1', b'2', b'3', b'4', b'5', b'6', b'7', b'8'];
    let err = split_fixed(&line, &[3, 1, 1, 8]).unwrap_err();
    assert!(matches!(err, DataError::SegmentNotUtf8 { start: 3, end: 4, .. }));
    assert_eq!(
        err.message(),
        "fixed-width segment is not valid UTF-8 at 3..4: invalid utf-8 sequence of 1 bytes from index 0"
    );
}

#[test]
fn fixed_width_multibyte_segment() {
    let fields = split_fixed("Aあ".as_bytes(), &[1, 3]).unwrap();
    assert_eq!(fields, row(&["A", "あ"]));
}

#[test]
fn text_rows_with_and_without_identify() {
    let lines = vec![b"CBB1A20240101".to_vec(), b"HBB0000000000".to_vec(), b"CBB2B20250202tail".to_vec()];
    assert_eq!(
        sample_text_rows("id1", &lines).unwrap(),
        vec![row(&["id1", "1", "A", "20240101"]), row(&["id1", "2", "B", "20250202"])]
    );
    assert_eq!(sample_text2_rows(&lines).unwrap(), vec![row(&["1", "A", "20240101"]), row(&["2", "B", "20250202"])]);
}

#[test]
fn text_rows_stop_at_short_record() {
    let lines = vec![b"CBB1A20240101".to_vec(), b"CBB".to_vec()];
    assert!(matches!(sample_text2_rows(&lines), Err(DataError::LineTooShort { expected: 13, got: 3 })));
}

#[test]
fn csv_rows_skip_headers_and_check_width() {
    let rows = vec![row(&["code", "x"]), row(&["1", "a"]), vec![], row(&["zipcode", "y"]), row(&["2", "b"])];
    let kept = csv_rows_to_import(&rows, "T", 2, "code").unwrap();
    assert_eq!(kept, vec![row(&["1", "a"]), row(&["2", "b"])]);
    let bad = vec![row(&["1", "a"]), row(&["2"])];
    match csv_rows_to_import(&bad, "T", 2, "code") {
        Err(DataError::InvalidColumnCount { table, expected, got }) => {
            assert_eq!(table, "T");
            assert_eq!(expected, 2);
            assert_eq!(got, 1);
        },
        _ => panic!("expected a column count error"),
    }
}

#[test]
fn csv_address_rows() {
    let good: Vec<String> = (0..15).map(|i| i.to_string()).collect();
    let header: Vec<String> = std::iter::once(s("code")).chain((1..15).map(|i| i.to_string())).collect();
    let kept = csv_data_rows(&[header, good.clone()]).unwrap();
    assert_eq!(kept, vec![good]);
    assert!(matches!(csv_data_rows(&[row(&["1", "2"])]), Err(DataError::InvalidColumnCount { expected: 15, got: 2, .. })));
}

#[test]
fn insert_statement_checks_all_widths_first() {
    assert_eq!(insert_statement("T", &[]).unwrap(), None);
    assert_eq!(insert_statement("Identify", &[row(&["a"])]).unwrap().unwrap(), "INSERT INTO Identify VALUES (?)");
    let same = [row(&["a", "b", "c"]), row(&["d", "e", "f"])];
    assert_eq!(insert_statement("T", &same).unwrap().unwrap(), "INSERT INTO T VALUES (?,?,?)");
    let err = insert_statement("T", &[row(&["a", "b", "c"]), row(&["d", "e", "f"]), row(&["g"]), row(&["h"])])
        .unwrap_err();
    assert!(matches!(err, DataError::RowWidthMismatch { expected: 3, got: 1, .. }));
    assert_eq!(err.message(), "row width mismatch for T: expected 3, got 1");
    assert_eq!(insert_statement("E", &[vec![]]).unwrap().unwrap(), "INSERT INTO E VALUES ()");
}

#[test]
fn identify_row() {
    assert_eq!(identify_rows("A001"), vec![row(&["A001"])]);
}

#[test]
fn dynamic_headers() {
    let headers = vec![s("a"), s(" a "), s(""), s("\u{feff}b"), s("a"), s("\u{feff}\u{feff}c ")];
    assert_eq!(normalize_dynamic_headers(&headers).unwrap(), row(&["a", "a_2", "column_3", "b", "a_3", "c"]));
    let clash = vec![s("a"), s("a"), s("a_2")];
    assert_eq!(normalize_dynamic_headers(&clash).unwrap(), row(&["a", "a_2", "a_2"]));
}

#[test]
fn dynamic_header_errors() {
    assert!(matches!(normalize_dynamic_headers(&[]), Err(DataError::EmptyHeader)));
    let headers = vec![s("a"), s("b\0"), s("c\0")];
    assert!(matches!(normalize_dynamic_headers(&headers), Err(DataError::HeaderHasNul { column: 2 })));
}

#[test]
fn identifier_quoting() {
    assert_eq!(quote_identifier("table"), "\"table\"");
    assert_eq!(quote_identifier("a\"b"), "\"a\"\"b\"");
    assert_eq!(quote_identifier(""), "\"\"");
}

#[test]
fn json_scalar_texts() {
    assert_eq!(value_to_string(&JsonValue::String(s("x")), "f").unwrap(), "x");
    assert_eq!(value_to_string(&JsonValue::Number(s("12.5")), "f").unwrap(), "12.5");
    assert_eq!(value_to_string(&JsonValue::Bool(true), "f").unwrap(), "true");
    assert_eq!(value_to_string(&JsonValue::Bool(false), "f").unwrap(), "false");
    assert_eq!(value_to_string(&JsonValue::Null, "f").unwrap(), "");
    match value_to_string(&JsonValue::Array(vec![]), "f") {
        Err(DataError::NotScalar { field }) => assert_eq!(field, "f"),
        _ => panic!("expected a scalar error"),
    }
}

fn sample_document() -> JsonValue {
    let record = |id: &str, price: JsonValue| {
        obj(vec![
            ("category", JsonValue::Null),
            ("id", JsonValue::String(s(id))),
            ("name", JsonValue::String(s("n"))),
            ("path", JsonValue::String(s("/p"))),
            ("price", price),
            ("type", JsonValue::Bool(true)),
        ])
    };
    obj(vec![(
        "sample_json_data",
        JsonValue::Array(vec![record("1", JsonValue::Number(s("100"))), record("2", JsonValue::Number(s("2.5")))]),
    )])
}

#[test]
fn sample_json_import_rows() {
    let rows = sample_json_rows("ID", &sample_document()).unwrap();
    assert_eq!(rows, vec![row(&["ID", "1", "n", "true", "/p", "100", ""]), row(&["ID", "2", "n", "true", "/p", "2.5", ""])]);
    let empty = obj(vec![]);
    assert!(sample_json_rows("ID", &empty).unwrap().is_empty());
}

#[test]
fn json_row_errors() {
    let not_array = obj(vec![("k", JsonValue::Bool(true))]);
    assert!(matches!(array_rows(&not_array, "k", &["a"], None), Err(DataError::NotAnArray { .. })));
    let not_objects = obj(vec![("k", JsonValue::Array(vec![JsonValue::Null]))]);
    assert!(matches!(array_rows(&not_objects, "k", &["a"], None), Err(DataError::NotObjects { .. })));
    let missing = obj(vec![("k", JsonValue::Array(vec![obj(vec![("b", JsonValue::Null)])]))]);
    match array_rows(&missing, "k", &["b", "a"], None) {
        Err(DataError::MissingField { field }) => assert_eq!(field, "a"),
        _ => panic!("expected a missing field"),
    }
}

#[test]
fn single_rows() {
    let doc = obj(vec![("k", JsonValue::Array(vec![obj(vec![("a", JsonValue::String(s("x")))])]))]);
    assert_eq!(required_single_row(&doc, "k", &["a"], Some("p")).unwrap(), row(&["p", "x"]));
    assert_eq!(optional_single_row(&doc, "k", &["a"], None).unwrap(), Some(row(&["x"])));
    let none = obj(vec![]);
    assert_eq!(optional_single_row(&none, "k", &["a"], None).unwrap(), None);
    assert!(matches!(required_single_row(&none, "k", &["a"], None), Err(DataError::RecordMissing { .. })));
}

#[test]
fn data_error_messages() {
    let e = DataError::InvalidColumnCount { table: "AllAddress".to_string(), expected: 15, got: 3 };
    assert_eq!(e.message(), "AllAddress row has invalid column count: expected 15, got 3");
    let e = DataError::RowWidthMismatch { table: "T".to_string(), expected: 2, got: 10 };
    assert_eq!(e.message(), "row width mismatch for T: expected 2, got 10");
    let e = DataError::LineTooShort { expected: 13, got: 0 };
    assert_eq!(e.message(), "fixed-width line is too short: expected at least 13 bytes, got 0");
    assert_eq!(DataError::NotAnArray { key: "k".to_string() }.message(), "k must be an array");
    assert_eq!(DataError::NotObjects { key: "k".to_string() }.message(), "k must contain JSON objects");
    assert_eq!(DataError::MissingField { field: "id".to_string() }.message(), "missing field id");
    assert_eq!(DataError::NotScalar { field: "id".to_string() }.message(), "field id must be a scalar value");
    assert_eq!(
        DataError::RecordMissing { key: "r".to_string() }.message(),
        "required record r is missing or empty"
    );
    assert_eq!(DataError::EmptyHeader.message(), "DrSum header is empty");
    assert_eq!(DataError::HeaderHasNul { column: 2 }.message(), "DrSum header contains NUL at column 2");
    assert_eq!(DataError::DrSumFile { path: "d.csv".to_string() }.message(), "failed to decode DrSum CSV: d.csv");
    assert_eq!(DataError::Csv { message: "CSV parse error".to_string() }.message(), "CSV parse error");
}
