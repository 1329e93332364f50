use rowtree::errors::TableError;
use rowtree::csvtext::to_csv_text;
use rowtree::json::to_json_text;
use rowtree::rows::RowOutcome;
use rowtree::rows::to_list;
use rowtree::value::SourceValue;
use rowtree::value::ValueTree;

fn chars(s: &str) -> Vec<char> {
    s.chars().collect()
}

fn scalar_row() -> Vec<(Vec<char>, SourceValue)> {
    vec![
        (chars("a"), SourceValue::Int(1)),
        (chars("b"), SourceValue::Bool(true)),
        (chars("c"), SourceValue::Null),
        (chars("d"), SourceValue::Text(chars("x"))),
    ]
}

#[test]
fn scalar_round_trip_list() {
    let events = vec![RowOutcome::Decoded(scalar_row())];
    let rows = to_list(&events).unwrap();
    assert_eq!(rows.len(), 1);
    let m = &rows[0];
    assert_eq!(m.len(), 4);
    assert_eq!(m[0], (chars("a"), ValueTree::Int(1)));
    assert_eq!(m[1], (chars("b"), ValueTree::Bool(true)));
    assert_eq!(m[2], (chars("c"), ValueTree::Null));
    assert_eq!(m[3], (chars("d"), ValueTree::Text(chars("x"))));
}

#[test]
fn scalar_round_trip_json() {
    let events = vec![RowOutcome::Decoded(scalar_row())];
    let s = to_json_text(&events).unwrap();
    assert_eq!(s, "[{\"a\":1,\"b\":true,\"c\":null,\"d\":\"x\"}]");
}

#[test]
fn empty_file_yields_empty_outputs() {
    let events: Vec<RowOutcome> = vec![];
    assert_eq!(to_json_text(&events).unwrap(), "[]");
    assert_eq!(to_list(&events).unwrap().len(), 0);
    let schema = vec![chars("a"), chars("b")];
    assert_eq!(to_csv_text(&schema, &events).unwrap(), "a,b\n");
}

#[test]
fn row_order_is_preserved_across_modes() {
    let events = vec![
        RowOutcome::Decoded(vec![(chars("n"), SourceValue::Int(10))]),
        RowOutcome::Decoded(vec![(chars("n"), SourceValue::Int(20))]),
        RowOutcome::Decoded(vec![(chars("n"), SourceValue::Int(30))]),
    ];
    let rows = to_list(&events).unwrap();
    assert_eq!(rows[0][0].1, ValueTree::Int(10));
    assert_eq!(rows[1][0].1, ValueTree::Int(20));
    assert_eq!(rows[2][0].1, ValueTree::Int(30));
    assert_eq!(
        to_json_text(&events).unwrap(),
        "[{\"n\":10},{\"n\":20},{\"n\":30}]"
    );
    let schema = vec![chars("n")];
    assert_eq!(to_csv_text(&schema, &events).unwrap(), "n\n10\n20\n30\n");
}

#[test]
fn decode_failure_aborts_every_eager_mode() {
    let events = vec![
        RowOutcome::Decoded(vec![(chars("n"), SourceValue::Int(1))]),
        RowOutcome::Failed(chars("page checksum mismatch")),
    ];
    let expected = TableError::RowDecodeError {
        row: 1,
        message: chars("page checksum mismatch"),
    };
    assert_eq!(to_json_text(&events), Err(expected.clone()));
    assert_eq!(to_list(&events), Err(expected.clone()));
    let schema = vec![chars("n")];
    assert_eq!(to_csv_text(&schema, &events), Err(expected));
}

#[test]
fn numeric_overflow_aborts_every_eager_mode() {
    let events = vec![
        RowOutcome::Decoded(vec![(chars("n"), SourceValue::Int(1))]),
        RowOutcome::Decoded(vec![(chars("n"), SourceValue::Uint(u64::MAX))]),
    ];
    let expected = TableError::UnsupportedNumericRange { row: 1, field: chars("n") };
    assert_eq!(to_json_text(&events), Err(expected.clone()));
    assert_eq!(to_list(&events), Err(expected.clone()));
    let schema = vec![chars("n")];
    assert_eq!(to_csv_text(&schema, &events), Err(expected));
}

#[test]
fn json_renders_negative_and_extreme_ints_exactly() {
    let events = vec![RowOutcome::Decoded(vec![
        (chars("zero"), SourceValue::Int(0)),
        (chars("neg"), SourceValue::Int(-123)),
        (chars("min"), SourceValue::Int(i64::MIN)),
        (chars("max"), SourceValue::Int(i64::MAX)),
    ])];
    assert_eq!(
        to_json_text(&events).unwrap(),
        "[{\"zero\":0,\"neg\":-123,\"min\":-9223372036854775808,\"max\":9223372036854775807}]"
    );
}

#[test]
fn json_escapes_strings_exactly() {
    let events = vec![RowOutcome::Decoded(vec![(
        chars("s"),
        SourceValue::Text(vec!['q', '"', '\\', '\n', '\t', '\u{1}']),
    )])];
    let s = to_json_text(&events).unwrap();
    assert_eq!(s, "[{\"s\":\"q\\\"\\\\\\n\\t\\u0001\"}]");
}

#[test]
fn json_output_parses_back_with_identical_values() {
    let x = 2.5f64;
    let events = vec![RowOutcome::Decoded(vec![
        (chars("i"), SourceValue::Int(7)),
        (chars("f"), SourceValue::Double { bits: x.to_bits(), text: chars("2.5") }),
        (chars("s"), SourceValue::Text(chars("a \"b\"\nc"))),
        (chars("l"), SourceValue::List(vec![SourceValue::Int(1), SourceValue::Null])),
        (
            chars("g"),
            SourceValue::Group(vec![(chars("inner"), SourceValue::Bool(false))]),
        ),
    ])];
    let s = to_json_text(&events).unwrap();
    let v: serde_json::Value = serde_json::from_str(&s).unwrap();
    let row = &v[0];
    assert_eq!(row["i"].as_i64(), Some(7));
    assert_eq!(row["f"].as_f64(), Some(2.5));
    assert_eq!(row["s"].as_str(), Some("a \"b\"\nc"));
    assert_eq!(row["l"][0].as_i64(), Some(1));
    assert!(row["l"][1].is_null());
    assert_eq!(row["g"]["inner"].as_bool(), Some(false));
}

#[test]
fn csv_quotes_cells_exactly_when_needed() {
    let events = vec![RowOutcome::Decoded(vec![
        (chars("plain"), SourceValue::Text(chars("abc"))),
        (chars("tricky"), SourceValue::Text(chars("a,\"b\"\nc"))),
    ])];
    let schema = vec![chars("plain"), chars("tricky")];
    let s = to_csv_text(&schema, &events).unwrap();
    assert_eq!(s, "plain,tricky\nabc,\"a,\"\"b\"\"\nc\"\n");
}

#[test]
fn csv_output_parses_back_with_the_csv_reader() {
    let events = vec![RowOutcome::Decoded(vec![
        (chars("plain"), SourceValue::Text(chars("abc"))),
        (chars("tricky"), SourceValue::Text(chars("a,\"b\"\nc"))),
        (chars("n"), SourceValue::Int(-5)),
    ])];
    let schema = vec![chars("plain"), chars("tricky"), chars("n")];
    let s = to_csv_text(&schema, &events).unwrap();
    let mut rdr = csv::ReaderBuilder::new().has_headers(true).from_reader(s.as_bytes());
    assert_eq!(rdr.headers().unwrap(), vec!["plain", "tricky", "n"]);
    let records: Vec<csv::StringRecord> = rdr.records().map(|r| r.unwrap()).collect();
    assert_eq!(records.len(), 1);
    assert_eq!(&records[0][0], "abc");
    assert_eq!(&records[0][1], "a,\"b\"\nc");
    assert_eq!(&records[0][2], "-5");
}

#[test]
fn csv_renders_nested_values_in_their_default_text_form() {
    let events = vec![RowOutcome::Decoded(vec![
        (
            chars("l"),
            SourceValue::List(vec![SourceValue::Int(1), SourceValue::Int(2)]),
        ),
        (
            chars("g"),
            SourceValue::Group(vec![(chars("x"), SourceValue::Text(chars("y")))]),
        ),
    ])];
    let schema = vec![chars("l"), chars("g")];
    let s = to_csv_text(&schema, &events).unwrap();
    assert_eq!(s, "l,g\n\"[1, 2]\",{x: y}\n");
}

#[test]
fn rerunning_each_mode_yields_identical_output() {
    let events = vec![
        RowOutcome::Decoded(scalar_row()),
        RowOutcome::Decoded(vec![(chars("a"), SourceValue::Int(2))]),
    ];
    let schema = vec![chars("a"), chars("b"), chars("c"), chars("d")];
    assert_eq!(to_json_text(&events).unwrap(), to_json_text(&events).unwrap());
    assert_eq!(to_csv_text(&schema, &events).unwrap(), to_csv_text(&schema, &events).unwrap());
    assert_eq!(to_list(&events).unwrap(), to_list(&events).unwrap());
}
