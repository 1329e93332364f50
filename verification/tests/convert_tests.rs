use rowtree::errors::ConvError;
use rowtree::errors::TableError;
use rowtree::value::SourceValue;
use rowtree::value::ValueTree;
use rowtree::value::convert_row;
use rowtree::value::convert_value;
use rowtree::value::non_finite_bits;

fn chars(s: &str) -> Vec<char> {
    s.chars().collect()
}

#[test]
fn scalars_convert_losslessly() {
    assert_eq!(convert_value(&SourceValue::Null), Ok(ValueTree::Null));
    assert_eq!(convert_value(&SourceValue::Bool(true)), Ok(ValueTree::Bool(true)));
    assert_eq!(convert_value(&SourceValue::Int(-42)), Ok(ValueTree::Int(-42)));
    assert_eq!(convert_value(&SourceValue::Text(chars("x"))), Ok(ValueTree::Text(chars("x"))));
}

#[test]
fn unsigned_values_in_range_become_ints() {
    assert_eq!(convert_value(&SourceValue::Uint(0)), Ok(ValueTree::Int(0)));
    assert_eq!(
        convert_value(&SourceValue::Uint(i64::MAX as u64)),
        Ok(ValueTree::Int(i64::MAX))
    );
}

#[test]
fn unsigned_overflow_is_rejected_not_truncated() {
    assert_eq!(
        convert_value(&SourceValue::Uint(i64::MAX as u64 + 1)),
        Err(ConvError::UnsupportedNumericRange)
    );
    assert_eq!(
        convert_value(&SourceValue::Uint(u64::MAX)),
        Err(ConvError::UnsupportedNumericRange)
    );
}

#[test]
fn finite_float_keeps_bits_and_text() {
    let x = 2.5f64;
    let v = SourceValue::Double { bits: x.to_bits(), text: chars("2.5") };
    assert_eq!(
        convert_value(&v),
        Ok(ValueTree::Float { bits: x.to_bits(), text: chars("2.5") })
    );
}

#[test]
fn nan_and_infinity_are_rejected() {
    assert!(non_finite_bits(f64::NAN.to_bits()));
    assert!(non_finite_bits(f64::INFINITY.to_bits()));
    assert!(non_finite_bits(f64::NEG_INFINITY.to_bits()));
    assert!(!non_finite_bits(0.0f64.to_bits()));
    assert!(!non_finite_bits(f64::MAX.to_bits()));
    let v = SourceValue::Double { bits: f64::NAN.to_bits(), text: chars("NaN") };
    assert_eq!(convert_value(&v), Err(ConvError::UnsupportedNumericRange));
}

#[test]
fn valid_utf8_bytes_become_text() {
    let v = SourceValue::Bytes("héllo".as_bytes().to_vec());
    assert_eq!(convert_value(&v), Ok(ValueTree::Text(chars("héllo"))));
}

#[test]
fn invalid_utf8_bytes_are_rejected_not_replaced() {
    let v = SourceValue::Bytes(vec![0xff, 0xfe, 0x41]);
    assert_eq!(convert_value(&v), Err(ConvError::InvalidEncoding));
}

#[test]
fn empty_list_converts_to_empty_list_not_null() {
    assert_eq!(convert_value(&SourceValue::List(vec![])), Ok(ValueTree::List(vec![])));
}

#[test]
fn nested_values_convert_recursively_in_order() {
    let v = SourceValue::Group(vec![
        (chars("l"), SourceValue::List(vec![SourceValue::Int(1), SourceValue::Int(2)])),
        (chars("s"), SourceValue::Text(chars("y"))),
    ]);
    assert_eq!(
        convert_value(&v),
        Ok(ValueTree::Object(vec![
            (chars("l"), ValueTree::List(vec![ValueTree::Int(1), ValueTree::Int(2)])),
            (chars("s"), ValueTree::Text(chars("y"))),
        ]))
    );
}

#[test]
fn nested_overflow_is_found_inside_lists() {
    let v = SourceValue::List(vec![SourceValue::Int(1), SourceValue::Uint(u64::MAX)]);
    assert_eq!(convert_value(&v), Err(ConvError::UnsupportedNumericRange));
}

#[test]
fn row_conversion_keeps_declared_field_order() {
    let row = vec![
        (chars("b"), SourceValue::Int(2)),
        (chars("a"), SourceValue::Int(1)),
    ];
    let m = convert_row(&row, 0).unwrap();
    assert_eq!(m.len(), 2);
    assert_eq!(m[0].0, chars("b"));
    assert_eq!(m[1].0, chars("a"));
}

#[test]
fn row_conversion_errors_name_row_and_field() {
    let row = vec![
        (chars("ok"), SourceValue::Int(1)),
        (chars("big"), SourceValue::Uint(u64::MAX)),
    ];
    assert_eq!(
        convert_row(&row, 7),
        Err(TableError::UnsupportedNumericRange { row: 7, field: chars("big") })
    );
    let row2 = vec![(chars("raw"), SourceValue::Bytes(vec![0x80]))];
    assert_eq!(
        convert_row(&row2, 3),
        Err(TableError::InvalidEncoding { row: 3, field: chars("raw") })
    );
}
