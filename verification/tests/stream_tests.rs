use rowtree::errors::TableError;
use rowtree::stream::Advance;
use rowtree::stream::RowStream;
use rowtree::rows::RowOutcome;
use rowtree::value::SourceValue;
use rowtree::value::ValueTree;

fn chars(s: &str) -> Vec<char> {
    s.chars().collect()
}

fn int_row(n: i64) -> Vec<(Vec<char>, SourceValue)> {
    vec![(chars("n"), SourceValue::Int(n))]
}

#[test]
fn empty_stream_is_exhausted_immediately() {
    let mut cur = RowStream::new();
    assert_eq!(cur.advance(None), Advance::Exhausted);
}

#[test]
fn three_rows_yield_exactly_three_times_then_exhaust() {
    let mut cur = RowStream::new();
    for n in [10i64, 20, 30] {
        let got = cur.advance(Some(RowOutcome::Decoded(int_row(n))));
        assert_eq!(got, Advance::Yielded(vec![(chars("n"), ValueTree::Int(n))]));
    }
    assert_eq!(cur.advance(None), Advance::Exhausted);
}

#[test]
fn exhaustion_is_sticky() {
    let mut cur = RowStream::new();
    assert_eq!(cur.advance(None), Advance::Exhausted);
    assert_eq!(cur.advance(None), Advance::Exhausted);
    assert_eq!(
        cur.advance(Some(RowOutcome::Decoded(int_row(1)))),
        Advance::Exhausted
    );
}

#[test]
fn failure_is_isolated_to_its_row_and_the_cursor_stays_usable() {
    let mut cur = RowStream::new();
    assert_eq!(
        cur.advance(Some(RowOutcome::Decoded(int_row(1)))),
        Advance::Yielded(vec![(chars("n"), ValueTree::Int(1))])
    );
    assert_eq!(
        cur.advance(Some(RowOutcome::Failed(chars("corrupt page")))),
        Advance::Failed(TableError::RowDecodeError { row: 1, message: chars("corrupt page") })
    );
    assert_eq!(
        cur.advance(Some(RowOutcome::Decoded(int_row(3)))),
        Advance::Yielded(vec![(chars("n"), ValueTree::Int(3))])
    );
    assert_eq!(cur.advance(None), Advance::Exhausted);
}

#[test]
fn conversion_faults_carry_the_row_index_and_field() {
    let mut cur = RowStream::new();
    assert_eq!(
        cur.advance(Some(RowOutcome::Decoded(int_row(1)))),
        Advance::Yielded(vec![(chars("n"), ValueTree::Int(1))])
    );
    let bad = vec![(chars("big"), SourceValue::Uint(u64::MAX))];
    assert_eq!(
        cur.advance(Some(RowOutcome::Decoded(bad))),
        Advance::Failed(TableError::UnsupportedNumericRange { row: 1, field: chars("big") })
    );
    let raw = vec![(chars("raw"), SourceValue::Bytes(vec![0xc0]))];
    assert_eq!(
        cur.advance(Some(RowOutcome::Decoded(raw))),
        Advance::Failed(TableError::InvalidEncoding { row: 2, field: chars("raw") })
    );
}

#[test]
fn fresh_cursors_replay_the_same_rows_identically() {
    let mut first: Vec<Advance> = Vec::new();
    let mut second: Vec<Advance> = Vec::new();
    for out in [&mut first, &mut second] {
        let mut cur = RowStream::new();
        out.push(cur.advance(Some(RowOutcome::Decoded(int_row(5)))));
        out.push(cur.advance(Some(RowOutcome::Decoded(int_row(6)))));
        out.push(cur.advance(None));
    }
    assert_eq!(first, second);
}

#[test]
fn source_open_errors_carry_their_message() {
    let e = TableError::SourceOpenError { message: chars("no such file") };
    match &e {
        TableError::SourceOpenError { message } => assert_eq!(message, &chars("no such file")),
        _ => panic!("wrong variant"),
    }
}
