use vstd::prelude::*;

use crate::errors::ConvError;
use crate::errors::ErrorModel;
use crate::errors::TableError;
use crate::errors::located;

verus! {

/// One decoded field value, as the file decoder's edge hands it over:
/// each primitive the decoder produces, kept as plain data, plus the two
/// nested shapes. A 64-bit float arrives as its IEEE 754 bit pattern
/// together with the decimal text the decoding edge rendered for it;
/// byte-text arrives as raw bytes and is checked for UTF-8 during
/// conversion.
#[derive(Debug, PartialEq, Eq)]
pub enum SourceValue {
    Null,
    Bool(bool),
    Int(i64),
    Uint(u64),
    Double { bits: u64, text: Vec<char> },
    Text(Vec<char>),
    Bytes(Vec<u8>),
    List(Vec<SourceValue>),
    Group(Vec<(Vec<char>, SourceValue)>),
}

/// The generic recursive value representation that every consumption
/// mode shares. A tree is immutable once constructed; an `Object` keeps
/// its fields in the order the source row declared them.
#[derive(Debug, PartialEq, Eq)]
pub enum ValueTree {
    Null,
    Bool(bool),
    Int(i64),
    /// A finite 64-bit float, as its IEEE 754 bit pattern together with
    /// its decimal text rendering.
    Float { bits: u64, text: Vec<char> },
    Text(Vec<char>),
    List(Vec<ValueTree>),
    Object(Vec<(Vec<char>, ValueTree)>),
}

/// The mathematical shape of a `SourceValue`.
pub enum SourceModel {
    Null,
    Bool(bool),
    Int(i64),
    Uint(u64),
    Double { bits: u64, text: Seq<char> },
    Text(Seq<char>),
    Bytes(Seq<u8>),
    List(Seq<SourceModel>),
    Group(Seq<(Seq<char>, SourceModel)>),
}

/// The mathematical shape of a `ValueTree`.
pub enum TreeModel {
    Null,
    Bool(bool),
    Int(i64),
    Float { bits: u64, text: Seq<char> },
    Text(Seq<char>),
    List(Seq<TreeModel>),
    Object(Seq<(Seq<char>, TreeModel)>),
}

pub open spec fn source_model(v: SourceValue) -> SourceModel
    decreases v,
{
    match v {
        SourceValue::Null => SourceModel::Null,
        SourceValue::Bool(b) => SourceModel::Bool(b),
        SourceValue::Int(i) => SourceModel::Int(i),
        SourceValue::Uint(u) => SourceModel::Uint(u),
        SourceValue::Double { bits, text } => SourceModel::Double { bits, text: text@ },
        SourceValue::Text(t) => SourceModel::Text(t@),
        SourceValue::Bytes(b) => SourceModel::Bytes(b@),
        SourceValue::List(l) => SourceModel::List(source_model_seq(l@)),
        SourceValue::Group(g) => SourceModel::Group(source_model_fields(g@)),
    }
}

pub open spec fn source_model_seq(s: Seq<SourceValue>) -> Seq<SourceModel>
    decreases s,
{
    Seq::new(
        s.len(),
        |i: int|
            if 0 <= i < s.len() {
                source_model(s[i])
            } else {
                SourceModel::Null
            },
    )
}

pub open spec fn source_model_fields(s: Seq<(Vec<char>, SourceValue)>) -> Seq<
    (Seq<char>, SourceModel),
>
    decreases s,
{
    Seq::new(
        s.len(),
        |i: int|
            if 0 <= i < s.len() {
                (s[i].0@, source_model(s[i].1))
            } else {
                (Seq::<char>::empty(), SourceModel::Null)
            },
    )
}

impl View for SourceValue {
    type V = SourceModel;

    open spec fn view(&self) -> SourceModel {
        source_model(*self)
    }
}

pub open spec fn tree_model(v: ValueTree) -> TreeModel
    decreases v,
{
    match v {
        ValueTree::Null => TreeModel::Null,
        ValueTree::Bool(b) => TreeModel::Bool(b),
        ValueTree::Int(i) => TreeModel::Int(i),
        ValueTree::Float { bits, text } => TreeModel::Float { bits, text: text@ },
        ValueTree::Text(t) => TreeModel::Text(t@),
        ValueTree::List(l) => TreeModel::List(tree_model_seq(l@)),
        ValueTree::Object(g) => TreeModel::Object(tree_model_fields(g@)),
    }
}

pub open spec fn tree_model_seq(s: Seq<ValueTree>) -> Seq<TreeModel>
    decreases s,
{
    Seq::new(
        s.len(),
        |i: int|
            if 0 <= i < s.len() {
                tree_model(s[i])
            } else {
                TreeModel::Null
            },
    )
}

pub open spec fn tree_model_fields(s: Seq<(Vec<char>, ValueTree)>) -> Seq<(Seq<char>, TreeModel)>
    decreases s,
{
    Seq::new(
        s.len(),
        |i: int|
            if 0 <= i < s.len() {
                (s[i].0@, tree_model(s[i].1))
            } else {
                (Seq::<char>::empty(), TreeModel::Null)
            },
    )
}

impl View for ValueTree {
    type V = TreeModel;

    open spec fn view(&self) -> TreeModel {
        tree_model(*self)
    }
}

/// True of float bit patterns whose exponent field is all ones: the
/// encodings of NaN and of the two infinities.
pub open spec fn spec_non_finite_bits(bits: u64) -> bool {
    (bits >> 52) & 0x7ff == 0x7ff
}

/// Tells the bit patterns of NaN and the infinities apart from those of
/// finite 64-bit floats.
pub fn non_finite_bits(bits: u64) -> (r: bool)
    ensures
        r == spec_non_finite_bits(bits),
{
    (bits >> 52) & 0x7ff == 0x7ff
}

/// What converting one source field value yields: exactly one tree node
/// mirroring the source structure, or the first conversion fault found.
/// An unsigned 64-bit value above `i64::MAX`, and a NaN or infinite
/// float, are out of the numeric domain; byte-text must be valid UTF-8.
pub open spec fn spec_convert(v: SourceModel) -> Result<TreeModel, ConvError>
    decreases v,
{
    match v {
        SourceModel::Null => Ok(TreeModel::Null),
        SourceModel::Bool(b) => Ok(TreeModel::Bool(b)),
        SourceModel::Int(i) => Ok(TreeModel::Int(i)),
        SourceModel::Uint(u) => if u as int <= i64::MAX as int {
            Ok(TreeModel::Int(u as i64))
        } else {
            Err(ConvError::UnsupportedNumericRange)
        },
        SourceModel::Double { bits, text } => if spec_non_finite_bits(bits) {
            Err(ConvError::UnsupportedNumericRange)
        } else {
            Ok(TreeModel::Float { bits, text })
        },
        SourceModel::Text(t) => Ok(TreeModel::Text(t)),
        SourceModel::Bytes(b) => if vstd::utf8::valid_utf8(b) {
            Ok(TreeModel::Text(vstd::utf8::decode_utf8(b)))
        } else {
            Err(ConvError::InvalidEncoding)
        },
        SourceModel::List(l) => match spec_convert_seq(l) {
            Ok(ts) => Ok(TreeModel::List(ts)),
            Err(e) => Err(e),
        },
        SourceModel::Group(g) => match spec_convert_fields(g) {
            Ok(fs) => Ok(TreeModel::Object(fs)),
            Err(e) => Err(e),
        },
    }
}

/// Converts the elements of a source list in order, stopping at the
/// first fault.
pub open spec fn spec_convert_seq(s: Seq<SourceModel>) -> Result<Seq<TreeModel>, ConvError>
    decreases s,
{
    if s.len() == 0 {
        Ok(seq![])
    } else {
        match spec_convert(s[0]) {
            Ok(t) => match spec_convert_seq(s.subrange(1, s.len() as int)) {
                Ok(ts) => Ok(seq![t] + ts),
                Err(e) => Err(e),
            },
            Err(e) => Err(e),
        }
    }
}

/// Converts the fields of a nested record in declared order, stopping
/// at the first fault.
pub open spec fn spec_convert_fields(s: Seq<(Seq<char>, SourceModel)>) -> Result<
    Seq<(Seq<char>, TreeModel)>,
    ConvError,
>
    decreases s,
{
    if s.len() == 0 {
        Ok(seq![])
    } else {
        match spec_convert(s[0].1) {
            Ok(t) => match spec_convert_fields(s.subrange(1, s.len() as int)) {
                Ok(fs) => Ok(seq![(s[0].0, t)] + fs),
                Err(e) => Err(e),
            },
            Err(e) => Err(e),
        }
    }
}

/// What converting one whole row yields: one field map in declared
/// field order, or the first fault, attributed to the row index and the
/// top-level field it was found under.
pub open spec fn spec_convert_row(
    fields: Seq<(Seq<char>, SourceModel)>,
    row: int,
) -> Result<Seq<(Seq<char>, TreeModel)>, ErrorModel>
    decreases fields,
{
    if fields.len() == 0 {
        Ok(seq![])
    } else {
        match spec_convert(fields[0].1) {
            Err(e) => Err(located(e, row, fields[0].0)),
            Ok(t) => match spec_convert_row(fields.subrange(1, fields.len() as int), row) {
                Ok(rest) => Ok(seq![(fields[0].0, t)] + rest),
                Err(e) => Err(e),
            },
        }
    }
}

/// Splitting a source list anywhere keeps the conversion result: the
/// whole list converts to the converted prefix followed by the
/// converted suffix, and fails exactly when one of the two fails, the
/// prefix first.
pub proof fn lemma_convert_seq_split(s: Seq<SourceModel>, k: int)
    requires
        0 <= k <= s.len(),
    ensures
        spec_convert_seq(s) == match spec_convert_seq(s.subrange(0, k)) {
            Ok(t1) => match spec_convert_seq(s.subrange(k, s.len() as int)) {
                Ok(t2) => Ok::<Seq<TreeModel>, ConvError>(t1 + t2),
                Err(e) => Err::<Seq<TreeModel>, ConvError>(e),
            },
            Err(e) => Err::<Seq<TreeModel>, ConvError>(e),
        },
    decreases k,
{
    if k == 0 {
        assert(s.subrange(0, 0).len() == 0);
        assert(s.subrange(0, s.len() as int) =~= s);
        if spec_convert_seq(s) is Ok {
            assert(seq![] + spec_convert_seq(s)->Ok_0 =~= spec_convert_seq(s)->Ok_0);
        }
    } else {
        assert(s.len() > 0);
        let tail = s.subrange(1, s.len() as int);
        lemma_convert_seq_split(tail, k - 1);
        assert(tail.subrange(0, k - 1) =~= s.subrange(0, k).subrange(1, k));
        assert(tail.subrange(k - 1, tail.len() as int) =~= s.subrange(k, s.len() as int));
        assert(s.subrange(0, k).len() == k);
        assert(s.subrange(0, k)[0] == s[0]);
        match spec_convert(s[0]) {
            Err(_) => {},
            Ok(t) => {
                match spec_convert_seq(tail.subrange(0, k - 1)) {
                    Err(_) => {},
                    Ok(t1) => {
                        match spec_convert_seq(tail.subrange(k - 1, tail.len() as int)) {
                            Err(_) => {},
                            Ok(t2) => {
                                assert((seq![t] + t1) + t2 =~= seq![t] + (t1 + t2));
                            },
                        }
                    },
                }
            },
        }
    }
}

/// Splitting a record's fields anywhere keeps the conversion result, as
/// `lemma_convert_seq_split` does for lists.
pub proof fn lemma_convert_fields_split(s: Seq<(Seq<char>, SourceModel)>, k: int)
    requires
        0 <= k <= s.len(),
    ensures
        spec_convert_fields(s) == match spec_convert_fields(s.subrange(0, k)) {
            Ok(t1) => match spec_convert_fields(s.subrange(k, s.len() as int)) {
                Ok(t2) => Ok::<Seq<(Seq<char>, TreeModel)>, ConvError>(t1 + t2),
                Err(e) => Err::<Seq<(Seq<char>, TreeModel)>, ConvError>(e),
            },
            Err(e) => Err::<Seq<(Seq<char>, TreeModel)>, ConvError>(e),
        },
    decreases k,
{
    if k == 0 {
        assert(s.subrange(0, 0).len() == 0);
        assert(s.subrange(0, s.len() as int) =~= s);
        if spec_convert_fields(s) is Ok {
            assert(seq![] + spec_convert_fields(s)->Ok_0 =~= spec_convert_fields(s)->Ok_0);
        }
    } else {
        assert(s.len() > 0);
        let tail = s.subrange(1, s.len() as int);
        lemma_convert_fields_split(tail, k - 1);
        assert(tail.subrange(0, k - 1) =~= s.subrange(0, k).subrange(1, k));
        assert(tail.subrange(k - 1, tail.len() as int) =~= s.subrange(k, s.len() as int));
        assert(s.subrange(0, k).len() == k);
        assert(s.subrange(0, k)[0] == s[0]);
        match spec_convert(s[0].1) {
            Err(_) => {},
            Ok(t) => {
                match spec_convert_fields(tail.subrange(0, k - 1)) {
                    Err(_) => {},
                    Ok(t1) => {
                        match spec_convert_fields(tail.subrange(k - 1, tail.len() as int)) {
                            Err(_) => {},
                            Ok(t2) => {
                                assert((seq![(s[0].0, t)] + t1) + t2 =~= seq![(s[0].0, t)] + (t1
                                    + t2));
                            },
                        }
                    },
                }
            },
        }
    }
}

/// Splitting a row's fields anywhere keeps the conversion result, as
/// `lemma_convert_seq_split` does for lists.
pub proof fn lemma_convert_row_split(s: Seq<(Seq<char>, SourceModel)>, row: int, k: int)
    requires
        0 <= k <= s.len(),
    ensures
        spec_convert_row(s, row) == match spec_convert_row(s.subrange(0, k), row) {
            Ok(t1) => match spec_convert_row(s.subrange(k, s.len() as int), row) {
                Ok(t2) => Ok::<Seq<(Seq<char>, TreeModel)>, ErrorModel>(t1 + t2),
                Err(e) => Err::<Seq<(Seq<char>, TreeModel)>, ErrorModel>(e),
            },
            Err(e) => Err::<Seq<(Seq<char>, TreeModel)>, ErrorModel>(e),
        },
    decreases k,
{
    if k == 0 {
        assert(s.subrange(0, 0).len() == 0);
        assert(s.subrange(0, s.len() as int) =~= s);
        if spec_convert_row(s, row) is Ok {
            assert(seq![] + spec_convert_row(s, row)->Ok_0 =~= spec_convert_row(s, row)->Ok_0);
        }
    } else {
        assert(s.len() > 0);
        let tail = s.subrange(1, s.len() as int);
        lemma_convert_row_split(tail, row, k - 1);
        assert(tail.subrange(0, k - 1) =~= s.subrange(0, k).subrange(1, k));
        assert(tail.subrange(k - 1, tail.len() as int) =~= s.subrange(k, s.len() as int));
        assert(s.subrange(0, k).len() == k);
        assert(s.subrange(0, k)[0] == s[0]);
        match spec_convert(s[0].1) {
            Err(_) => {},
            Ok(t) => {
                match spec_convert_row(tail.subrange(0, k - 1), row) {
                    Err(_) => {},
                    Ok(t1) => {
                        match spec_convert_row(tail.subrange(k - 1, tail.len() as int), row) {
                            Err(_) => {},
                            Ok(t2) => {
                                assert((seq![(s[0].0, t)] + t1) + t2 =~= seq![(s[0].0, t)] + (t1
                                    + t2));
                            },
                        }
                    },
                }
            },
        }
    }
}

/// Relies on std's `str::from_utf8`: it accepts exactly the byte
/// sequences that are valid UTF-8 and yields their decoded characters
/// in order.
#[verifier::external_body]
fn decode_utf8_bytes(b: &Vec<u8>) -> (r: Option<Vec<char>>)
    ensures
        r is Some <==> vstd::utf8::valid_utf8(b@),
        r matches Some(cs) ==> cs@ == vstd::utf8::decode_utf8(b@),
{
    match core::str::from_utf8(b) {
        Ok(s) => Some(s.chars().collect()),
        Err(_) => None,
    }
}

/// Relies on std's `FromIterator` for `String`: collecting characters
/// builds the string of exactly those characters, in order.
#[verifier::external_body]
pub(crate) fn chars_to_string(v: &Vec<char>) -> (r: String)
    ensures
        r@ == v@,
{
    v.iter().collect()
}

/// Copies a character vector.
pub(crate) fn clone_chars(v: &Vec<char>) -> (r: Vec<char>)
    ensures
        r@ == v@,
{
    let mut r: Vec<char> = Vec::new();
    let mut i: usize = 0;
    while i < v.len()
        invariant
            i <= v@.len(),
            r@ == v@.subrange(0, i as int),
        decreases v@.len() - i,
    {
        r.push(v[i]);
        proof {
            assert(v@.subrange(0, i as int).push(v@[i as int]) =~= v@.subrange(0, i as int + 1));
        }
        i = i + 1;
    }
    proof {
        assert(v@.subrange(0, v@.len() as int) =~= v@);
    }
    r
}

/// Converts one decoded source field value into exactly one tree node,
/// recursively and without loss of structure, or reports the first
/// conversion fault found.
#[verifier::loop_isolation(false)]
pub fn convert_value(v: &SourceValue) -> (r: Result<ValueTree, ConvError>)
    ensures
        match r {
            Ok(t) => spec_convert(v@) == Ok::<TreeModel, ConvError>(t@),
            Err(e) => spec_convert(v@) == Err::<TreeModel, ConvError>(e),
        },
    decreases *v,
{
    match v {
        SourceValue::Null => Ok(ValueTree::Null),
        SourceValue::Bool(b) => Ok(ValueTree::Bool(*b)),
        SourceValue::Int(i) => Ok(ValueTree::Int(*i)),
        SourceValue::Uint(u) => {
            if *u <= i64::MAX as u64 {
                Ok(ValueTree::Int(*u as i64))
            } else {
                Err(ConvError::UnsupportedNumericRange)
            }
        },
        SourceValue::Double { bits, text } => {
            if non_finite_bits(*bits) {
                Err(ConvError::UnsupportedNumericRange)
            } else {
                Ok(ValueTree::Float { bits: *bits, text: clone_chars(text) })
            }
        },
        SourceValue::Text(t) => Ok(ValueTree::Text(clone_chars(t))),
        SourceValue::Bytes(b) => {
            match decode_utf8_bytes(b) {
                Some(cs) => Ok(ValueTree::Text(cs)),
                None => Err(ConvError::InvalidEncoding),
            }
        },
        SourceValue::List(l) => {
            let ghost ms = source_model_seq(l@);
            let mut out: Vec<ValueTree> = Vec::new();
            let mut i: usize = 0;
            proof {
                assert(ms.subrange(0, 0) =~= Seq::<SourceModel>::empty());
                assert(tree_model_seq(out@) =~= Seq::<TreeModel>::empty());
            }
            while i < l.len()
                invariant
                    i <= l@.len(),
                    ms == source_model_seq(l@),
                    ms.len() == l@.len(),
                    out@.len() == i,
                    spec_convert_seq(ms.subrange(0, i as int)) == Ok::<
                        Seq<TreeModel>,
                        ConvError,
                    >(tree_model_seq(out@)),
                decreases l@.len() - i,
            {
                proof {
                    assert(decreases_to!(*v => v->List_0));
                    assert(v->List_0 == *l);
                    assert(decreases_to!(*l => l@[i as int]));
                }
                match convert_value(&l[i]) {
                    Ok(t) => {
                        proof {
                            lemma_convert_seq_split(ms.subrange(0, i as int + 1), i as int);
                            assert(ms.subrange(0, i as int + 1).subrange(0, i as int) =~= ms
                                .subrange(0, i as int));
                            let single = ms.subrange(0, i as int + 1).subrange(
                                i as int,
                                i as int + 1,
                            );
                            assert(single.len() == 1);
                            assert(single[0] == ms[i as int]);
                            assert(single.subrange(1, 1) =~= Seq::<SourceModel>::empty());
                            assert(spec_convert_seq(Seq::<SourceModel>::empty()) == Ok::<
                                Seq<TreeModel>,
                                ConvError,
                            >(seq![]));
                            assert(spec_convert_seq(single) == Ok::<Seq<TreeModel>, ConvError>(
                                seq![tree_model(t)] + seq![],
                            ));
                            assert(tree_model_seq(out@).push(tree_model(t)) =~= tree_model_seq(
                                out@.push(t),
                            ));
                            assert(tree_model_seq(out@) + (seq![tree_model(t)] + seq![])
                                =~= tree_model_seq(out@.push(t)));
                        }
                        out.push(t);
                    },
                    Err(e) => {
                        proof {
                            lemma_convert_seq_split(ms, i as int);
                            let suffix = ms.subrange(i as int, ms.len() as int);
                            assert(suffix[0] == ms[i as int]);
                            assert(spec_convert_seq(suffix) == Err::<Seq<TreeModel>, ConvError>(e));
                        }
                        return Err(e);
                    },
                }
                i = i + 1;
            }
            proof {
                assert(ms.subrange(0, ms.len() as int) =~= ms);
            }
            Ok(ValueTree::List(out))
        },
        SourceValue::Group(g) => {
            let ghost ms = source_model_fields(g@);
            let mut out: Vec<(Vec<char>, ValueTree)> = Vec::new();
            let mut i: usize = 0;
            proof {
                assert(ms.subrange(0, 0) =~= Seq::<(Seq<char>, SourceModel)>::empty());
                assert(tree_model_fields(out@) =~= Seq::<(Seq<char>, TreeModel)>::empty());
            }
            while i < g.len()
                invariant
                    i <= g@.len(),
                    ms == source_model_fields(g@),
                    ms.len() == g@.len(),
                    out@.len() == i,
                    spec_convert_fields(ms.subrange(0, i as int)) == Ok::<
                        Seq<(Seq<char>, TreeModel)>,
                        ConvError,
                    >(tree_model_fields(out@)),
                decreases g@.len() - i,
            {
                proof {
                    assert(decreases_to!(*v => v->Group_0));
                    assert(v->Group_0 == *g);
                    assert(decreases_to!(*g => g@[i as int]));
                    assert(decreases_to!(g@[i as int] => g@[i as int].1));
                }
                let name = clone_chars(&g[i].0);
                match convert_value(&g[i].1) {
                    Ok(t) => {
                        proof {
                            lemma_convert_fields_split(ms.subrange(0, i as int + 1), i as int);
                            assert(ms.subrange(0, i as int + 1).subrange(0, i as int) =~= ms
                                .subrange(0, i as int));
                            let single = ms.subrange(0, i as int + 1).subrange(
                                i as int,
                                i as int + 1,
                            );
                            assert(single.len() == 1);
                            assert(single[0] == ms[i as int]);
                            assert(single.subrange(1, 1) =~= Seq::<
                                (Seq<char>, SourceModel),
                            >::empty());
                            assert(spec_convert_fields(Seq::<(Seq<char>, SourceModel)>::empty())
                                == Ok::<Seq<(Seq<char>, TreeModel)>, ConvError>(seq![]));
                            assert(spec_convert_fields(single) == Ok::<
                                Seq<(Seq<char>, TreeModel)>,
                                ConvError,
                            >(seq![(ms[i as int].0, tree_model(t))] + seq![]));
                            assert(tree_model_fields(out@).push((name@, tree_model(t)))
                                =~= tree_model_fields(out@.push((name, t))));
                            assert(tree_model_fields(out@) + (seq![(ms[i as int].0, tree_model(t))]
                                + seq![]) =~= tree_model_fields(out@.push((name, t))));
                        }
                        out.push((name, t));
                    },
                    Err(e) => {
                        proof {
                            lemma_convert_fields_split(ms, i as int);
                            let suffix = ms.subrange(i as int, ms.len() as int);
                            assert(suffix[0] == ms[i as int]);
                            assert(spec_convert_fields(suffix) == Err::<
                                Seq<(Seq<char>, TreeModel)>,
                                ConvError,
                            >(e));
                        }
                        return Err(e);
                    },
                }
                i = i + 1;
            }
            proof {
                assert(ms.subrange(0, ms.len() as int) =~= ms);
            }
            Ok(ValueTree::Object(out))
        },
    }
}

/// Converts one whole decoded row into its field map, preserving the
/// declared field order, or reports the first fault, attributed to the
/// given row index and the top-level field it was found under.
#[verifier::loop_isolation(false)]
pub fn convert_row(fields: &Vec<(Vec<char>, SourceValue)>, row: usize) -> (r: Result<
    Vec<(Vec<char>, ValueTree)>,
    TableError,
>)
    ensures
        match r {
            Ok(m) => spec_convert_row(source_model_fields(fields@), row as int) == Ok::<
                Seq<(Seq<char>, TreeModel)>,
                ErrorModel,
            >(tree_model_fields(m@)),
            Err(e) => spec_convert_row(source_model_fields(fields@), row as int) == Err::<
                Seq<(Seq<char>, TreeModel)>,
                ErrorModel,
            >(e@),
        },
{
    let ghost ms = source_model_fields(fields@);
    let mut out: Vec<(Vec<char>, ValueTree)> = Vec::new();
    let mut i: usize = 0;
    proof {
        assert(ms.subrange(0, 0) =~= Seq::<(Seq<char>, SourceModel)>::empty());
        assert(tree_model_fields(out@) =~= Seq::<(Seq<char>, TreeModel)>::empty());
    }
    while i < fields.len()
        invariant
            i <= fields@.len(),
            ms == source_model_fields(fields@),
            ms.len() == fields@.len(),
            out@.len() == i,
            spec_convert_row(ms.subrange(0, i as int), row as int) == Ok::<
                Seq<(Seq<char>, TreeModel)>,
                ErrorModel,
            >(tree_model_fields(out@)),
        decreases fields@.len() - i,
    {
        let name = clone_chars(&fields[i].0);
        match convert_value(&fields[i].1) {
            Ok(t) => {
                proof {
                    lemma_convert_row_split(ms.subrange(0, i as int + 1), row as int, i as int);
                    assert(ms.subrange(0, i as int + 1).subrange(0, i as int) =~= ms.subrange(
                        0,
                        i as int,
                    ));
                    let single = ms.subrange(0, i as int + 1).subrange(i as int, i as int + 1);
                    assert(single.len() == 1);
                    assert(single[0] == ms[i as int]);
                    assert(single.subrange(1, 1) =~= Seq::<(Seq<char>, SourceModel)>::empty());
                    assert(spec_convert_row(Seq::<(Seq<char>, SourceModel)>::empty(), row as int)
                        == Ok::<Seq<(Seq<char>, TreeModel)>, ErrorModel>(seq![]));
                    assert(spec_convert_row(single, row as int) == Ok::<
                        Seq<(Seq<char>, TreeModel)>,
                        ErrorModel,
                    >(seq![(ms[i as int].0, tree_model(t))] + seq![]));
                    assert(tree_model_fields(out@).push((name@, tree_model(t)))
                        =~= tree_model_fields(out@.push((name, t))));
                    assert(tree_model_fields(out@) + (seq![(ms[i as int].0, tree_model(t))]
                        + seq![]) =~= tree_model_fields(out@.push((name, t))));
                }
                out.push((name, t));
            },
            Err(e) => {
                let err = match e {
                    ConvError::UnsupportedNumericRange => TableError::UnsupportedNumericRange {
                        row,
                        field: name,
                    },
                    ConvError::InvalidEncoding => TableError::InvalidEncoding { row, field: name },
                };
                proof {
                    lemma_convert_row_split(ms, row as int, i as int);
                    let suffix = ms.subrange(i as int, ms.len() as int);
                    assert(suffix[0] == ms[i as int]);
                    assert(spec_convert_row(suffix, row as int) == Err::<
                        Seq<(Seq<char>, TreeModel)>,
                        ErrorModel,
                    >(located(e, row as int, ms[i as int].0)));
                }
                return Err(err);
            },
        }
        i = i + 1;
    }
    proof {
        assert(ms.subrange(0, ms.len() as int) =~= ms);
    }
    Ok(out)
}

} // verus!
