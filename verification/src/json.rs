use vstd::prelude::*;

use crate::numtext::digit;
use crate::numtext::digit_char;
use crate::numtext::int_text;
use crate::numtext::push_dec_i64;
use crate::value::TreeModel;
use crate::value::ValueTree;
use crate::value::tree_model_fields;
use crate::value::tree_model_seq;

verus! {

/// The escape of one character inside a JSON string literal: the quote,
/// the backslash and the named control characters as two-character
/// escapes, any other control character as a four-digit hexadecimal
/// escape, and every remaining character as itself.
pub open spec fn esc_char(c: char) -> Seq<char> {
    if c == '"' {
        seq!['\\', '"']
    } else if c == '\\' {
        seq!['\\', '\\']
    } else if c == '\u{8}' {
        seq!['\\', 'b']
    } else if c == '\u{c}' {
        seq!['\\', 'f']
    } else if c == '\n' {
        seq!['\\', 'n']
    } else if c == '\r' {
        seq!['\\', 'r']
    } else if c == '\t' {
        seq!['\\', 't']
    } else if (c as u32) < 0x20 {
        seq![
            '\\',
            'u',
            '0',
            '0',
            digit_char(((c as u32) / 16) as nat),
            digit_char(((c as u32) % 16) as nat),
        ]
    } else {
        seq![c]
    }
}

/// The body of a JSON string literal: each character escaped, in order.
pub open spec fn json_escaped(s: Seq<char>) -> Seq<char>
    decreases s,
{
    if s.len() == 0 {
        seq![]
    } else {
        esc_char(s[0]) + json_escaped(s.subrange(1, s.len() as int))
    }
}

/// A JSON string literal: the escaped text between quotes.
pub open spec fn quoted(s: Seq<char>) -> Seq<char> {
    seq!['"'] + json_escaped(s) + seq!['"']
}

/// The JSON text of one value tree: `null`, `true`/`false`, a bare
/// integer literal, a float's decimal text, a string literal, an array,
/// or an object whose members keep the tree's field order.
pub open spec fn json_text(v: TreeModel) -> Seq<char>
    decreases v,
{
    match v {
        TreeModel::Null => seq!['n', 'u', 'l', 'l'],
        TreeModel::Bool(b) => if b {
            seq!['t', 'r', 'u', 'e']
        } else {
            seq!['f', 'a', 'l', 's', 'e']
        },
        TreeModel::Int(i) => int_text(i as int),
        TreeModel::Float { bits, text } => text,
        TreeModel::Text(t) => quoted(t),
        TreeModel::List(l) => seq!['['] + json_items(l) + seq![']'],
        TreeModel::Object(g) => seq!['{'] + json_entries(g) + seq!['}'],
    }
}

/// The comma-separated JSON texts of an array's elements, in order,
/// with no trailing comma.
pub open spec fn json_items(l: Seq<TreeModel>) -> Seq<char>
    decreases l,
{
    if l.len() == 0 {
        seq![]
    } else if l.len() == 1 {
        json_text(l[0])
    } else {
        json_text(l[0]) + seq![','] + json_items(l.subrange(1, l.len() as int))
    }
}

/// The comma-separated members of a JSON object, each a quoted field
/// name, a colon and the field's JSON text, in field order.
pub open spec fn json_entries(g: Seq<(Seq<char>, TreeModel)>) -> Seq<char>
    decreases g,
{
    if g.len() == 0 {
        seq![]
    } else if g.len() == 1 {
        quoted(g[0].0) + seq![':'] + json_text(g[0].1)
    } else {
        quoted(g[0].0) + seq![':'] + json_text(g[0].1) + seq![','] + json_entries(
            g.subrange(1, g.len() as int),
        )
    }
}

/// Escaping text one character at a time agrees with escaping it whole.
pub proof fn lemma_escaped_push(s: Seq<char>, c: char)
    ensures
        json_escaped(s.push(c)) == json_escaped(s) + esc_char(c),
    decreases s.len(),
{
    if s.len() == 0 {
        assert(s.push(c)[0] == c);
        assert(s.push(c).subrange(1, 1) =~= Seq::<char>::empty());
        assert(json_escaped(Seq::<char>::empty()) == Seq::<char>::empty());
        assert(esc_char(c) + Seq::<char>::empty() =~= esc_char(c));
        assert(json_escaped(s) + esc_char(c) =~= esc_char(c));
    } else {
        let t = s.subrange(1, s.len() as int);
        lemma_escaped_push(t, c);
        assert(s.push(c)[0] == s[0]);
        assert(s.push(c).subrange(1, s.len() as int + 1) =~= t.push(c));
        assert(esc_char(s[0]) + (json_escaped(t) + esc_char(c)) =~= (esc_char(s[0])
            + json_escaped(t)) + esc_char(c));
    }
}

/// Rendering an array one element at a time agrees with rendering it
/// whole: the next element follows a comma unless it is the first.
pub proof fn lemma_items_push(l: Seq<TreeModel>, x: TreeModel)
    ensures
        json_items(l.push(x)) == if l.len() == 0 {
            json_text(x)
        } else {
            json_items(l) + seq![','] + json_text(x)
        },
    decreases l.len(),
{
    let p = l.push(x);
    if l.len() == 0 {
        assert(p.len() == 1);
        assert(p[0] == x);
    } else if l.len() == 1 {
        assert(p.len() == 2);
        assert(p[0] == l[0]);
        assert(p.subrange(1, 2) =~= seq![x]);
        assert(seq![x].len() == 1);
        assert(seq![x][0] == x);
        assert(json_items(seq![x]) == json_text(x));
        assert(json_items(l) == json_text(l[0]));
        assert(json_text(l[0]) + seq![','] + json_text(x) == json_items(l) + seq![','] + json_text(
            x,
        ));
    } else {
        let t = l.subrange(1, l.len() as int);
        lemma_items_push(t, x);
        assert(p[0] == l[0]);
        assert(p.subrange(1, l.len() as int + 1) =~= t.push(x));
        assert(json_items(p) == json_text(l[0]) + seq![','] + (json_items(t) + seq![',']
            + json_text(x)));
        assert(json_text(l[0]) + seq![','] + (json_items(t) + seq![','] + json_text(x))
            =~= (json_text(l[0]) + seq![','] + json_items(t)) + seq![','] + json_text(x));
    }
}

/// Rendering an object one member at a time agrees with rendering it
/// whole: the next member follows a comma unless it is the first.
pub proof fn lemma_entries_push(g: Seq<(Seq<char>, TreeModel)>, k: Seq<char>, x: TreeModel)
    ensures
        json_entries(g.push((k, x))) == if g.len() == 0 {
            quoted(k) + seq![':'] + json_text(x)
        } else {
            json_entries(g) + seq![','] + (quoted(k) + seq![':'] + json_text(x))
        },
    decreases g.len(),
{
    let p = g.push((k, x));
    if g.len() == 0 {
        assert(p.len() == 1);
        assert(p[0] == (k, x));
    } else if g.len() == 1 {
        assert(p.len() == 2);
        assert(p[0] == g[0]);
        assert(p.subrange(1, 2) =~= seq![(k, x)]);
        assert(seq![(k, x)].len() == 1);
        assert(seq![(k, x)][0] == (k, x));
        assert(json_entries(seq![(k, x)]) == quoted(k) + seq![':'] + json_text(x));
        assert(json_entries(g) == quoted(g[0].0) + seq![':'] + json_text(g[0].1));
        assert(quoted(g[0].0) + seq![':'] + json_text(g[0].1) + seq![','] + (quoted(k) + seq![':']
            + json_text(x)) =~= json_entries(g) + seq![','] + (quoted(k) + seq![':'] + json_text(
            x,
        )));
    } else {
        let t = g.subrange(1, g.len() as int);
        lemma_entries_push(t, k, x);
        assert(p[0] == g[0]);
        assert(p.subrange(1, g.len() as int + 1) =~= t.push((k, x)));
        assert(json_entries(p) == quoted(g[0].0) + seq![':'] + json_text(g[0].1) + seq![','] + (
        json_entries(t) + seq![','] + (quoted(k) + seq![':'] + json_text(x))));
        assert(quoted(g[0].0) + seq![':'] + json_text(g[0].1) + seq![','] + (json_entries(t)
            + seq![','] + (quoted(k) + seq![':'] + json_text(x))) =~= (quoted(g[0].0) + seq![':']
            + json_text(g[0].1) + seq![','] + json_entries(t)) + seq![','] + (quoted(k) + seq![':']
            + json_text(x)));
    }
}

/// Appends a copy of the given characters.
#[verifier::loop_isolation(false)]
pub fn push_chars(out: &mut Vec<char>, v: &Vec<char>)
    ensures
        final(out)@ == old(out)@ + v@,
{
    proof {
        assert(old(out)@ + v@.subrange(0, 0) =~= old(out)@);
    }
    let mut i: usize = 0;
    while i < v.len()
        invariant
            i <= v@.len(),
            out@ == old(out)@ + v@.subrange(0, i as int),
        decreases v@.len() - i,
    {
        out.push(v[i]);
        proof {
            assert((old(out)@ + v@.subrange(0, i as int)).push(v@[i as int]) =~= old(out)@
                + v@.subrange(0, i as int + 1));
        }
        i = i + 1;
    }
    proof {
        assert(v@.subrange(0, v@.len() as int) =~= v@);
    }
}

/// Appends the escape of one character.
pub fn push_esc_char(out: &mut Vec<char>, c: char)
    ensures
        final(out)@ == old(out)@ + esc_char(c),
{
    if c == '"' {
        out.push('\\');
        out.push('"');
        proof {
            assert(old(out)@.push('\\').push('"') =~= old(out)@ + esc_char(c));
        }
    } else if c == '\\' {
        out.push('\\');
        out.push('\\');
        proof {
            assert(old(out)@.push('\\').push('\\') =~= old(out)@ + esc_char(c));
        }
    } else if c == '\u{8}' {
        out.push('\\');
        out.push('b');
        proof {
            assert(old(out)@.push('\\').push('b') =~= old(out)@ + esc_char(c));
        }
    } else if c == '\u{c}' {
        out.push('\\');
        out.push('f');
        proof {
            assert(old(out)@.push('\\').push('f') =~= old(out)@ + esc_char(c));
        }
    } else if c == '\n' {
        out.push('\\');
        out.push('n');
        proof {
            assert(old(out)@.push('\\').push('n') =~= old(out)@ + esc_char(c));
        }
    } else if c == '\r' {
        out.push('\\');
        out.push('r');
        proof {
            assert(old(out)@.push('\\').push('r') =~= old(out)@ + esc_char(c));
        }
    } else if c == '\t' {
        out.push('\\');
        out.push('t');
        proof {
            assert(old(out)@.push('\\').push('t') =~= old(out)@ + esc_char(c));
        }
    } else {
        let cu = c as u32;
        if cu < 0x20 {
            out.push('\\');
            out.push('u');
            out.push('0');
            out.push('0');
            out.push(digit((cu / 16) as u8));
            out.push(digit((cu % 16) as u8));
            proof {
                assert(old(out)@.push('\\').push('u').push('0').push('0').push(
                    digit_char(((c as u32) / 16) as nat),
                ).push(digit_char(((c as u32) % 16) as nat)) =~= old(out)@ + esc_char(c));
            }
        } else {
            out.push(c);
            proof {
                assert(old(out)@.push(c) =~= old(out)@ + esc_char(c));
            }
        }
    }
}

/// Appends the escaped body of a string literal.
#[verifier::loop_isolation(false)]
pub fn push_escaped(out: &mut Vec<char>, t: &Vec<char>)
    ensures
        final(out)@ == old(out)@ + json_escaped(t@),
{
    proof {
        assert(t@.subrange(0, 0) =~= Seq::<char>::empty());
        assert(old(out)@ + json_escaped(Seq::<char>::empty()) =~= old(out)@);
    }
    let mut i: usize = 0;
    while i < t.len()
        invariant
            i <= t@.len(),
            out@ == old(out)@ + json_escaped(t@.subrange(0, i as int)),
        decreases t@.len() - i,
    {
        push_esc_char(out, t[i]);
        proof {
            lemma_escaped_push(t@.subrange(0, i as int), t@[i as int]);
            assert(t@.subrange(0, i as int).push(t@[i as int]) =~= t@.subrange(0, i as int + 1));
            assert((old(out)@ + json_escaped(t@.subrange(0, i as int))) + esc_char(t@[i as int])
                =~= old(out)@ + (json_escaped(t@.subrange(0, i as int)) + esc_char(t@[i as int])));
        }
        i = i + 1;
    }
    proof {
        assert(t@.subrange(0, t@.len() as int) =~= t@);
    }
}

/// Appends a whole JSON string literal.
pub fn push_quoted(out: &mut Vec<char>, t: &Vec<char>)
    ensures
        final(out)@ == old(out)@ + quoted(t@),
{
    out.push('"');
    push_escaped(out, t);
    out.push('"');
    proof {
        assert(((old(out)@.push('"')) + json_escaped(t@)).push('"') =~= old(out)@ + quoted(t@));
    }
}

/// Appends the JSON text of one value tree.
#[verifier::rlimit(50)]
#[verifier::loop_isolation(false)]
pub fn push_json_value(out: &mut Vec<char>, v: &ValueTree)
    ensures
        final(out)@ == old(out)@ + json_text(v@),
    decreases *v,
{
    match v {
        ValueTree::Null => {
            out.push('n');
            out.push('u');
            out.push('l');
            out.push('l');
            proof {
                assert(old(out)@.push('n').push('u').push('l').push('l') =~= old(out)@ + json_text(
                    v@,
                ));
            }
        },
        ValueTree::Bool(b) => {
            if *b {
                out.push('t');
                out.push('r');
                out.push('u');
                out.push('e');
                proof {
                    assert(old(out)@.push('t').push('r').push('u').push('e') =~= old(out)@
                        + json_text(v@));
                }
            } else {
                out.push('f');
                out.push('a');
                out.push('l');
                out.push('s');
                out.push('e');
                proof {
                    assert(old(out)@.push('f').push('a').push('l').push('s').push('e') =~= old(
                        out,
                    )@ + json_text(v@));
                }
            }
        },
        ValueTree::Int(i) => {
            push_dec_i64(out, *i);
        },
        ValueTree::Float { bits, text } => {
            push_chars(out, text);
        },
        ValueTree::Text(t) => {
            push_quoted(out, t);
        },
        ValueTree::List(l) => {
            let ghost ms = tree_model_seq(l@);
            out.push('[');
            proof {
                assert(json_items(ms.subrange(0, 0)) == Seq::<char>::empty());
                assert(old(out)@.push('[') =~= old(out)@ + seq!['['] + json_items(
                    ms.subrange(0, 0),
                ));
            }
            let mut i: usize = 0;
            while i < l.len()
                invariant
                    i <= l@.len(),
                    ms == tree_model_seq(l@),
                    ms.len() == l@.len(),
                    out@ == old(out)@ + seq!['['] + json_items(ms.subrange(0, i as int)),
                decreases l@.len() - i,
            {
                if i > 0 {
                    out.push(',');
                }
                proof {
                    assert(decreases_to!(*v => v->List_0));
                    assert(v->List_0 == *l);
                    assert(decreases_to!(*l => l@[i as int]));
                }
                push_json_value(out, &l[i]);
                proof {
                    lemma_items_push(ms.subrange(0, i as int), ms[i as int]);
                    assert(ms.subrange(0, i as int).push(ms[i as int]) =~= ms.subrange(
                        0,
                        i as int + 1,
                    ));
                    if i == 0 {
                        assert((old(out)@ + seq!['['] + json_items(ms.subrange(0, 0))) + json_text(
                            ms[0],
                        ) =~= old(out)@ + seq!['['] + json_items(ms.subrange(0, 1)));
                    } else {
                        assert(((old(out)@ + seq!['['] + json_items(ms.subrange(0, i as int))).push(
                            ',',
                        )) + json_text(ms[i as int]) =~= old(out)@ + seq!['['] + json_items(
                            ms.subrange(0, i as int + 1),
                        ));
                    }
                }
                i = i + 1;
            }
            out.push(']');
            proof {
                assert(ms.subrange(0, ms.len() as int) =~= ms);
                assert((old(out)@ + seq!['['] + json_items(ms)).push(']') =~= old(out)@ + json_text(
                    v@,
                ));
            }
        },
        ValueTree::Object(g) => {
            let ghost ms = tree_model_fields(g@);
            out.push('{');
            proof {
                assert(json_entries(ms.subrange(0, 0)) == Seq::<char>::empty());
                assert(old(out)@.push('{') =~= old(out)@ + seq!['{'] + json_entries(
                    ms.subrange(0, 0),
                ));
            }
            let mut i: usize = 0;
            while i < g.len()
                invariant
                    i <= g@.len(),
                    ms == tree_model_fields(g@),
                    ms.len() == g@.len(),
                    out@ == old(out)@ + seq!['{'] + json_entries(ms.subrange(0, i as int)),
                decreases g@.len() - i,
            {
                if i > 0 {
                    out.push(',');
                }
                let ghost mid = out@;
                push_quoted(out, &g[i].0);
                out.push(':');
                proof {
                    assert(decreases_to!(*v => v->Object_0));
                    assert(v->Object_0 == *g);
                    assert(decreases_to!(*g => g@[i as int]));
                    assert(decreases_to!(g@[i as int] => g@[i as int].1));
                }
                push_json_value(out, &g[i].1);
                proof {
                    lemma_entries_push(
                        ms.subrange(0, i as int),
                        ms[i as int].0,
                        ms[i as int].1,
                    );
                    assert(ms.subrange(0, i as int).push(ms[i as int]) =~= ms.subrange(
                        0,
                        i as int + 1,
                    ));
                    assert(out@ == ((mid + quoted(ms[i as int].0)).push(':')) + json_text(
                        ms[i as int].1,
                    ));
                    if i == 0 {
                        assert(((mid + quoted(ms[0].0)).push(':')) + json_text(ms[0].1) =~= old(
                            out,
                        )@ + seq!['{'] + json_entries(ms.subrange(0, 1)));
                    } else {
                        assert(mid == (old(out)@ + seq!['{'] + json_entries(
                            ms.subrange(0, i as int),
                        )).push(','));
                        assert(((mid + quoted(ms[i as int].0)).push(':')) + json_text(
                            ms[i as int].1,
                        ) =~= old(out)@ + seq!['{'] + json_entries(ms.subrange(0, i as int + 1)));
                    }
                }
                i = i + 1;
            }
            out.push('}');
            proof {
                assert(ms.subrange(0, ms.len() as int) =~= ms);
                assert((old(out)@ + seq!['{'] + json_entries(ms)).push('}') =~= old(out)@
                    + json_text(v@));
            }
        },
    }
}

} // verus!

use crate::errors::ErrorModel;
use crate::errors::TableError;
use crate::rows::RowOutcome;
use crate::rows::RowOutcomeModel;
use crate::rows::events_model;
use crate::rows::lemma_collect_split;
use crate::rows::spec_collect;
use crate::value::chars_to_string;
use crate::value::convert_row;
use crate::value::clone_chars;

verus! {

/// The converted row maps of a drained sequence, seen as the object
/// trees a JSON array would hold.
pub open spec fn objects_of(maps: Seq<Seq<(Seq<char>, TreeModel)>>) -> Seq<TreeModel> {
    maps.map_values(|m: Seq<(Seq<char>, TreeModel)>| TreeModel::Object(m))
}

/// What the JSON materialization of a pulled row sequence yields: one
/// array of objects in row order, empty input giving `[]`; the first
/// decode failure or conversion fault aborts the whole call.
pub open spec fn spec_to_json(events: Seq<RowOutcomeModel>) -> Result<Seq<char>, ErrorModel> {
    match spec_collect(events, 0) {
        Ok(maps) => Ok(seq!['['] + json_items(objects_of(maps)) + seq![']']),
        Err(e) => Err(e),
    }
}

/// Drains a pulled row sequence and renders it as one JSON array of
/// objects, preserving row order and field order; the first decode
/// failure or conversion fault aborts the whole call, with no partial
/// text returned.
#[verifier::loop_isolation(false)]
pub fn to_json_text(events: &Vec<RowOutcome>) -> (r: Result<String, TableError>)
    ensures
        match r {
            Ok(s) => spec_to_json(events_model(events@)) == Ok::<Seq<char>, ErrorModel>(s@),
            Err(e) => spec_to_json(events_model(events@)) == Err::<Seq<char>, ErrorModel>(e@),
        },
{
    let ghost em = events_model(events@);
    let ghost mut maps: Seq<Seq<(Seq<char>, TreeModel)>> = Seq::empty();
    let mut buf: Vec<char> = Vec::new();
    buf.push('[');
    let mut i: usize = 0;
    proof {
        assert(em.subrange(0, 0) =~= Seq::<RowOutcomeModel>::empty());
        assert(objects_of(maps) =~= Seq::<TreeModel>::empty());
        assert(Seq::<char>::empty().push('[') =~= seq!['['] + json_items(objects_of(maps)));
    }
    while i < events.len()
        invariant
            i <= events@.len(),
            em == events_model(events@),
            em.len() == events@.len(),
            maps.len() == i,
            spec_collect(em.subrange(0, i as int), 0) == Ok::<
                Seq<Seq<(Seq<char>, TreeModel)>>,
                ErrorModel,
            >(maps),
            buf@ == seq!['['] + json_items(objects_of(maps)),
        decreases events@.len() - i,
    {
        let ev = &events[i];
        proof {
            assert(*ev == events@[i as int]);
            assert(em[i as int] == events@[i as int]@);
        }
        match ev {
            RowOutcome::Failed(m) => {
                let err = TableError::RowDecodeError { row: i, message: clone_chars(m) };
                proof {
                    lemma_collect_split(em, 0, i as int);
                    let suffix = em.subrange(i as int, em.len() as int);
                    assert(suffix[0] == em[i as int]);
                    assert(spec_collect(suffix, i as int) == Err::<
                        Seq<Seq<(Seq<char>, TreeModel)>>,
                        ErrorModel,
                    >(err@));
                }
                return Err(err);
            },
            RowOutcome::Decoded(fields) => {
                match convert_row(fields, i) {
                    Ok(mrow) => {
                        if i > 0 {
                            buf.push(',');
                        }
                        let ghost mid = buf@;
                        let obj = ValueTree::Object(mrow);
                        push_json_value(&mut buf, &obj);
                        proof {
                            let mf = tree_model_fields(obj->Object_0@);
                            assert(obj@ == TreeModel::Object(mf));
                            lemma_collect_split(em.subrange(0, i as int + 1), 0, i as int);
                            assert(em.subrange(0, i as int + 1).subrange(0, i as int) =~= em
                                .subrange(0, i as int));
                            let single = em.subrange(0, i as int + 1).subrange(
                                i as int,
                                i as int + 1,
                            );
                            assert(single.len() == 1);
                            assert(single[0] == em[i as int]);
                            assert(single.subrange(1, 1) =~= Seq::<RowOutcomeModel>::empty());
                            assert(spec_collect(Seq::<RowOutcomeModel>::empty(), i as int + 1)
                                == Ok::<Seq<Seq<(Seq<char>, TreeModel)>>, ErrorModel>(seq![]));
                            assert(spec_collect(single, i as int) == Ok::<
                                Seq<Seq<(Seq<char>, TreeModel)>>,
                                ErrorModel,
                            >(seq![mf] + seq![]));
                            assert(maps + (seq![mf] + seq![]) =~= maps.push(mf));
                            lemma_items_push(objects_of(maps), TreeModel::Object(mf));
                            assert(objects_of(maps).push(TreeModel::Object(mf)) =~= objects_of(
                                maps.push(mf),
                            ));
                            if i == 0 {
                                assert(mid + json_text(obj@) =~= seq!['['] + json_items(
                                    objects_of(maps.push(mf)),
                                ));
                            } else {
                                assert(mid == (seq!['['] + json_items(objects_of(maps))).push(','));
                                assert(mid + json_text(obj@) =~= seq!['['] + json_items(
                                    objects_of(maps.push(mf)),
                                ));
                            }
                            maps = maps.push(mf);
                        }
                    },
                    Err(e) => {
                        proof {
                            lemma_collect_split(em, 0, i as int);
                            let suffix = em.subrange(i as int, em.len() as int);
                            assert(suffix[0] == em[i as int]);
                            assert(spec_collect(suffix, i as int) == Err::<
                                Seq<Seq<(Seq<char>, TreeModel)>>,
                                ErrorModel,
                            >(e@));
                        }
                        return Err(e);
                    },
                }
            },
        }
        i = i + 1;
    }
    buf.push(']');
    proof {
        assert(em.subrange(0, em.len() as int) =~= em);
        assert((seq!['['] + json_items(objects_of(maps))).push(']') =~= seq!['['] + json_items(
            objects_of(maps),
        ) + seq![']']);
    }
    Ok(chars_to_string(&buf))
}

} // verus!
