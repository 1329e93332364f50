use vstd::prelude::*;

use crate::errors::ErrorModel;
use crate::errors::TableError;
use crate::numtext::int_text;
use crate::numtext::push_dec_i64;
use crate::rows::RowOutcome;
use crate::rows::RowOutcomeModel;
use crate::rows::events_model;
use crate::rows::lemma_collect_split;
use crate::rows::spec_collect;
use crate::value::TreeModel;
use crate::value::ValueTree;
use crate::value::chars_to_string;
use crate::value::clone_chars;
use crate::value::convert_row;
use crate::value::tree_model_fields;
use crate::value::tree_model_seq;

verus! {

/// The source-native text form of one value tree, as a delimited-text
/// cell holds it before quoting: bare text for strings, decimal digits
/// for numbers, and the default bracketed forms for the nested shapes.
pub open spec fn plain_text(v: TreeModel) -> Seq<char>
    decreases v,
{
    match v {
        TreeModel::Null => seq!['n', 'u', 'l', 'l'],
        TreeModel::Bool(b) => if b {
            seq!['t', 'r', 'u', 'e']
        } else {
            seq!['f', 'a', 'l', 's', 'e']
        },
        TreeModel::Int(i) => int_text(i as int),
        TreeModel::Float { bits, text } => text,
        TreeModel::Text(t) => t,
        TreeModel::List(l) => seq!['['] + plain_items(l) + seq![']'],
        TreeModel::Object(g) => seq!['{'] + plain_entries(g) + seq!['}'],
    }
}

/// The elements of a list's default text form, separated by a comma and
/// a space.
pub open spec fn plain_items(l: Seq<TreeModel>) -> Seq<char>
    decreases l,
{
    if l.len() == 0 {
        seq![]
    } else if l.len() == 1 {
        plain_text(l[0])
    } else {
        plain_text(l[0]) + seq![',', ' '] + plain_items(l.subrange(1, l.len() as int))
    }
}

/// The members of a record's default text form: the bare field name, a
/// colon and a space, and the field's text, separated by a comma and a
/// space.
pub open spec fn plain_entries(g: Seq<(Seq<char>, TreeModel)>) -> Seq<char>
    decreases g,
{
    if g.len() == 0 {
        seq![]
    } else if g.len() == 1 {
        g[0].0 + seq![':', ' '] + plain_text(g[0].1)
    } else {
        g[0].0 + seq![':', ' '] + plain_text(g[0].1) + seq![',', ' '] + plain_entries(
            g.subrange(1, g.len() as int),
        )
    }
}

/// Rendering a list's default text form one element at a time agrees
/// with rendering it whole.
pub proof fn lemma_plain_items_push(l: Seq<TreeModel>, x: TreeModel)
    ensures
        plain_items(l.push(x)) == if l.len() == 0 {
            plain_text(x)
        } else {
            plain_items(l) + seq![',', ' '] + plain_text(x)
        },
    decreases l.len(),
{
    let p = l.push(x);
    if l.len() == 0 {
        assert(p.len() == 1);
        assert(p[0] == x);
    } else if l.len() == 1 {
        assert(p.len() == 2);
        assert(p[0] == l[0]);
        assert(p.subrange(1, 2) =~= seq![x]);
        assert(seq![x].len() == 1);
        assert(seq![x][0] == x);
        assert(plain_items(seq![x]) == plain_text(x));
        assert(plain_items(l) == plain_text(l[0]));
    } else {
        let t = l.subrange(1, l.len() as int);
        lemma_plain_items_push(t, x);
        assert(p[0] == l[0]);
        assert(p.subrange(1, l.len() as int + 1) =~= t.push(x));
        assert(plain_items(p) == plain_text(l[0]) + seq![',', ' '] + (plain_items(t) + seq![',', ' ']
            + plain_text(x)));
        assert(plain_text(l[0]) + seq![',', ' '] + (plain_items(t) + seq![',', ' '] + plain_text(x))
            =~= (plain_text(l[0]) + seq![',', ' '] + plain_items(t)) + seq![',', ' '] + plain_text(
            x,
        ));
    }
}

/// Rendering a record's default text form one member at a time agrees
/// with rendering it whole.
pub proof fn lemma_plain_entries_push(g: Seq<(Seq<char>, TreeModel)>, k: Seq<char>, x: TreeModel)
    ensures
        plain_entries(g.push((k, x))) == if g.len() == 0 {
            k + seq![':', ' '] + plain_text(x)
        } else {
            plain_entries(g) + seq![',', ' '] + (k + seq![':', ' '] + plain_text(x))
        },
    decreases g.len(),
{
    let p = g.push((k, x));
    if g.len() == 0 {
        assert(p.len() == 1);
        assert(p[0] == (k, x));
    } else if g.len() == 1 {
        assert(p.len() == 2);
        assert(p[0] == g[0]);
        assert(p.subrange(1, 2) =~= seq![(k, x)]);
        assert(seq![(k, x)].len() == 1);
        assert(seq![(k, x)][0] == (k, x));
        assert(plain_entries(seq![(k, x)]) == k + seq![':', ' '] + plain_text(x));
        assert(plain_entries(g) == g[0].0 + seq![':', ' '] + plain_text(g[0].1));
        assert(g[0].0 + seq![':', ' '] + plain_text(g[0].1) + seq![',', ' '] + (k + seq![':', ' ']
            + plain_text(x)) =~= plain_entries(g) + seq![',', ' '] + (k + seq![':', ' ']
            + plain_text(x)));
    } else {
        let t = g.subrange(1, g.len() as int);
        lemma_plain_entries_push(t, k, x);
        assert(p[0] == g[0]);
        assert(p.subrange(1, g.len() as int + 1) =~= t.push((k, x)));
        assert(plain_entries(p) == g[0].0 + seq![':', ' '] + plain_text(g[0].1) + seq![',', ' '] + (
        plain_entries(t) + seq![',', ' '] + (k + seq![':', ' '] + plain_text(x))));
        assert(g[0].0 + seq![':', ' '] + plain_text(g[0].1) + seq![',', ' '] + (plain_entries(t)
            + seq![',', ' '] + (k + seq![':', ' '] + plain_text(x))) =~= (g[0].0 + seq![':', ' ']
            + plain_text(g[0].1) + seq![',', ' '] + plain_entries(t)) + seq![',', ' '] + (k
            + seq![':', ' '] + plain_text(x)));
    }
}

/// Appends the default text form of one value tree.
#[verifier::rlimit(50)]
#[verifier::loop_isolation(false)]
pub fn push_plain_value(out: &mut Vec<char>, v: &ValueTree)
    ensures
        final(out)@ == old(out)@ + plain_text(v@),
    decreases *v,
{
    match v {
        ValueTree::Null => {
            out.push('n');
            out.push('u');
            out.push('l');
            out.push('l');
            proof {
                assert(old(out)@.push('n').push('u').push('l').push('l') =~= old(out)@ + plain_text(
                    v@,
                ));
            }
        },
        ValueTree::Bool(b) => {
            if *b {
                out.push('t');
                out.push('r');
                out.push('u');
                out.push('e');
                proof {
                    assert(old(out)@.push('t').push('r').push('u').push('e') =~= old(out)@
                        + plain_text(v@));
                }
            } else {
                out.push('f');
                out.push('a');
                out.push('l');
                out.push('s');
                out.push('e');
                proof {
                    assert(old(out)@.push('f').push('a').push('l').push('s').push('e') =~= old(
                        out,
                    )@ + plain_text(v@));
                }
            }
        },
        ValueTree::Int(i) => {
            push_dec_i64(out, *i);
        },
        ValueTree::Float { bits, text } => {
            crate::json::push_chars(out, text);
        },
        ValueTree::Text(t) => {
            crate::json::push_chars(out, t);
        },
        ValueTree::List(l) => {
            let ghost ms = tree_model_seq(l@);
            out.push('[');
            proof {
                assert(plain_items(ms.subrange(0, 0)) == Seq::<char>::empty());
                assert(old(out)@.push('[') =~= old(out)@ + seq!['['] + plain_items(
                    ms.subrange(0, 0),
                ));
            }
            let mut i: usize = 0;
            while i < l.len()
                invariant
                    i <= l@.len(),
                    ms == tree_model_seq(l@),
                    ms.len() == l@.len(),
                    out@ == old(out)@ + seq!['['] + plain_items(ms.subrange(0, i as int)),
                decreases l@.len() - i,
            {
                if i > 0 {
                    out.push(',');
                    out.push(' ');
                }
                proof {
                    assert(decreases_to!(*v => v->List_0));
                    assert(v->List_0 == *l);
                    assert(decreases_to!(*l => l@[i as int]));
                }
                push_plain_value(out, &l[i]);
                proof {
                    lemma_plain_items_push(ms.subrange(0, i as int), ms[i as int]);
                    assert(ms.subrange(0, i as int).push(ms[i as int]) =~= ms.subrange(
                        0,
                        i as int + 1,
                    ));
                    if i == 0 {
                        assert((old(out)@ + seq!['['] + plain_items(ms.subrange(0, 0)))
                            + plain_text(ms[0]) =~= old(out)@ + seq!['['] + plain_items(
                            ms.subrange(0, 1),
                        ));
                    } else {
                        assert(((old(out)@ + seq!['['] + plain_items(ms.subrange(0, i as int))).push(
                            ',',
                        ).push(' ')) + plain_text(ms[i as int]) =~= old(out)@ + seq!['[']
                            + plain_items(ms.subrange(0, i as int + 1)));
                    }
                }
                i = i + 1;
            }
            out.push(']');
            proof {
                assert(ms.subrange(0, ms.len() as int) =~= ms);
                assert((old(out)@ + seq!['['] + plain_items(ms)).push(']') =~= old(out)@
                    + plain_text(v@));
            }
        },
        ValueTree::Object(g) => {
            let ghost ms = tree_model_fields(g@);
            out.push('{');
            proof {
                assert(plain_entries(ms.subrange(0, 0)) == Seq::<char>::empty());
                assert(old(out)@.push('{') =~= old(out)@ + seq!['{'] + plain_entries(
                    ms.subrange(0, 0),
                ));
            }
            let mut i: usize = 0;
            while i < g.len()
                invariant
                    i <= g@.len(),
                    ms == tree_model_fields(g@),
                    ms.len() == g@.len(),
                    out@ == old(out)@ + seq!['{'] + plain_entries(ms.subrange(0, i as int)),
                decreases g@.len() - i,
            {
                if i > 0 {
                    out.push(',');
                    out.push(' ');
                }
                let ghost mid = out@;
                crate::json::push_chars(out, &g[i].0);
                out.push(':');
                out.push(' ');
                proof {
                    assert(decreases_to!(*v => v->Object_0));
                    assert(v->Object_0 == *g);
                    assert(decreases_to!(*g => g@[i as int]));
                    assert(decreases_to!(g@[i as int] => g@[i as int].1));
                }
                push_plain_value(out, &g[i].1);
                proof {
                    lemma_plain_entries_push(
                        ms.subrange(0, i as int),
                        ms[i as int].0,
                        ms[i as int].1,
                    );
                    assert(ms.subrange(0, i as int).push(ms[i as int]) =~= ms.subrange(
                        0,
                        i as int + 1,
                    ));
                    assert(out@ == ((mid + ms[i as int].0).push(':').push(' ')) + plain_text(
                        ms[i as int].1,
                    ));
                    if i == 0 {
                        assert(((mid + ms[0].0).push(':').push(' ')) + plain_text(ms[0].1) =~= old(
                            out,
                        )@ + seq!['{'] + plain_entries(ms.subrange(0, 1)));
                    } else {
                        assert(mid == (old(out)@ + seq!['{'] + plain_entries(
                            ms.subrange(0, i as int),
                        )).push(',').push(' '));
                        assert(((mid + ms[i as int].0).push(':').push(' ')) + plain_text(
                            ms[i as int].1,
                        ) =~= old(out)@ + seq!['{'] + plain_entries(ms.subrange(0, i as int + 1)));
                    }
                }
                i = i + 1;
            }
            out.push('}');
            proof {
                assert(ms.subrange(0, ms.len() as int) =~= ms);
                assert((old(out)@ + seq!['{'] + plain_entries(ms)).push('}') =~= old(out)@
                    + plain_text(v@));
            }
        },
    }
}

/// True of the characters that force a cell into quotes: the delimiter,
/// the quote itself, and the line terminators.
pub open spec fn csv_special(c: char) -> bool {
    c == ',' || c == '"' || c == '\n' || c == '\r'
}

/// Whether a cell's text holds any character that forces quoting.
pub open spec fn has_special(s: Seq<char>) -> bool {
    exists|i: int| 0 <= i < s.len() && csv_special(s[i])
}

/// A cell's text with every quote doubled, as it stands inside a quoted
/// cell.
pub open spec fn csv_doubled(s: Seq<char>) -> Seq<char>
    decreases s,
{
    if s.len() == 0 {
        seq![]
    } else {
        (if s[0] == '"' {
            seq!['"', '"']
        } else {
            seq![s[0]]
        }) + csv_doubled(s.subrange(1, s.len() as int))
    }
}

/// One finished cell: quoted, with inner quotes doubled, exactly when
/// the text holds a special character, and the bare text otherwise.
pub open spec fn csv_cell(s: Seq<char>) -> Seq<char> {
    if has_special(s) {
        seq!['"'] + csv_doubled(s) + seq!['"']
    } else {
        s
    }
}

/// A line's cells, separated by the delimiter.
pub open spec fn csv_cells(cells: Seq<Seq<char>>) -> Seq<char>
    decreases cells,
{
    if cells.len() == 0 {
        seq![]
    } else if cells.len() == 1 {
        csv_cell(cells[0])
    } else {
        csv_cell(cells[0]) + seq![','] + csv_cells(cells.subrange(1, cells.len() as int))
    }
}

/// One finished line: the delimited cells and the line terminator.
pub open spec fn csv_line(cells: Seq<Seq<char>>) -> Seq<char> {
    csv_cells(cells) + seq!['\n']
}

/// Doubling quotes one character at a time agrees with doubling them
/// whole.
pub proof fn lemma_doubled_push(s: Seq<char>, c: char)
    ensures
        csv_doubled(s.push(c)) == csv_doubled(s) + (if c == '"' {
            seq!['"', '"']
        } else {
            seq![c]
        }),
    decreases s.len(),
{
    let e: Seq<char> = if c == '"' {
        seq!['"', '"']
    } else {
        seq![c]
    };
    if s.len() == 0 {
        assert(s.push(c)[0] == c);
        assert(s.push(c).subrange(1, 1) =~= Seq::<char>::empty());
        assert(csv_doubled(Seq::<char>::empty()) == Seq::<char>::empty());
        assert(e + Seq::<char>::empty() =~= e);
        assert(csv_doubled(s) + e =~= e);
    } else {
        let t = s.subrange(1, s.len() as int);
        lemma_doubled_push(t, c);
        assert(s.push(c)[0] == s[0]);
        assert(s.push(c).subrange(1, s.len() as int + 1) =~= t.push(c));
        let h: Seq<char> = if s[0] == '"' {
            seq!['"', '"']
        } else {
            seq![s[0]]
        };
        assert(h + (csv_doubled(t) + e) =~= (h + csv_doubled(t)) + e);
    }
}

/// Joining a line's cells one at a time agrees with joining them whole.
pub proof fn lemma_cells_push(cells: Seq<Seq<char>>, c: Seq<char>)
    ensures
        csv_cells(cells.push(c)) == if cells.len() == 0 {
            csv_cell(c)
        } else {
            csv_cells(cells) + seq![','] + csv_cell(c)
        },
    decreases cells.len(),
{
    let p = cells.push(c);
    if cells.len() == 0 {
        assert(p.len() == 1);
        assert(p[0] == c);
    } else if cells.len() == 1 {
        assert(p.len() == 2);
        assert(p[0] == cells[0]);
        assert(p.subrange(1, 2) =~= seq![c]);
        assert(seq![c].len() == 1);
        assert(seq![c][0] == c);
        assert(csv_cells(seq![c]) == csv_cell(c));
        assert(csv_cells(cells) == csv_cell(cells[0]));
    } else {
        let t = cells.subrange(1, cells.len() as int);
        lemma_cells_push(t, c);
        assert(p[0] == cells[0]);
        assert(p.subrange(1, cells.len() as int + 1) =~= t.push(c));
        assert(csv_cells(p) == csv_cell(cells[0]) + seq![','] + (csv_cells(t) + seq![',']
            + csv_cell(c)));
        assert(csv_cell(cells[0]) + seq![','] + (csv_cells(t) + seq![','] + csv_cell(c)) =~= (
        csv_cell(cells[0]) + seq![','] + csv_cells(t)) + seq![','] + csv_cell(c));
    }
}

/// Decides whether a cell's text holds a character that forces quoting.
#[verifier::loop_isolation(false)]
pub fn cell_has_special(s: &Vec<char>) -> (r: bool)
    ensures
        r == has_special(s@),
{
    let mut i: usize = 0;
    while i < s.len()
        invariant
            i <= s@.len(),
            forall|j: int| 0 <= j < i ==> !csv_special(s@[j]),
        decreases s@.len() - i,
    {
        let c = s[i];
        if c == ',' || c == '"' || c == '\n' || c == '\r' {
            return true;
        }
        i = i + 1;
    }
    false
}

/// Appends one finished cell, quoting it when needed.
#[verifier::loop_isolation(false)]
pub fn push_csv_cell(out: &mut Vec<char>, s: &Vec<char>)
    ensures
        final(out)@ == old(out)@ + csv_cell(s@),
{
    if !cell_has_special(s) {
        crate::json::push_chars(out, s);
    } else {
        out.push('"');
        proof {
            assert(csv_doubled(s@.subrange(0, 0)) == Seq::<char>::empty());
            assert(old(out)@.push('"') =~= old(out)@ + seq!['"'] + csv_doubled(s@.subrange(0, 0)));
        }
        let mut i: usize = 0;
        while i < s.len()
            invariant
                i <= s@.len(),
                out@ == old(out)@ + seq!['"'] + csv_doubled(s@.subrange(0, i as int)),
            decreases s@.len() - i,
        {
            let c = s[i];
            if c == '"' {
                out.push('"');
                out.push('"');
            } else {
                out.push(c);
            }
            proof {
                lemma_doubled_push(s@.subrange(0, i as int), s@[i as int]);
                assert(s@.subrange(0, i as int).push(s@[i as int]) =~= s@.subrange(
                    0,
                    i as int + 1,
                ));
                if c == '"' {
                    assert((old(out)@ + seq!['"'] + csv_doubled(s@.subrange(0, i as int))).push(
                        '"',
                    ).push('"') =~= old(out)@ + seq!['"'] + csv_doubled(
                        s@.subrange(0, i as int + 1),
                    ));
                } else {
                    assert((old(out)@ + seq!['"'] + csv_doubled(s@.subrange(0, i as int))).push(c)
                        =~= old(out)@ + seq!['"'] + csv_doubled(s@.subrange(0, i as int + 1)));
                }
            }
            i = i + 1;
        }
        out.push('"');
        proof {
            assert(s@.subrange(0, s@.len() as int) =~= s@);
            assert((old(out)@ + seq!['"'] + csv_doubled(s@)).push('"') =~= old(out)@ + csv_cell(
                s@,
            ));
        }
    }
}

} // verus!

verus! {

/// The cells of one converted row: each field's default text form, in
/// field order.
pub open spec fn row_cells(m: Seq<(Seq<char>, TreeModel)>) -> Seq<Seq<char>> {
    m.map_values(|f: (Seq<char>, TreeModel)| plain_text(f.1))
}

/// The data lines of a drained row sequence: one line per row, in row
/// order.
pub open spec fn csv_lines(maps: Seq<Seq<(Seq<char>, TreeModel)>>) -> Seq<char>
    decreases maps,
{
    if maps.len() == 0 {
        seq![]
    } else {
        csv_line(row_cells(maps[0])) + csv_lines(maps.subrange(1, maps.len() as int))
    }
}

/// Rendering the data lines one row at a time agrees with rendering
/// them whole.
pub proof fn lemma_csv_lines_push(maps: Seq<Seq<(Seq<char>, TreeModel)>>, m: Seq<(Seq<char>, TreeModel)>)
    ensures
        csv_lines(maps.push(m)) == csv_lines(maps) + csv_line(row_cells(m)),
    decreases maps.len(),
{
    let p = maps.push(m);
    if maps.len() == 0 {
        assert(p[0] == m);
        assert(p.subrange(1, 1) =~= Seq::<Seq<(Seq<char>, TreeModel)>>::empty());
        assert(csv_lines(Seq::<Seq<(Seq<char>, TreeModel)>>::empty()) == Seq::<char>::empty());
        assert(csv_line(row_cells(m)) + Seq::<char>::empty() =~= csv_line(row_cells(m)));
        assert(csv_lines(maps) + csv_line(row_cells(m)) =~= csv_line(row_cells(m)));
    } else {
        let t = maps.subrange(1, maps.len() as int);
        lemma_csv_lines_push(t, m);
        assert(p[0] == maps[0]);
        assert(p.subrange(1, maps.len() as int + 1) =~= t.push(m));
        assert(csv_line(row_cells(maps[0])) + (csv_lines(t) + csv_line(row_cells(m))) =~= (csv_line(
            row_cells(maps[0]),
        ) + csv_lines(t)) + csv_line(row_cells(m)));
    }
}

/// The mathematical shape of a schema: its field names, in declared
/// order.
pub open spec fn names_model(s: Seq<Vec<char>>) -> Seq<Seq<char>> {
    Seq::new(s.len(), |i: int| s[i]@)
}

/// What the delimited-text materialization of a pulled row sequence
/// yields: one header line from the schema's field names in declared
/// order, then one line per row in row order, each cell quoted exactly
/// when its text needs it; the first decode failure or conversion fault
/// aborts the whole call.
pub open spec fn spec_to_csv(names: Seq<Seq<char>>, events: Seq<RowOutcomeModel>) -> Result<
    Seq<char>,
    ErrorModel,
> {
    match spec_collect(events, 0) {
        Ok(maps) => Ok(csv_line(names) + csv_lines(maps)),
        Err(e) => Err(e),
    }
}

/// Drains a pulled row sequence and renders it as delimited text: the
/// schema's header line, then one line per row; the first decode
/// failure or conversion fault aborts the whole call, with no partial
/// text returned.
#[verifier::rlimit(50)]
#[verifier::loop_isolation(false)]
pub fn to_csv_text(schema: &Vec<Vec<char>>, events: &Vec<RowOutcome>) -> (r: Result<
    String,
    TableError,
>)
    ensures
        match r {
            Ok(s) => spec_to_csv(names_model(schema@), events_model(events@)) == Ok::<
                Seq<char>,
                ErrorModel,
            >(s@),
            Err(e) => spec_to_csv(names_model(schema@), events_model(events@)) == Err::<
                Seq<char>,
                ErrorModel,
            >(e@),
        },
{
    let ghost ns = names_model(schema@);
    let ghost em = events_model(events@);
    let mut buf: Vec<char> = Vec::new();
    proof {
        assert(ns.subrange(0, 0) =~= Seq::<Seq<char>>::empty());
        assert(csv_cells(ns.subrange(0, 0)) == Seq::<char>::empty());
        assert(buf@ =~= csv_cells(ns.subrange(0, 0)));
    }
    let mut j: usize = 0;
    while j < schema.len()
        invariant
            j <= schema@.len(),
            ns == names_model(schema@),
            ns.len() == schema@.len(),
            buf@ == csv_cells(ns.subrange(0, j as int)),
        decreases schema@.len() - j,
    {
        if j > 0 {
            buf.push(',');
        }
        push_csv_cell(&mut buf, &schema[j]);
        proof {
            lemma_cells_push(ns.subrange(0, j as int), ns[j as int]);
            assert(ns.subrange(0, j as int).push(ns[j as int]) =~= ns.subrange(0, j as int + 1));
            if j == 0 {
                assert(csv_cells(ns.subrange(0, 0)) + csv_cell(ns[0]) =~= csv_cells(
                    ns.subrange(0, 1),
                ));
            } else {
                assert((csv_cells(ns.subrange(0, j as int)).push(',')) + csv_cell(ns[j as int])
                    =~= csv_cells(ns.subrange(0, j as int + 1)));
            }
        }
        j = j + 1;
    }
    buf.push('\n');
    let ghost mut maps: Seq<Seq<(Seq<char>, TreeModel)>> = Seq::empty();
    proof {
        assert(ns.subrange(0, ns.len() as int) =~= ns);
        assert(csv_lines(maps) == Seq::<char>::empty());
        assert(csv_cells(ns).push('\n') =~= csv_line(ns) + csv_lines(maps));
        assert(em.subrange(0, 0) =~= Seq::<RowOutcomeModel>::empty());
    }
    let mut i: usize = 0;
    while i < events.len()
        invariant
            i <= events@.len(),
            em == events_model(events@),
            em.len() == events@.len(),
            maps.len() == i,
            spec_collect(em.subrange(0, i as int), 0) == Ok::<
                Seq<Seq<(Seq<char>, TreeModel)>>,
                ErrorModel,
            >(maps),
            ns == names_model(schema@),
            buf@ == csv_line(ns) + csv_lines(maps),
        decreases events@.len() - i,
    {
        let ev = &events[i];
        proof {
            assert(*ev == events@[i as int]);
            assert(em[i as int] == events@[i as int]@);
        }
        match ev {
            RowOutcome::Failed(m) => {
                let err = TableError::RowDecodeError { row: i, message: clone_chars(m) };
                proof {
                    lemma_collect_split(em, 0, i as int);
                    let suffix = em.subrange(i as int, em.len() as int);
                    assert(suffix[0] == em[i as int]);
                    assert(spec_collect(suffix, i as int) == Err::<
                        Seq<Seq<(Seq<char>, TreeModel)>>,
                        ErrorModel,
                    >(err@));
                }
                return Err(err);
            },
            RowOutcome::Decoded(fields) => {
                match convert_row(fields, i) {
                    Ok(mrow) => {
                        let ghost mf = tree_model_fields(mrow@);
                        let ghost base = buf@;
                        proof {
                            assert(row_cells(mf).subrange(0, 0) =~= Seq::<Seq<char>>::empty());
                            assert(csv_cells(row_cells(mf).subrange(0, 0)) == Seq::<char>::empty());
                            assert(base + csv_cells(row_cells(mf).subrange(0, 0)) =~= base);
                        }
                        let mut k: usize = 0;
                        while k < mrow.len()
                            invariant
                                k <= mrow@.len(),
                                mf == tree_model_fields(mrow@),
                                mf.len() == mrow@.len(),
                                row_cells(mf).len() == mf.len(),
                                buf@ == base + csv_cells(row_cells(mf).subrange(0, k as int)),
                            decreases mrow@.len() - k,
                        {
                            if k > 0 {
                                buf.push(',');
                            }
                            let mut cell: Vec<char> = Vec::new();
                            push_plain_value(&mut cell, &mrow[k].1);
                            proof {
                                assert(Seq::<char>::empty() + plain_text(mrow@[k as int].1@)
                                    =~= plain_text(mf[k as int].1));
                                assert(cell@ == plain_text(mf[k as int].1));
                                assert(row_cells(mf)[k as int] == plain_text(mf[k as int].1));
                            }
                            push_csv_cell(&mut buf, &cell);
                            proof {
                                lemma_cells_push(
                                    row_cells(mf).subrange(0, k as int),
                                    row_cells(mf)[k as int],
                                );
                                assert(row_cells(mf).subrange(0, k as int).push(
                                    row_cells(mf)[k as int],
                                ) =~= row_cells(mf).subrange(0, k as int + 1));
                                if k == 0 {
                                    assert(base + csv_cells(row_cells(mf).subrange(0, 0))
                                        + csv_cell(row_cells(mf)[0]) =~= base + csv_cells(
                                        row_cells(mf).subrange(0, 1),
                                    ));
                                } else {
                                    assert(((base + csv_cells(
                                        row_cells(mf).subrange(0, k as int),
                                    )).push(',')) + csv_cell(row_cells(mf)[k as int]) =~= base
                                        + csv_cells(row_cells(mf).subrange(0, k as int + 1)));
                                }
                            }
                            k = k + 1;
                        }
                        buf.push('\n');
                        proof {
                            assert(row_cells(mf).subrange(0, row_cells(mf).len() as int)
                                =~= row_cells(mf));
                            assert((base + csv_cells(row_cells(mf))).push('\n') =~= base + csv_line(
                                row_cells(mf),
                            ));
                            lemma_csv_lines_push(maps, mf);
                            assert((csv_line(ns) + csv_lines(maps)) + csv_line(row_cells(mf))
                                =~= csv_line(ns) + csv_lines(maps.push(mf)));
                            lemma_collect_split(em.subrange(0, i as int + 1), 0, i as int);
                            assert(em.subrange(0, i as int + 1).subrange(0, i as int) =~= em
                                .subrange(0, i as int));
                            let single = em.subrange(0, i as int + 1).subrange(
                                i as int,
                                i as int + 1,
                            );
                            assert(single.len() == 1);
                            assert(single[0] == em[i as int]);
                            assert(single.subrange(1, 1) =~= Seq::<RowOutcomeModel>::empty());
                            assert(spec_collect(Seq::<RowOutcomeModel>::empty(), i as int + 1)
                                == Ok::<Seq<Seq<(Seq<char>, TreeModel)>>, ErrorModel>(seq![]));
                            assert(spec_collect(single, i as int) == Ok::<
                                Seq<Seq<(Seq<char>, TreeModel)>>,
                                ErrorModel,
                            >(seq![mf] + seq![]));
                            assert(maps + (seq![mf] + seq![]) =~= maps.push(mf));
                            maps = maps.push(mf);
                        }
                    },
                    Err(e) => {
                        proof {
                            lemma_collect_split(em, 0, i as int);
                            let suffix = em.subrange(i as int, em.len() as int);
                            assert(suffix[0] == em[i as int]);
                            assert(spec_collect(suffix, i as int) == Err::<
                                Seq<Seq<(Seq<char>, TreeModel)>>,
                                ErrorModel,
                            >(e@));
                        }
                        return Err(e);
                    },
                }
            },
        }
        i = i + 1;
    }
    proof {
        assert(em.subrange(0, em.len() as int) =~= em);
    }
    Ok(chars_to_string(&buf))
}

} // verus!
