use vstd::prelude::*;

use crate::errors::ErrorModel;
use crate::errors::TableError;
use crate::value::SourceModel;
use crate::value::SourceValue;
use crate::value::TreeModel;
use crate::value::ValueTree;
use crate::value::clone_chars;
use crate::value::convert_row;
use crate::value::source_model_fields;
use crate::value::spec_convert_row;
use crate::value::tree_model_fields;

verus! {

/// What one pull on the decoder's row sequence produced: a decoded row,
/// as its ordered fields, or the decoder's failure message for that row.
#[derive(Debug, PartialEq, Eq)]
pub enum RowOutcome {
    Decoded(Vec<(Vec<char>, SourceValue)>),
    Failed(Vec<char>),
}

/// The mathematical shape of a `RowOutcome`.
pub enum RowOutcomeModel {
    Decoded(Seq<(Seq<char>, SourceModel)>),
    Failed(Seq<char>),
}

impl View for RowOutcome {
    type V = RowOutcomeModel;

    open spec fn view(&self) -> RowOutcomeModel {
        match self {
            RowOutcome::Decoded(fields) => RowOutcomeModel::Decoded(source_model_fields(fields@)),
            RowOutcome::Failed(m) => RowOutcomeModel::Failed(m@),
        }
    }
}

/// The mathematical shape of a pulled row sequence.
pub open spec fn events_model(s: Seq<RowOutcome>) -> Seq<RowOutcomeModel> {
    Seq::new(s.len(), |i: int| s[i]@)
}

/// The mathematical shape of a sequence of converted row maps.
pub open spec fn rows_model(s: Seq<Vec<(Vec<char>, ValueTree)>>) -> Seq<
    Seq<(Seq<char>, TreeModel)>,
> {
    Seq::new(s.len(), |i: int| tree_model_fields(s[i]@))
}

/// What draining a pulled row sequence yields, its first row carrying
/// the given index: every row converted to its field map, in emission
/// order, or the first decode failure or conversion fault, attributed
/// to the row (and field) that caused it.
pub open spec fn spec_collect(events: Seq<RowOutcomeModel>, start: int) -> Result<
    Seq<Seq<(Seq<char>, TreeModel)>>,
    ErrorModel,
>
    decreases events,
{
    if events.len() == 0 {
        Ok(seq![])
    } else {
        match events[0] {
            RowOutcomeModel::Failed(m) => Err(
                ErrorModel::RowDecodeError { row: start, message: m },
            ),
            RowOutcomeModel::Decoded(fields) => match spec_convert_row(fields, start) {
                Err(e) => Err(e),
                Ok(m) => match spec_collect(events.subrange(1, events.len() as int), start + 1) {
                    Ok(ms) => Ok(seq![m] + ms),
                    Err(e) => Err(e),
                },
            },
        }
    }
}

/// Splitting a pulled row sequence anywhere keeps the drain result: the
/// whole sequence drains to the drained prefix followed by the drained
/// suffix, and fails exactly when one of the two fails, the prefix
/// first.
pub proof fn lemma_collect_split(events: Seq<RowOutcomeModel>, start: int, k: int)
    requires
        0 <= k <= events.len(),
    ensures
        spec_collect(events, start) == match spec_collect(events.subrange(0, k), start) {
            Ok(m1) => match spec_collect(events.subrange(k, events.len() as int), start + k) {
                Ok(m2) => Ok::<Seq<Seq<(Seq<char>, TreeModel)>>, ErrorModel>(m1 + m2),
                Err(e) => Err::<Seq<Seq<(Seq<char>, TreeModel)>>, ErrorModel>(e),
            },
            Err(e) => Err::<Seq<Seq<(Seq<char>, TreeModel)>>, ErrorModel>(e),
        },
    decreases k,
{
    if k == 0 {
        assert(events.subrange(0, 0).len() == 0);
        assert(events.subrange(0, events.len() as int) =~= events);
        if spec_collect(events, start) is Ok {
            assert(seq![] + spec_collect(events, start)->Ok_0 =~= spec_collect(events, start)->Ok_0);
        }
    } else {
        assert(events.len() > 0);
        let tail = events.subrange(1, events.len() as int);
        lemma_collect_split(tail, start + 1, k - 1);
        assert(tail.subrange(0, k - 1) =~= events.subrange(0, k).subrange(1, k));
        assert(tail.subrange(k - 1, tail.len() as int) =~= events.subrange(
            k,
            events.len() as int,
        ));
        assert(events.subrange(0, k).len() == k);
        assert(events.subrange(0, k)[0] == events[0]);
        match events[0] {
            RowOutcomeModel::Failed(_) => {},
            RowOutcomeModel::Decoded(fields) => {
                match spec_convert_row(fields, start) {
                    Err(_) => {},
                    Ok(m) => {
                        match spec_collect(tail.subrange(0, k - 1), start + 1) {
                            Err(_) => {},
                            Ok(m1) => {
                                match spec_collect(tail.subrange(k - 1, tail.len() as int), start
                                    + k) {
                                    Err(_) => {},
                                    Ok(m2) => {
                                        assert((seq![m] + m1) + m2 =~= seq![m] + (m1 + m2));
                                    },
                                }
                            },
                        }
                    },
                }
            },
        }
    }
}

/// Drains a pulled row sequence into the ordered in-memory list of row
/// maps, preserving row order and field order; the first decode failure
/// or conversion fault aborts the whole call, with no partial result.
#[verifier::loop_isolation(false)]
pub fn to_list(events: &Vec<RowOutcome>) -> (r: Result<
    Vec<Vec<(Vec<char>, ValueTree)>>,
    TableError,
>)
    ensures
        match r {
            Ok(rows) => spec_collect(events_model(events@), 0) == Ok::<
                Seq<Seq<(Seq<char>, TreeModel)>>,
                ErrorModel,
            >(rows_model(rows@)),
            Err(e) => spec_collect(events_model(events@), 0) == Err::<
                Seq<Seq<(Seq<char>, TreeModel)>>,
                ErrorModel,
            >(e@),
        },
{
    let ghost em = events_model(events@);
    let mut out: Vec<Vec<(Vec<char>, ValueTree)>> = Vec::new();
    let mut i: usize = 0;
    proof {
        assert(em.subrange(0, 0) =~= Seq::<RowOutcomeModel>::empty());
        assert(rows_model(out@) =~= Seq::<Seq<(Seq<char>, TreeModel)>>::empty());
    }
    while i < events.len()
        invariant
            i <= events@.len(),
            em == events_model(events@),
            em.len() == events@.len(),
            out@.len() == i,
            spec_collect(em.subrange(0, i as int), 0) == Ok::<
                Seq<Seq<(Seq<char>, TreeModel)>>,
                ErrorModel,
            >(rows_model(out@)),
        decreases events@.len() - i,
    {
        let ev = &events[i];
        proof {
            assert(*ev == events@[i as int]);
            assert(em[i as int] == events@[i as int]@);
        }
        match ev {
            RowOutcome::Failed(m) => {
                let err = TableError::RowDecodeError { row: i, message: clone_chars(m) };
                proof {
                    lemma_collect_split(em, 0, i as int);
                    let suffix = em.subrange(i as int, em.len() as int);
                    assert(suffix[0] == em[i as int]);
                    assert(spec_collect(suffix, i as int) == Err::<
                        Seq<Seq<(Seq<char>, TreeModel)>>,
                        ErrorModel,
                    >(err@));
                }
                return Err(err);
            },
            RowOutcome::Decoded(fields) => {
                match convert_row(fields, i) {
                    Ok(mrow) => {
                        proof {
                            lemma_collect_split(em.subrange(0, i as int + 1), 0, i as int);
                            assert(em.subrange(0, i as int + 1).subrange(0, i as int) =~= em
                                .subrange(0, i as int));
                            let single = em.subrange(0, i as int + 1).subrange(
                                i as int,
                                i as int + 1,
                            );
                            assert(single.len() == 1);
                            assert(single[0] == em[i as int]);
                            assert(single.subrange(1, 1) =~= Seq::<RowOutcomeModel>::empty());
                            assert(spec_collect(Seq::<RowOutcomeModel>::empty(), i as int + 1)
                                == Ok::<Seq<Seq<(Seq<char>, TreeModel)>>, ErrorModel>(seq![]));
                            assert(spec_collect(single, i as int) == Ok::<
                                Seq<Seq<(Seq<char>, TreeModel)>>,
                                ErrorModel,
                            >(seq![tree_model_fields(mrow@)] + seq![]));
                            assert(rows_model(out@).push(tree_model_fields(mrow@)) =~= rows_model(
                                out@.push(mrow),
                            ));
                            assert(rows_model(out@) + (seq![tree_model_fields(mrow@)] + seq![])
                                =~= rows_model(out@.push(mrow)));
                        }
                        out.push(mrow);
                    },
                    Err(e) => {
                        proof {
                            lemma_collect_split(em, 0, i as int);
                            let suffix = em.subrange(i as int, em.len() as int);
                            assert(suffix[0] == em[i as int]);
                            assert(spec_collect(suffix, i as int) == Err::<
                                Seq<Seq<(Seq<char>, TreeModel)>>,
                                ErrorModel,
                            >(e@));
                        }
                        return Err(e);
                    },
                }
            },
        }
        i = i + 1;
    }
    proof {
        assert(em.subrange(0, em.len() as int) =~= em);
    }
    Ok(out)
}

} // verus!
