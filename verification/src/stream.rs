use vstd::prelude::*;

use crate::errors::ErrorModel;
use crate::errors::TableError;
use crate::rows::RowOutcome;
use crate::rows::RowOutcomeModel;
use crate::value::TreeModel;
use crate::value::ValueTree;
use crate::value::convert_row;
use crate::value::spec_convert_row;
use crate::value::tree_model_fields;

verus! {

/// What one `advance` call on the streaming cursor yields: the next
/// row's converted field map, the terminal exhaustion signal, or a
/// row-level error that leaves the cursor usable for the rows after it.
#[derive(Debug, PartialEq, Eq)]
pub enum Advance {
    Yielded(Vec<(Vec<char>, ValueTree)>),
    Exhausted,
    Failed(TableError),
}

/// The mathematical shape of one `advance` outcome.
pub enum AdvanceModel {
    Yielded(Seq<(Seq<char>, TreeModel)>),
    Exhausted,
    Failed(ErrorModel),
}

impl View for Advance {
    type V = AdvanceModel;

    open spec fn view(&self) -> AdvanceModel {
        match self {
            Advance::Yielded(m) => AdvanceModel::Yielded(tree_model_fields(m@)),
            Advance::Exhausted => AdvanceModel::Exhausted,
            Advance::Failed(e) => AdvanceModel::Failed(e@),
        }
    }
}

/// The mathematical shape of the cursor: whether the end of the
/// sequence has been seen, and the index of the next row.
pub struct StreamModel {
    pub exhausted: bool,
    pub next_row: int,
}

/// The mathematical shape of what one pull handed the cursor: the next
/// row's outcome, or nothing once the sequence has ended.
pub open spec fn pulled_model(p: Option<RowOutcome>) -> Option<RowOutcomeModel> {
    match p {
        Some(ev) => Some(ev@),
        None => None,
    }
}

/// The cursor's state machine, one step: an exhausted cursor stays
/// exhausted and keeps signalling so; the end of the sequence makes the
/// cursor exhausted; a decoded row is converted and yielded, or its
/// first conversion fault reported; a decode failure is reported with
/// its row index. After a row-level error the cursor stays ready, so
/// its driver may go on past a single bad row.
pub open spec fn stream_step(st: StreamModel, pulled: Option<RowOutcomeModel>) -> (
    StreamModel,
    AdvanceModel,
) {
    if st.exhausted {
        (st, AdvanceModel::Exhausted)
    } else {
        match pulled {
            None => (
                StreamModel { exhausted: true, next_row: st.next_row },
                AdvanceModel::Exhausted,
            ),
            Some(RowOutcomeModel::Failed(m)) => (
                StreamModel { exhausted: false, next_row: st.next_row + 1 },
                AdvanceModel::Failed(ErrorModel::RowDecodeError { row: st.next_row, message: m }),
            ),
            Some(RowOutcomeModel::Decoded(fields)) => match spec_convert_row(fields, st.next_row) {
                Ok(m) => (
                    StreamModel { exhausted: false, next_row: st.next_row + 1 },
                    AdvanceModel::Yielded(m),
                ),
                Err(e) => (
                    StreamModel { exhausted: false, next_row: st.next_row + 1 },
                    AdvanceModel::Failed(e),
                ),
            },
        }
    }
}

/// The outcomes of a whole run of the cursor: one per pulled event, in
/// order, each step started in the state the step before it left.
pub open spec fn stream_run(st: StreamModel, pulled: Seq<Option<RowOutcomeModel>>) -> Seq<
    AdvanceModel,
>
    decreases pulled,
{
    if pulled.len() == 0 {
        seq![]
    } else {
        let (st2, out) = stream_step(st, pulled[0]);
        seq![out] + stream_run(st2, pulled.subrange(1, pulled.len() as int))
    }
}

/// The streaming cursor: a single-pass, non-restartable external
/// iterator that yields one converted row map per call. It holds no
/// rows itself: its driver pulls one row at a time from the decoder and
/// hands it over, so at most one row is alive at a time, whatever the
/// file's size.
#[derive(Debug, PartialEq, Eq)]
pub struct RowStream {
    exhausted: bool,
    next_row: usize,
}

impl View for RowStream {
    type V = StreamModel;

    closed spec fn view(&self) -> StreamModel {
        StreamModel { exhausted: self.exhausted, next_row: self.next_row as int }
    }
}

impl RowStream {
    /// A fresh cursor, ready before the first row.
    pub fn new() -> (r: RowStream)
        ensures
            r@ == (StreamModel { exhausted: false, next_row: 0 }),
    {
        RowStream { exhausted: false, next_row: 0 }
    }

    /// Advances the cursor by one pulled event, exactly as the state
    /// machine `stream_step` says.
    pub fn advance(&mut self, pulled: Option<RowOutcome>) -> (r: Advance)
        requires
            old(self)@.exhausted || pulled is None || old(self)@.next_row < usize::MAX as int,
        ensures
            ({
                let (st2, out) = stream_step(old(self)@, pulled_model(pulled));
                &&& final(self)@ == st2
                &&& r@ == out
            }),
    {
        if self.exhausted {
            return Advance::Exhausted;
        }
        match pulled {
            None => {
                self.exhausted = true;
                Advance::Exhausted
            },
            Some(RowOutcome::Failed(m)) => {
                let row = self.next_row;
                self.next_row = row + 1;
                Advance::Failed(TableError::RowDecodeError { row, message: m })
            },
            Some(RowOutcome::Decoded(fields)) => {
                let row = self.next_row;
                self.next_row = row + 1;
                match convert_row(&fields, row) {
                    Ok(m) => Advance::Yielded(m),
                    Err(e) => Advance::Failed(e),
                }
            },
        }
    }
}

} // verus!
