use vstd::prelude::*;

use crate::csvtext::csv_line;
use crate::csvtext::csv_lines;
use crate::csvtext::spec_to_csv;
use crate::errors::ConvError;
use crate::errors::ErrorModel;
use crate::errors::located;
use crate::json::json_items;
use crate::json::objects_of;
use crate::json::spec_to_json;
use crate::rows::RowOutcomeModel;
use crate::rows::lemma_collect_split;
use crate::rows::spec_collect;
use crate::stream::AdvanceModel;
use crate::stream::StreamModel;
use crate::stream::stream_run;
use crate::stream::stream_step;
use crate::value::SourceModel;
use crate::value::TreeModel;
use crate::value::spec_convert;
use crate::value::spec_convert_row;

verus! {

/// Row-order preservation: when a drain succeeds, it yields exactly one
/// map per pulled row, in the decoder's emission order, each map the
/// conversion of the row at its own index.
pub proof fn lemma_row_order(events: Seq<RowOutcomeModel>, start: int)
    requires
        spec_collect(events, start) is Ok,
    ensures
        ({
            let maps = spec_collect(events, start)->Ok_0;
            &&& maps.len() == events.len()
            &&& forall|i: int| 0 <= i < events.len() ==> events[i] is Decoded
            &&& forall|i: int|
                0 <= i < events.len() ==> spec_convert_row(events[i]->Decoded_0, start + i)
                    == Ok::<Seq<(Seq<char>, TreeModel)>, ErrorModel>(maps[i])
        }),
    decreases events,
{
    if events.len() > 0 {
        let tail = events.subrange(1, events.len() as int);
        let maps = spec_collect(events, start)->Ok_0;
        match events[0] {
            RowOutcomeModel::Failed(_) => {
                assert(false);
            },
            RowOutcomeModel::Decoded(f) => {
                lemma_row_order(tail, start + 1);
                let m0 = spec_convert_row(f, start)->Ok_0;
                let tmaps = spec_collect(tail, start + 1)->Ok_0;
                assert(maps == seq![m0] + tmaps);
                assert forall|i: int| 0 <= i < events.len() implies events[i] is Decoded by {
                    if i > 0 {
                        assert(tail[i - 1] == events[i]);
                    }
                }
                assert forall|i: int| 0 <= i < events.len() implies spec_convert_row(
                    events[i]->Decoded_0,
                    start + i,
                ) == Ok::<Seq<(Seq<char>, TreeModel)>, ErrorModel>(maps[i]) by {
                    if i == 0 {
                        assert(maps[0] == m0);
                    } else {
                        assert(tail[i - 1] == events[i]);
                        assert(maps[i] == tmaps[i - 1]);
                    }
                }
            },
        }
    }
}

/// Field-order preservation: a converted row map carries exactly the
/// row's field names, in the row's declared order.
pub proof fn lemma_field_order(fields: Seq<(Seq<char>, SourceModel)>, row: int)
    requires
        spec_convert_row(fields, row) is Ok,
    ensures
        ({
            let m = spec_convert_row(fields, row)->Ok_0;
            &&& m.len() == fields.len()
            &&& forall|i: int| 0 <= i < fields.len() ==> m[i].0 == fields[i].0
        }),
    decreases fields,
{
    if fields.len() > 0 {
        let tail = fields.subrange(1, fields.len() as int);
        lemma_field_order(tail, row);
        let m = spec_convert_row(fields, row)->Ok_0;
        let tm = spec_convert_row(tail, row)->Ok_0;
        let t0 = spec_convert(fields[0].1)->Ok_0;
        assert(m == seq![(fields[0].0, t0)] + tm);
        assert forall|i: int| 0 <= i < fields.len() implies m[i].0 == fields[i].0 by {
            if i > 0 {
                assert(tail[i - 1] == fields[i]);
                assert(m[i] == tm[i - 1]);
            }
        }
    }
}

/// The end-of-sequence pulls that drive a cursor over a whole row
/// sequence: one pull per row, then the end.
pub open spec fn pulls_of(events: Seq<RowOutcomeModel>) -> Seq<Option<RowOutcomeModel>> {
    events.map_values(|e: RowOutcomeModel| Some(e)).push(None)
}

/// Streaming exhaustion: driving a fresh cursor over a sequence of N
/// rows and then the end yields exactly N row outcomes, in order, each
/// what one step of the state machine says for its row, and then the
/// terminal exhaustion signal.
pub proof fn lemma_streaming_exhaustion(events: Seq<RowOutcomeModel>, start: int)
    ensures
        ({
            let outs = stream_run(
                StreamModel { exhausted: false, next_row: start },
                pulls_of(events),
            );
            &&& outs.len() == events.len() + 1
            &&& outs[events.len() as int] == AdvanceModel::Exhausted
            &&& forall|i: int|
                0 <= i < events.len() ==> outs[i] == stream_step(
                    StreamModel { exhausted: false, next_row: start + i },
                    Some(events[i]),
                ).1
        }),
    decreases events,
{
    let pulls = pulls_of(events);
    let st0 = StreamModel { exhausted: false, next_row: start };
    if events.len() == 0 {
        assert(pulls.len() == 1);
        assert(pulls[0] is None);
        assert(pulls.subrange(1, 1) =~= Seq::<Option<RowOutcomeModel>>::empty());
        assert(stream_run(stream_step(st0, pulls[0]).0, Seq::<Option<RowOutcomeModel>>::empty())
            == Seq::<AdvanceModel>::empty());
    } else {
        let tail = events.subrange(1, events.len() as int);
        lemma_streaming_exhaustion(tail, start + 1);
        assert(pulls[0] == Some(events[0]));
        assert(pulls.subrange(1, pulls.len() as int) =~= pulls_of(tail));
        let st1 = stream_step(st0, Some(events[0])).0;
        assert(st1 == StreamModel { exhausted: false, next_row: start + 1 });
        let outs = stream_run(st0, pulls);
        let touts = stream_run(st1, pulls_of(tail));
        assert(outs == seq![stream_step(st0, Some(events[0])).1] + touts);
        assert forall|i: int| 0 <= i < events.len() implies outs[i] == stream_step(
            StreamModel { exhausted: false, next_row: start + i },
            Some(events[i]),
        ).1 by {
            if i > 0 {
                assert(tail[i - 1] == events[i]);
                assert(outs[i] == touts[i - 1]);
            }
        }
    }
}

/// Mode agreement: when a drain succeeds, every consumption mode is
/// built from the same converted maps, in the same row order — the list
/// is those maps, the JSON array and the delimited lines render them in
/// that order, and a fresh cursor yields exactly them and then the
/// exhaustion signal.
pub proof fn lemma_modes_agree(names: Seq<Seq<char>>, events: Seq<RowOutcomeModel>)
    requires
        spec_collect(events, 0) is Ok,
    ensures
        ({
            let maps = spec_collect(events, 0)->Ok_0;
            &&& spec_to_json(events) == Ok::<Seq<char>, ErrorModel>(
                seq!['['] + json_items(objects_of(maps)) + seq![']'],
            )
            &&& spec_to_csv(names, events) == Ok::<Seq<char>, ErrorModel>(
                csv_line(names) + csv_lines(maps),
            )
            &&& stream_run(StreamModel { exhausted: false, next_row: 0 }, pulls_of(events))
                == maps.map_values(|m: Seq<(Seq<char>, TreeModel)>| AdvanceModel::Yielded(m)).push(
                AdvanceModel::Exhausted,
            )
        }),
{
    let maps = spec_collect(events, 0)->Ok_0;
    lemma_row_order(events, 0);
    lemma_streaming_exhaustion(events, 0);
    let outs = stream_run(StreamModel { exhausted: false, next_row: 0 }, pulls_of(events));
    let expected = maps.map_values(|m: Seq<(Seq<char>, TreeModel)>| AdvanceModel::Yielded(m)).push(
        AdvanceModel::Exhausted,
    );
    assert forall|i: int| 0 <= i < outs.len() implies outs[i] == expected[i] by {
        if i < events.len() {
            assert(events[i] is Decoded);
            assert(spec_convert_row(events[i]->Decoded_0, i) == Ok::<
                Seq<(Seq<char>, TreeModel)>,
                ErrorModel,
            >(maps[i]));
            assert(outs[i] == stream_step(
                StreamModel { exhausted: false, next_row: i },
                Some(events[i]),
            ).1);
            assert(expected[i] == AdvanceModel::Yielded(maps[i]));
        } else {
            assert(i == events.len());
            assert(expected[i] == AdvanceModel::Exhausted);
        }
    }
    assert(outs =~= expected);
}

/// Empty file: a drain of no rows succeeds with no maps, the JSON text
/// is the empty array, the delimited text is the header line alone, and
/// a fresh cursor's first step on the end of the sequence is the
/// terminal exhaustion signal.
pub proof fn lemma_empty_file(names: Seq<Seq<char>>)
    ensures
        spec_collect(Seq::<RowOutcomeModel>::empty(), 0) == Ok::<
            Seq<Seq<(Seq<char>, TreeModel)>>,
            ErrorModel,
        >(Seq::<Seq<(Seq<char>, TreeModel)>>::empty()),
        spec_to_json(Seq::<RowOutcomeModel>::empty()) == Ok::<Seq<char>, ErrorModel>(
            seq!['[', ']'],
        ),
        spec_to_csv(names, Seq::<RowOutcomeModel>::empty()) == Ok::<Seq<char>, ErrorModel>(
            csv_line(names),
        ),
        stream_step(StreamModel { exhausted: false, next_row: 0 }, None) == (
            StreamModel { exhausted: true, next_row: 0 },
            AdvanceModel::Exhausted,
        ),
{
    assert(objects_of(Seq::<Seq<(Seq<char>, TreeModel)>>::empty()) =~= Seq::<TreeModel>::empty());
    assert(json_items(Seq::<TreeModel>::empty()) == Seq::<char>::empty());
    assert(seq!['['] + Seq::<char>::empty() + seq![']'] =~= seq!['[', ']']);
    assert(csv_lines(Seq::<Seq<(Seq<char>, TreeModel)>>::empty()) == Seq::<char>::empty());
    assert(csv_line(names) + Seq::<char>::empty() =~= csv_line(names));
}

/// Failure isolation: for one decodable and convertible row followed by
/// one corrupt row, the cursor yields the first row's map, then reports
/// an error attributed to row index 1 and stays usable, while each of
/// the three whole-file modes fails outright with that error, returning
/// no partial result.
pub proof fn lemma_failure_isolation(
    f: Seq<(Seq<char>, SourceModel)>,
    msg: Seq<char>,
    names: Seq<Seq<char>>,
)
    requires
        spec_convert_row(f, 0) is Ok,
    ensures
        ({
            let events = seq![RowOutcomeModel::Decoded(f), RowOutcomeModel::Failed(msg)];
            let bad = ErrorModel::RowDecodeError { row: 1, message: msg };
            let st0 = StreamModel { exhausted: false, next_row: 0 };
            let st1 = stream_step(st0, Some(events[0])).0;
            &&& stream_step(st0, Some(events[0])).1 == AdvanceModel::Yielded(
                spec_convert_row(f, 0)->Ok_0,
            )
            &&& stream_step(st1, Some(events[1])).1 == AdvanceModel::Failed(bad)
            &&& !stream_step(st1, Some(events[1])).0.exhausted
            &&& spec_collect(events, 0) == Err::<Seq<Seq<(Seq<char>, TreeModel)>>, ErrorModel>(bad)
            &&& spec_to_json(events) == Err::<Seq<char>, ErrorModel>(bad)
            &&& spec_to_csv(names, events) == Err::<Seq<char>, ErrorModel>(bad)
        }),
{
    let events = seq![RowOutcomeModel::Decoded(f), RowOutcomeModel::Failed(msg)];
    assert(events[0] == RowOutcomeModel::Decoded(f));
    assert(events[1] == RowOutcomeModel::Failed(msg));
    assert(events.subrange(1, 2) =~= seq![RowOutcomeModel::Failed(msg)]);
    assert(seq![RowOutcomeModel::Failed(msg)][0] == RowOutcomeModel::Failed(msg));
    assert(spec_collect(seq![RowOutcomeModel::Failed(msg)], 1) == Err::<
        Seq<Seq<(Seq<char>, TreeModel)>>,
        ErrorModel,
    >(ErrorModel::RowDecodeError { row: 1, message: msg }));
}

/// Numeric overflow, at row level: a field whose unsigned value lies
/// above the signed 64-bit range makes the row's conversion fail with
/// the numeric-range error, attributed to that field, when the fields
/// before it convert.
pub proof fn lemma_overflow_row(fields: Seq<(Seq<char>, SourceModel)>, j: int, u: u64, row: int)
    requires
        0 <= j < fields.len(),
        fields[j].1 == SourceModel::Uint(u),
        u as int > i64::MAX as int,
        forall|i: int| 0 <= i < j ==> spec_convert(#[trigger] fields[i].1) is Ok,
    ensures
        spec_convert_row(fields, row) == Err::<Seq<(Seq<char>, TreeModel)>, ErrorModel>(
            ErrorModel::UnsupportedNumericRange { row, field: fields[j].0 },
        ),
    decreases j,
{
    if j == 0 {
        assert(spec_convert(fields[0].1) == Err::<TreeModel, ConvError>(
            ConvError::UnsupportedNumericRange,
        ));
        assert(located(ConvError::UnsupportedNumericRange, row, fields[0].0)
            == ErrorModel::UnsupportedNumericRange { row, field: fields[0].0 });
    } else {
        let tail = fields.subrange(1, fields.len() as int);
        assert(tail[j - 1] == fields[j]);
        assert forall|i: int| 0 <= i < j - 1 implies spec_convert(#[trigger] tail[i].1) is Ok by {
            assert(tail[i] == fields[i + 1]);
        }
        lemma_overflow_row(tail, j - 1, u, row);
        assert(spec_convert(fields[0].1) is Ok);
    }
}

/// Numeric overflow, across the modes: when such a field sits in row k
/// of an otherwise convertible prefix, every whole-file mode fails with
/// the numeric-range error attributed to row k and that field, and the
/// cursor's step on row k reports the same error.
pub proof fn lemma_overflow_aborts_all(
    names: Seq<Seq<char>>,
    events: Seq<RowOutcomeModel>,
    k: int,
    j: int,
    u: u64,
)
    requires
        0 <= k < events.len(),
        events[k] is Decoded,
        spec_collect(events.subrange(0, k), 0) is Ok,
        0 <= j < events[k]->Decoded_0.len(),
        events[k]->Decoded_0[j].1 == SourceModel::Uint(u),
        u as int > i64::MAX as int,
        forall|i: int| 0 <= i < j ==> spec_convert(#[trigger] events[k]->Decoded_0[i].1) is Ok,
    ensures
        ({
            let bad = ErrorModel::UnsupportedNumericRange {
                row: k,
                field: events[k]->Decoded_0[j].0,
            };
            &&& spec_collect(events, 0) == Err::<Seq<Seq<(Seq<char>, TreeModel)>>, ErrorModel>(bad)
            &&& spec_to_json(events) == Err::<Seq<char>, ErrorModel>(bad)
            &&& spec_to_csv(names, events) == Err::<Seq<char>, ErrorModel>(bad)
            &&& stream_step(
                StreamModel { exhausted: false, next_row: k },
                Some(events[k]),
            ).1 == AdvanceModel::Failed(bad)
        }),
{
    let f = events[k]->Decoded_0;
    lemma_overflow_row(f, j, u, k);
    lemma_collect_split(events, 0, k);
    let suffix = events.subrange(k, events.len() as int);
    assert(suffix[0] == events[k]);
    assert(spec_collect(suffix, k) == Err::<Seq<Seq<(Seq<char>, TreeModel)>>, ErrorModel>(
        ErrorModel::UnsupportedNumericRange { row: k, field: f[j].0 },
    ));
}

/// Idempotence: each consumption mode is a function of the pulled row
/// sequence (and, for the delimited text, the schema) alone, so two
/// runs against the same unmodified input yield identical results, and
/// two cursor steps from the same state on the same pull agree.
pub proof fn lemma_idempotent(
    events: Seq<RowOutcomeModel>,
    names: Seq<Seq<char>>,
    j1: Result<Seq<char>, ErrorModel>,
    j2: Result<Seq<char>, ErrorModel>,
    c1: Result<Seq<char>, ErrorModel>,
    c2: Result<Seq<char>, ErrorModel>,
    l1: Result<Seq<Seq<(Seq<char>, TreeModel)>>, ErrorModel>,
    l2: Result<Seq<Seq<(Seq<char>, TreeModel)>>, ErrorModel>,
    st: StreamModel,
    pulled: Option<RowOutcomeModel>,
    s1: (StreamModel, AdvanceModel),
    s2: (StreamModel, AdvanceModel),
)
    requires
        j1 == spec_to_json(events),
        j2 == spec_to_json(events),
        c1 == spec_to_csv(names, events),
        c2 == spec_to_csv(names, events),
        l1 == spec_collect(events, 0),
        l2 == spec_collect(events, 0),
        s1 == stream_step(st, pulled),
        s2 == stream_step(st, pulled),
    ensures
        j1 == j2,
        c1 == c2,
        l1 == l2,
        s1 == s2,
{
}

} // verus!
