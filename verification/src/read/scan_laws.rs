//! What holds of every forward scan.

use vstd::prelude::*;

use crate::read::batch::{decoded, DecodedView};
use crate::read::fetch::{FetchTarget, FetchedView};
use crate::read::log::{
    all_below, all_end_by, all_from, ascends, between, every, in_order, lemma_between,
    lemma_between_joined, lemma_between_split, lemma_nothing_between, lemma_nothing_nearer,
    lemma_records_from, lemma_records_in_order, lemma_records_of_joined, lemma_told, records_of,
    tells,
};
use crate::read::record::{OutcomeView, RecordView};
use crate::read::scan::{timestamp_of, window_of, CursorView, EventView, ScanSpec};
use crate::read::scan_state::{
    active, cursor_at, earliest_head, filled, kept, lemma_cursor_at, lemma_earliest_head,
    lemma_total_empty, lemma_total_update, moved, past_kept, start_event, started, targets_of, total_buffered, waiting,
    window_end, ScanView, TurnView,
};

verus! {

/// One thing that happens to a scan.
pub enum ScanAction {
    /// The first half of a turn.
    Begin,
    /// A leader's answer.
    Absorb(Seq<FetchedView>),
    /// The second half of a turn, with the filter's verdict.
    Resume(bool),
}

/// The state after an action.
pub open spec fn after(state: ScanView, action: ScanAction) -> ScanView {
    match action {
        ScanAction::Begin => state.begun().0,
        ScanAction::Absorb(fetched) => state.absorbed(fetched).0,
        ScanAction::Resume(passes) => state.resumed(passes).0,
    }
}

/// What an action takes out of a cursor's buffer.
pub open spec fn taken_from(state: ScanView, action: ScanAction, at: int) -> Seq<OutcomeView> {
    match action {
        ScanAction::Resume(_) => if state.up_next() is Some && earliest_head(state.cursors) == Some(
            at,
        ) {
            seq![state.up_next()->Some_0]
        } else {
            seq![]
        },
        _ => seq![],
    }
}

/// What an action puts into a cursor's buffer.
pub open spec fn put_into(state: ScanView, action: ScanAction, at: int) -> Seq<OutcomeView> {
    match action {
        ScanAction::Absorb(fetched) => state.absorbed(fetched).0.cursors[at].buffered.skip(
            state.cursors[at].buffered.len() as int,
        ),
        _ => seq![],
    }
}

/// The state after some actions.
pub open spec fn ran(state: ScanView, actions: Seq<ScanAction>) -> ScanView
    decreases actions.len(),
{
    if actions.len() == 0 {
        state
    } else {
        after(ran(state, actions.drop_last()), actions.last())
    }
}

/// What some actions take out of a cursor's buffer, in order.
pub open spec fn all_taken(state: ScanView, actions: Seq<ScanAction>, at: int) -> Seq<OutcomeView>
    decreases actions.len(),
{
    if actions.len() == 0 {
        seq![]
    } else {
        all_taken(state, actions.drop_last(), at) + taken_from(
            ran(state, actions.drop_last()),
            actions.last(),
            at,
        )
    }
}

/// What some actions put into a cursor's buffer, in order.
pub open spec fn all_put(state: ScanView, actions: Seq<ScanAction>, at: int) -> Seq<OutcomeView>
    decreases actions.len(),
{
    if actions.len() == 0 {
        seq![]
    } else {
        all_put(state, actions.drop_last(), at) + put_into(
            ran(state, actions.drop_last()),
            actions.last(),
            at,
        )
    }
}

/// Two cursors of the same partition of the same scan.
pub open spec fn same_cursor(a: CursorView, b: CursorView) -> bool {
    a.partition == b.partition && a.leader == b.leader && a.start_offset == b.start_offset
}

/// Taking in an answer only ever adds to the end of a buffer, and moves no
/// partition back; and a browse goes on to end where it was planned to, whatever
/// is written meanwhile.
pub proof fn absorbing_appends(state: ScanView, fetched: Seq<FetchedView>)
    ensures
        ({
            let after = state.absorbed(fetched).0;
            &&& after.cursors.len() == state.cursors.len()
            &&& after.spec == state.spec
            &&& after.pending == state.pending
            &&& after.done == state.done
            &&& after.progress.records_emitted == state.progress.records_emitted
            &&& after.progress.reorder_window == state.progress.reorder_window
            &&& after.progress.partitions_planned == state.progress.partitions_planned
            &&& forall|i: int|
                0 <= i < state.cursors.len() ==> {
                    &&& same_cursor(#[trigger] after.cursors[i], state.cursors[i])
                    &&& after.cursors[i].next_offset >= state.cursors[i].next_offset
                    &&& after.cursors[i].end_offset >= state.cursors[i].end_offset
                    &&& !state.spec.follow ==> after.cursors[i].end_offset
                        == state.cursors[i].end_offset
                    &&& after.cursors[i].buffered.len() >= state.cursors[i].buffered.len()
                    &&& after.cursors[i].buffered.take(state.cursors[i].buffered.len() as int)
                        == state.cursors[i].buffered
                }
        }),
    decreases fetched.len(),
{
    if fetched.len() == 0 {
        assert forall|i: int| 0 <= i < state.cursors.len() implies state.cursors[i].buffered.take(
            (#[trigger] state.cursors[i]).buffered.len() as int,
        ) == state.cursors[i].buffered by {
            assert(state.cursors[i].buffered.take(state.cursors[i].buffered.len() as int)
                =~= state.cursors[i].buffered);
        }
    } else {
        absorbing_appends(state, fetched.drop_last());
        let (before, read) = state.absorbed(fetched.drop_last());
        if read is Ok {
            let last = fetched.last();
            lemma_with_partition(before, last);
            let end = before.with_partition(last).0;
            assert forall|i: int| 0 <= i < state.cursors.len() implies {
                &&& same_cursor(#[trigger] end.cursors[i], state.cursors[i])
                &&& end.cursors[i].next_offset >= state.cursors[i].next_offset
                &&& end.cursors[i].end_offset >= state.cursors[i].end_offset
                &&& !state.spec.follow ==> end.cursors[i].end_offset == state.cursors[i].end_offset
                &&& end.cursors[i].buffered.len() >= state.cursors[i].buffered.len()
                &&& end.cursors[i].buffered.take(state.cursors[i].buffered.len() as int)
                    == state.cursors[i].buffered
            } by {
                assert(same_cursor(before.cursors[i], state.cursors[i]));
                assert(same_cursor(end.cursors[i], before.cursors[i]));
                let mid = before.cursors[i].buffered;
                let n = state.cursors[i].buffered.len() as int;
                assert(end.cursors[i].buffered.take(n) =~= end.cursors[i].buffered.take(
                    mid.len() as int,
                ).take(n));
            }
        }
    }
}

/// One partition's part of [`absorbing_appends`].
proof fn lemma_with_partition(state: ScanView, fetched: FetchedView)
    ensures
        ({
            let after = state.with_partition(fetched).0;
            &&& after.cursors.len() == state.cursors.len()
            &&& after.spec == state.spec
            &&& after.pending == state.pending
            &&& after.done == state.done
            &&& after.progress.records_emitted == state.progress.records_emitted
            &&& after.progress.reorder_window == state.progress.reorder_window
            &&& after.progress.partitions_planned == state.progress.partitions_planned
            &&& forall|i: int|
                0 <= i < state.cursors.len() ==> {
                    &&& same_cursor(#[trigger] after.cursors[i], state.cursors[i])
                    &&& after.cursors[i].next_offset >= state.cursors[i].next_offset
                    &&& after.cursors[i].end_offset >= state.cursors[i].end_offset
                    &&& !state.spec.follow ==> after.cursors[i].end_offset
                        == state.cursors[i].end_offset
                    &&& after.cursors[i].buffered.len() >= state.cursors[i].buffered.len()
                    &&& after.cursors[i].buffered.take(state.cursors[i].buffered.len() as int)
                        == state.cursors[i].buffered
                }
        }),
{
    lemma_cursor_at(state.cursors, fetched.partition);
    let after = state.with_partition(fetched).0;
    assert forall|i: int| 0 <= i < state.cursors.len() implies {
        &&& same_cursor(#[trigger] after.cursors[i], state.cursors[i])
        &&& after.cursors[i].next_offset >= state.cursors[i].next_offset
        &&& after.cursors[i].end_offset >= state.cursors[i].end_offset
        &&& !state.spec.follow ==> after.cursors[i].end_offset == state.cursors[i].end_offset
        &&& after.cursors[i].buffered.len() >= state.cursors[i].buffered.len()
        &&& after.cursors[i].buffered.take(state.cursors[i].buffered.len() as int)
            == state.cursors[i].buffered
    } by {
        assert(after.cursors[i].buffered.take(state.cursors[i].buffered.len() as int)
            =~= state.cursors[i].buffered);
    }
}

/// What comes out of a partition is what was read from it, in the order in
/// which it was read, whatever happens to the other partitions: at any time,
/// what was taken out followed by what is still held is what was put in.
pub proof fn what_is_read_first_comes_out_first(state: ScanView, actions: Seq<ScanAction>, at: int)
    requires
        0 <= at < state.cursors.len(),
    ensures
        ran(state, actions).cursors.len() == state.cursors.len(),
        all_taken(state, actions, at) + ran(state, actions).cursors[at].buffered
            == state.cursors[at].buffered + all_put(state, actions, at),
    decreases actions.len(),
{
    if actions.len() == 0 {
        assert(all_taken(state, actions, at) + state.cursors[at].buffered =~= state.cursors[at].buffered
            + all_put(state, actions, at));
    } else {
        let earlier = actions.drop_last();
        let action = actions.last();
        what_is_read_first_comes_out_first(state, earlier, at);
        let mid = ran(state, earlier);
        let end = after(mid, action);
        let held = mid.cursors[at].buffered;
        assert(end.cursors.len() == mid.cursors.len() && taken_from(mid, action, at)
            + end.cursors[at].buffered =~= held + put_into(mid, action, at)) by {
            match action {
                ScanAction::Begin => {},
                ScanAction::Absorb(fetched) => {
                    absorbing_appends(mid, fetched);
                    let grown = end.cursors[at].buffered;
                    assert(same_cursor(end.cursors[at], mid.cursors[at]));
                    assert(grown =~= grown.take(held.len() as int) + grown.skip(held.len() as int));
                },
                ScanAction::Resume(passes) => {
                    lemma_earliest_head(mid.cursors);
                    lemma_resumed_cursors(mid, passes);
                    if mid.up_next() is Some && earliest_head(mid.cursors) == Some(at) {
                        assert(seq![held[0]] + held.skip(1) =~= held);
                    }
                },
            }
        }
        let taken = all_taken(state, earlier, at);
        let put = all_put(state, earlier, at);
        let out = taken_from(mid, action, at);
        let into = put_into(mid, action, at);
        assert(taken + (out + end.cursors[at].buffered) =~= (taken + held) + into);
        assert((taken + out) + end.cursors[at].buffered =~= taken + (out
            + end.cursors[at].buffered));
        assert((state.cursors[at].buffered + put) + into =~= state.cursors[at].buffered + (put
            + into));
    }
}

/// The cursors after the second half of a turn: the head that came out is gone,
/// and nothing else changed.
pub proof fn lemma_resumed_cursors(state: ScanView, passes: bool)
    ensures
        ({
            let end = state.resumed(passes).0;
            &&& end.spec == state.spec
            &&& end.cursors == match (state.up_next(), earliest_head(state.cursors)) {
                (Some(_), Some(at)) => state.popped(at).cursors,
                _ => state.cursors,
            }
        }),
{
}

/// What one partition's answer decodes to.
pub open spec fn answer_of(spec: ScanSpec, fetched: FetchedView) -> DecodedView {
    decoded(spec.topic@, fetched.partition, fetched.records, fetched.aborted, spec.options())
}

/// Whether an answer is in order, as a log is: each outcome ends past the one
/// before it, none past the end of its last batch, and that end is not the last
/// offset there can be: there would be none to go on from.
pub open spec fn orderly(answer: DecodedView) -> bool {
    answer.last_offset matches Some(last) ==> {
        &&& last < i64::MAX
        &&& in_order(answer.outcomes)
        &&& all_end_by(answer.outcomes, last as int)
    }
}

/// Whether every answer about a partition is orderly.
pub open spec fn answers_orderly(spec: ScanSpec, partition: i32, fetched: Seq<FetchedView>) -> bool {
    forall|k: int|
        0 <= k < fetched.len() && (#[trigger] fetched[k]).partition == partition ==> orderly(
            answer_of(spec, fetched[k]),
        )
}

/// Whether every answer about a partition that some actions bring is orderly.
pub open spec fn actions_orderly(spec: ScanSpec, partition: i32, actions: Seq<ScanAction>) -> bool {
    forall|i: int|
        0 <= i < actions.len() ==> ((#[trigger] actions[i]) matches ScanAction::Absorb(fetched)
            ==> answers_orderly(spec, partition, fetched))
}

/// Records that ascend, followed by records that ascend from past them, ascend.
proof fn lemma_ascends_joined(a: Seq<RecordView>, b: Seq<RecordView>, mid: int, to: int)
    requires
        ascends(a),
        ascends(b),
        all_below(a, mid),
        all_from(b, mid),
        all_below(b, to),
        mid <= to,
    ensures
        ascends(a + b),
        all_below(a + b, to),
{
    assert forall|k: int| 0 <= k < (a + b).len() implies (#[trigger] (a + b)[k]).offset < to by {
        if k < a.len() {
            assert((a + b)[k] == a[k]);
        } else {
            assert((a + b)[k] == b[k - a.len()]);
        }
    }
    assert forall|i: int, j: int| 0 <= i < j < (a + b).len() implies (#[trigger] (a + b)[i]).offset
        < (#[trigger] (a + b)[j]).offset by {
        if j < a.len() {
            assert((a + b)[i] == a[i] && (a + b)[j] == a[j]);
        } else if i < a.len() {
            assert((a + b)[i] == a[i] && (a + b)[j] == b[j - a.len()]);
        } else {
            assert((a + b)[i] == b[i - a.len()] && (a + b)[j] == b[j - a.len()]);
        }
    }
}

/// The records that are kept are those between the bounds.
proof fn lemma_kept_records(from: i64, to: Option<i64>, outcomes: Seq<OutcomeView>)
    ensures
        records_of(kept(from, to, outcomes)) == between(
            records_of(outcomes),
            from as int,
            bound_to(to),
            every(),
        ),
    decreases outcomes.len(),
{
    if outcomes.len() > 0 {
        let shorter = outcomes.drop_last();
        lemma_kept_records(from, to, shorter);
        let before = kept(from, to, shorter);
        assert(before.push(outcomes.last()).drop_last() =~= before);
        if let OutcomeView::Decoded(record) = outcomes.last() {
            assert(records_of(shorter).push(record).drop_last() =~= records_of(shorter));
        }
    }
}

/// What is kept of outcomes that are in order is in order.
proof fn lemma_kept_in_order(from: i64, to: Option<i64>, outcomes: Seq<OutcomeView>, last: int)
    requires
        in_order(outcomes),
        all_end_by(outcomes, last),
    ensures
        in_order(kept(from, to, outcomes)),
        all_end_by(kept(from, to, outcomes), last),
    decreases outcomes.len(),
{
    if outcomes.len() > 0 {
        let shorter = outcomes.drop_last();
        let end = outcomes.last();
        assert(outcomes[outcomes.len() - 1] == end);
        assert forall|k: int| 0 <= k < shorter.len() implies (#[trigger] shorter[k]).last_offset()
            <= end.last_offset() - 1 by {
            assert(shorter[k] == outcomes[k]);
        }
        assert(in_order(shorter));
        lemma_kept_in_order(from, to, shorter, end.last_offset() - 1);
    }
}

/// The end of what a scan reads, whether it has one or not.
pub open spec fn bound_to(to: Option<i64>) -> int {
    match to {
        Some(to) => to as int,
        None => i64::MAX + 1,
    }
}

/// The records of the first outcomes that are kept, where not all can be, come
/// before those of the rest.
proof fn lemma_first_kept(
    from: i64,
    to: Option<i64>,
    outcomes: Seq<OutcomeView>,
    last: int,
    most: int,
)
    requires
        in_order(outcomes),
        all_end_by(outcomes, last),
        0 < most <= kept(from, to, outcomes).len(),
    ensures
        ({
            let found = kept(from, to, outcomes);
            let first = found.take(most);
            let end = first.last().last_offset();
            &&& records_of(found) == records_of(first) + records_of(found.skip(most))
            &&& ascends(records_of(first))
            &&& all_below(records_of(first), end + 1)
            &&& all_from(records_of(found.skip(most)), end + 1)
            &&& end <= last
            &&& all_from(records_of(first), from as int)
            &&& all_below(records_of(first), bound_to(to))
        }),
{
    let found = kept(from, to, outcomes);
    let first = found.take(most);
    let rest = found.skip(most);
    let end = first.last().last_offset() as int;
    lemma_kept_in_order(from, to, outcomes, last);
    lemma_kept_records(from, to, outcomes);
    lemma_records_in_order(outcomes, last);
    lemma_between(records_of(outcomes), from as int, bound_to(to), every(), last + 1);
    assert(found =~= first + rest);
    lemma_records_of_joined(first, rest);
    assert(first.last() == found[most - 1]);
    assert forall|k: int| 0 <= k < first.len() implies (#[trigger] first[k]).last_offset() <= end by {
        assert(first[k] == found[k]);
    }
    assert forall|i: int, j: int| 0 <= i < j < first.len() implies (
    #[trigger] first[i]).last_offset() < (#[trigger] first[j]).last_offset() by {
        assert(first[i] == found[i] && first[j] == found[j]);
    }
    lemma_records_in_order(first, end);
    assert forall|k: int| 0 <= k < rest.len() implies end + 1 <= (#[trigger] rest[k]).last_offset() by {
        assert(rest[k] == found[most + k]);
    }
    lemma_records_from(rest, end + 1);
    let older = records_of(first);
    assert forall|k: int| 0 <= k < older.len() implies from <= (#[trigger] older[k]).offset
        && older[k].offset < bound_to(to) by {
        assert(records_of(found)[k] == older[k]);
    }
}

/// One answer's part of [`log_order_is_exact`].
proof fn lemma_partition_ascends(state: ScanView, fetched: FetchedView, at: int)
    requires
        0 <= at < state.cursors.len(),
        fetched.partition == state.cursors[at].partition ==> orderly(
            answer_of(state.spec, fetched),
        ),
    ensures
        ({
            let end = state.with_partition(fetched).0;
            let put = records_of(
                end.cursors[at].buffered.skip(state.cursors[at].buffered.len() as int),
            );
            &&& ascends(put)
            &&& all_from(put, state.cursors[at].next_offset as int)
            &&& all_below(put, end.cursors[at].next_offset as int)
        }),
{
    let end = state.with_partition(fetched).0;
    let held = state.cursors[at].buffered;
    lemma_cursor_at(state.cursors, fetched.partition);
    lemma_with_partition(state, fetched);
    if cursor_at(state.cursors, fetched.partition) == Some(at) {
        let cursor = moved(state.cursors[at], fetched, state.spec);
        let answer = answer_of(state.spec, fetched);
        let from = state.cursors[at].next_offset;
        let most = state.share();
        match filled(from, cursor, answer, state.spec, most) {
            Ok(after) => {
                if let Some(last) = answer.last_offset {
                    let to = window_end(cursor, state.spec.follow);
                    let found = kept(from, to, answer.outcomes);
                    if found.len() <= most {
                        assert((held + found).skip(held.len() as int) =~= found);
                        lemma_records_in_order(answer.outcomes, last as int);
                        lemma_kept_records(from, to, answer.outcomes);
                        lemma_between(
                            records_of(answer.outcomes),
                            from as int,
                            bound_to(to),
                            every(),
                            last + 1,
                        );
                    } else if most > 0 {
                        let first = found.take(most as int);
                        assert((held + first).skip(held.len() as int) =~= first);
                        lemma_first_kept(from, to, answer.outcomes, last as int, most as int);
                    } else {
                        assert(held.skip(held.len() as int) =~= seq![]);
                    }
                } else {
                    assert(held.skip(held.len() as int) =~= seq![]);
                }
            },
            Err(_) => {
                assert(held.skip(held.len() as int) =~= seq![]);
            },
        }
    } else {
        assert(end.cursors[at] == state.cursors[at]);
        assert(held.skip(held.len() as int) =~= seq![]);
    }
}

/// What two answers put into a buffer, one after the other, is what both put
/// into it together.
proof fn lemma_put_joined(held: Seq<OutcomeView>, mid: Seq<OutcomeView>, end: Seq<OutcomeView>)
    requires
        held.len() <= mid.len() <= end.len(),
        mid.take(held.len() as int) == held,
        end.take(mid.len() as int) == mid,
    ensures
        records_of(end.skip(held.len() as int)) == records_of(mid.skip(held.len() as int))
            + records_of(end.skip(mid.len() as int)),
{
    assert(end =~= end.take(mid.len() as int) + end.skip(mid.len() as int));
    assert(end.skip(held.len() as int) =~= mid.skip(held.len() as int) + end.skip(
        mid.len() as int,
    ));
    lemma_records_of_joined(mid.skip(held.len() as int), end.skip(mid.len() as int));
}

/// The answers' part of [`log_order_is_exact`].
proof fn lemma_answers_ascend(state: ScanView, fetched: Seq<FetchedView>, at: int)
    requires
        0 <= at < state.cursors.len(),
        answers_orderly(state.spec, state.cursors[at].partition, fetched),
    ensures
        ({
            let end = state.absorbed(fetched).0;
            let put = records_of(
                end.cursors[at].buffered.skip(state.cursors[at].buffered.len() as int),
            );
            &&& ascends(put)
            &&& all_from(put, state.cursors[at].next_offset as int)
            &&& all_below(put, end.cursors[at].next_offset as int)
        }),
    decreases fetched.len(),
{
    let held = state.cursors[at].buffered;
    absorbing_appends(state, fetched);
    if fetched.len() == 0 {
        assert(held.skip(held.len() as int) =~= seq![]);
    } else {
        let earlier = fetched.drop_last();
        assert forall|k: int|
            0 <= k < earlier.len() && (#[trigger] earlier[k]).partition
                == state.cursors[at].partition implies orderly(answer_of(state.spec, earlier[k])) by {
            assert(fetched[k] == earlier[k]);
        }
        lemma_answers_ascend(state, earlier, at);
        absorbing_appends(state, earlier);
        let (mid, read) = state.absorbed(earlier);
        if read is Ok {
            let last = fetched.last();
            assert(last == fetched[fetched.len() - 1]);
            assert(same_cursor(mid.cursors[at], state.cursors[at]));
            lemma_partition_ascends(mid, last, at);
            lemma_with_partition(mid, last);
            let end = mid.with_partition(last).0;
            assert(same_cursor(end.cursors[at], mid.cursors[at]));
            lemma_put_joined(held, mid.cursors[at].buffered, end.cursors[at].buffered);
            let first = records_of(mid.cursors[at].buffered.skip(held.len() as int));
            let second = records_of(
                end.cursors[at].buffered.skip(mid.cursors[at].buffered.len() as int),
            );
            lemma_ascends_joined(
                first,
                second,
                mid.cursors[at].next_offset as int,
                end.cursors[at].next_offset as int,
            );
            assert forall|k: int| 0 <= k < (first + second).len() implies state.cursors[at].next_offset
                <= (#[trigger] (first + second)[k]).offset by {
                if k < first.len() {
                    assert((first + second)[k] == first[k]);
                } else {
                    assert((first + second)[k] == second[k - first.len()]);
                }
            }
        }
    }
}

/// What is put into a partition's buffer ascends, whatever the actions.
proof fn lemma_put_ascends(state: ScanView, actions: Seq<ScanAction>, at: int)
    requires
        0 <= at < state.cursors.len(),
        actions_orderly(state.spec, state.cursors[at].partition, actions),
    ensures
        ({
            let end = ran(state, actions);
            let put = records_of(all_put(state, actions, at));
            &&& end.spec == state.spec
            &&& end.cursors.len() == state.cursors.len()
            &&& same_cursor(end.cursors[at], state.cursors[at])
            &&& ascends(put)
            &&& all_below(put, end.cursors[at].next_offset as int)
        }),
    decreases actions.len(),
{
    if actions.len() > 0 {
        let earlier = actions.drop_last();
        let action = actions.last();
        assert forall|i: int| 0 <= i < earlier.len() implies ((#[trigger] earlier[i]) matches ScanAction::Absorb(
            fetched,
        ) ==> answers_orderly(state.spec, state.cursors[at].partition, fetched)) by {
            assert(actions[i] == earlier[i]);
        }
        lemma_put_ascends(state, earlier, at);
        let mid = ran(state, earlier);
        let end = after(mid, action);
        let put = all_put(state, earlier, at);
        let into = put_into(mid, action, at);
        lemma_records_of_joined(put, into);
        assert(action == actions[actions.len() - 1]);
        match action {
            ScanAction::Begin => {
                assert(put + into =~= put);
            },
            ScanAction::Absorb(fetched) => {
                lemma_answers_ascend(mid, fetched, at);
                absorbing_appends(mid, fetched);
                assert(same_cursor(end.cursors[at], mid.cursors[at]));
                lemma_ascends_joined(
                    records_of(put),
                    records_of(into),
                    mid.cursors[at].next_offset as int,
                    end.cursors[at].next_offset as int,
                );
            },
            ScanAction::Resume(passes) => {
                lemma_earliest_head(mid.cursors);
                lemma_resumed_cursors(mid, passes);
                assert(put + into =~= put);
            },
        }
    }
}

/// Within a partition log order is exact, always: whatever happens to the other
/// partitions, and however far back the answers reach, the records that come out
/// of it strictly ascend by offset, so that none comes twice. The answers
/// themselves must ascend, as a log does.
pub proof fn log_order_is_exact(state: ScanView, actions: Seq<ScanAction>, at: int)
    requires
        0 <= at < state.cursors.len(),
        state.cursors[at].buffered.len() == 0,
        actions_orderly(state.spec, state.cursors[at].partition, actions),
    ensures
        ascends(records_of(all_taken(state, actions, at))),
{
    what_is_read_first_comes_out_first(state, actions, at);
    lemma_put_ascends(state, actions, at);
    let taken = all_taken(state, actions, at);
    let left = ran(state, actions).cursors[at].buffered;
    assert(state.cursors[at].buffered + all_put(state, actions, at) =~= all_put(
        state,
        actions,
        at,
    ));
    lemma_records_of_joined(taken, left);
    let all = records_of(taken) + records_of(left);
    assert forall|i: int, j: int| 0 <= i < j < records_of(taken).len() implies (#[trigger] records_of(
        taken,
    )[i]).offset < (#[trigger] records_of(taken)[j]).offset by {
        assert(all[i] == records_of(taken)[i] && all[j] == records_of(taken)[j]);
    }
}

/// Whether an answer about a partition that stands at a cursor tells what a log
/// holds, and the log holds nothing that was deleted meanwhile.
pub open spec fn tells_cursor(
    log: Seq<RecordView>,
    spec: ScanSpec,
    cursor: CursorView,
    fetched: FetchedView,
) -> bool {
    let start = moved(cursor, fetched, spec).next_offset;
    &&& between(log, cursor.next_offset as int, start as int, every()).len() == 0
    &&& tells(log, cursor.next_offset, answer_of(spec, fetched))
    &&& answer_of(spec, fetched).last_offset matches Some(last) ==> start <= last < i64::MAX
}

/// Whether every answer about a cursor's partition tells what a log holds.
pub open spec fn answers_tell(
    log: Seq<RecordView>,
    state: ScanView,
    fetched: Seq<FetchedView>,
    at: int,
) -> bool
    decreases fetched.len(),
{
    fetched.len() > 0 ==> {
        let before = state.absorbed(fetched.drop_last()).0;
        &&& answers_tell(log, state, fetched.drop_last(), at)
        &&& cursor_at(before.cursors, fetched.last().partition) == Some(at) ==> tells_cursor(
            log,
            before.spec,
            before.cursors[at],
            fetched.last(),
        )
    }
}

/// Whether every answer about a cursor's partition that some actions bring tells
/// what a log holds.
pub open spec fn actions_tell(
    log: Seq<RecordView>,
    state: ScanView,
    actions: Seq<ScanAction>,
    at: int,
) -> bool
    decreases actions.len(),
{
    actions.len() > 0 ==> {
        &&& actions_tell(log, state, actions.drop_last(), at)
        &&& actions.last() matches ScanAction::Absorb(fetched) ==> answers_tell(
            log,
            ran(state, actions.drop_last()),
            fetched,
            at,
        )
    }
}

/// How far a scan that stands at a cursor has read: where it stands, but no
/// further than the end of a browse.
pub open spec fn read_to(cursor: CursorView, follow: bool) -> int {
    if !follow && cursor.end_offset < cursor.next_offset {
        cursor.end_offset as int
    } else {
        cursor.next_offset as int
    }
}

/// Whether a browse's cursor that counts as finished has nothing left before
/// its end.
pub open spec fn nothing_left(log: Seq<RecordView>, cursor: CursorView) -> bool {
    cursor.finished ==> between(
        log,
        read_to(cursor, false),
        cursor.end_offset as int,
        every(),
    ).len() == 0
}

/// Whether what a browse set out to read stayed the same, and a cursor finished
/// only where nothing was left of it.
pub open spec fn ends_alike(log: Seq<RecordView>, before: CursorView, after: CursorView) -> bool {
    &&& after.end_offset == before.end_offset
    &&& nothing_left(log, before) ==> nothing_left(log, after)
}

/// One answer's part of [`a_scan_leaves_nothing_out`].
proof fn lemma_partition_tells(log: Seq<RecordView>, state: ScanView, fetched: FetchedView, at: int)
    requires
        0 <= at < state.cursors.len(),
        ascends(log),
        cursor_at(state.cursors, fetched.partition) == Some(at) ==> tells_cursor(
            log,
            state.spec,
            state.cursors[at],
            fetched,
        ),
    ensures
        ({
            let end = state.with_partition(fetched).0;
            let put = records_of(
                end.cursors[at].buffered.skip(state.cursors[at].buffered.len() as int),
            );
            let follow = state.spec.follow;
            &&& read_to(state.cursors[at], follow) <= read_to(end.cursors[at], follow)
            &&& put == between(
                log,
                read_to(state.cursors[at], follow),
                read_to(end.cursors[at], follow),
                every(),
            )
            &&& !follow ==> ends_alike(log, state.cursors[at], end.cursors[at])
        }),
{
    let end = state.with_partition(fetched).0;
    let first = state.cursors[at];
    let held = first.buffered;
    let follow = state.spec.follow;
    lemma_cursor_at(state.cursors, fetched.partition);
    lemma_with_partition(state, fetched);
    let from = read_to(first, follow);
    lemma_nothing_between(log, from, from, every());
    if cursor_at(state.cursors, fetched.partition) == Some(at) {
        let cursor = moved(first, fetched, state.spec);
        let answer = answer_of(state.spec, fetched);
        let mid = read_to(cursor, follow);
        // What was deleted meanwhile.
        if from < mid {
            lemma_nothing_nearer(
                log,
                first.next_offset as int,
                cursor.next_offset as int,
                from,
                mid,
                every(),
            );
        }
        let most = state.share();
        match filled(first.next_offset, cursor, answer, state.spec, most) {
            Ok(after) => {
                if let Some(last) = answer.last_offset {
                    let to = window_end(cursor, follow);
                    let found = kept(first.next_offset, to, answer.outcomes);
                    lemma_kept_records(first.next_offset, to, answer.outcomes);
                    lemma_told(log, first.next_offset, answer, bound_to(to), every());
                    if first.next_offset >= bound_to(to) {
                        // Past the end of a browse already.
                        lemma_nothing_between(
                            log,
                            first.next_offset as int,
                            bound_to(to),
                            every(),
                        );
                    }
                    if found.len() <= most {
                        assert((held + found).skip(held.len() as int) =~= found);
                    } else if most > 0 {
                        let some = found.take(most as int);
                        assert((held + some).skip(held.len() as int) =~= some);
                        lemma_first_kept(
                            first.next_offset,
                            to,
                            answer.outcomes,
                            last as int,
                            most as int,
                        );
                        if first.next_offset < bound_to(to) {
                            lemma_some_kept(log, first, cursor, answer, state.spec, most);
                        } else {
                            assert(records_of(some) =~= seq![]);
                        }
                    } else {
                        assert(held.skip(held.len() as int) =~= seq![]);
                    }
                } else {
                    assert(held.skip(held.len() as int) =~= seq![]);
                }
            },
            Err(_) => {
                assert(held.skip(held.len() as int) =~= seq![]);
            },
        }
        if !follow {
            lemma_ends_alike(log, first, fetched, state.spec, most);
        }
    } else {
        assert(end.cursors[at] == state.cursors[at]);
        assert(held.skip(held.len() as int) =~= seq![]);
    }
}

/// Where not all of an answer could be kept, what was kept is what the log holds
/// up to where the scan goes on.
proof fn lemma_some_kept(
    log: Seq<RecordView>,
    first: CursorView,
    cursor: CursorView,
    answer: DecodedView,
    spec: ScanSpec,
    most: nat,
)
    requires
        ascends(log),
        tells(log, first.next_offset, answer),
        answer.last_offset matches Some(last) && cursor.next_offset <= last < i64::MAX,
        first.next_offset <= cursor.next_offset,
        between(log, first.next_offset as int, cursor.next_offset as int, every()).len() == 0,
        0 < most < kept(
            first.next_offset,
            window_end(cursor, spec.follow),
            answer.outcomes,
        ).len(),
        first.next_offset < bound_to(window_end(cursor, spec.follow)),
    ensures
        ({
            let found = kept(first.next_offset, window_end(cursor, spec.follow), answer.outcomes);
            let some = found.take(most as int);
            let next = past_kept(cursor, some.last().last_offset(), spec.follow);
            let reach = read_to(CursorView { next_offset: next, ..cursor }, spec.follow);
            records_of(some) == between(log, first.next_offset as int, reach, every())
        }),
{
    let last = answer.last_offset->Some_0;
    let to = window_end(cursor, spec.follow);
    let found = kept(first.next_offset, to, answer.outcomes);
    let some = found.take(most as int);
    let end = some.last().last_offset();
    let from = first.next_offset as int;
    let bound = bound_to(to);
    lemma_kept_records(first.next_offset, to, answer.outcomes);
    lemma_told(log, first.next_offset, answer, bound, every());
    lemma_first_kept(first.next_offset, to, answer.outcomes, last as int, most as int);
    let reached = if bound < last + 1 {
        bound
    } else {
        last + 1
    };
    let older = records_of(some);
    let newer = records_of(found.skip(most as int));
    let next = past_kept(cursor, end, spec.follow);
    let reach = read_to(CursorView { next_offset: next, ..cursor }, spec.follow);
    // Where what was kept ends, as far as the scan reads.
    let mid = if end + 1 < from {
        from
    } else if end + 1 < reached {
        end + 1
    } else {
        reached
    };
    lemma_between(log, from, reached, every(), i64::MAX + 1);
    let all = between(log, from, reached, every());
    assert forall|k: int| 0 <= k < older.len() implies (#[trigger] older[k]).offset < mid by {
        assert(all[k] == older[k]);
    }
    assert forall|k: int| 0 <= k < newer.len() implies mid <= (#[trigger] newer[k]).offset by {
        assert(all[older.len() + k] == newer[k]);
    }
    lemma_between_split(log, from, mid, reached, every(), older, newer);
    if mid < reach {
        // Only what was deleted lies between.
        lemma_nothing_nearer(log, from, cursor.next_offset as int, mid, reach, every());
        lemma_between_joined(log, from, mid, reach, every());
        assert(between(log, from, mid, every()) + between(log, mid, reach, every())
            =~= between(log, from, mid, every()));
    }
}

/// A browse's cursor finishes only where nothing is left before its end.
proof fn lemma_ends_alike(
    log: Seq<RecordView>,
    first: CursorView,
    fetched: FetchedView,
    spec: ScanSpec,
    most: nat,
)
    requires
        ascends(log),
        !spec.follow,
        tells_cursor(log, spec, first, fetched),
    ensures
        ends_alike(log, first, moved(first, fetched, spec)),
        filled(
            first.next_offset,
            moved(first, fetched, spec),
            answer_of(spec, fetched),
            spec,
            most,
        ) matches Ok(after) ==> ends_alike(log, first, after),
{
    let cursor = moved(first, fetched, spec);
    let answer = answer_of(spec, fetched);
    let to = first.end_offset as int;
    lemma_nothing_between(log, to, to, every());
    if first.finished && nothing_left(log, first) {
        lemma_nothing_nearer(log, read_to(first, false), to, read_to(cursor, false), to, every());
        if let Ok(after) = filled(first.next_offset, cursor, answer, spec, most) {
            lemma_nothing_nearer(
                log,
                read_to(first, false),
                to,
                read_to(after, false),
                to,
                every(),
            );
        }
    }
    if answer.last_offset is None && cursor.next_offset < to {
        lemma_nothing_nearer(
            log,
            first.next_offset as int,
            i64::MAX + 1,
            cursor.next_offset as int,
            to,
            every(),
        );
    }
}

/// The answers' part of [`a_scan_leaves_nothing_out`].
proof fn lemma_answers_tell(
    log: Seq<RecordView>,
    state: ScanView,
    fetched: Seq<FetchedView>,
    at: int,
)
    requires
        0 <= at < state.cursors.len(),
        ascends(log),
        answers_tell(log, state, fetched, at),
    ensures
        ({
            let end = state.absorbed(fetched).0;
            let put = records_of(
                end.cursors[at].buffered.skip(state.cursors[at].buffered.len() as int),
            );
            let follow = state.spec.follow;
            &&& read_to(state.cursors[at], follow) <= read_to(end.cursors[at], follow)
            &&& put == between(
                log,
                read_to(state.cursors[at], follow),
                read_to(end.cursors[at], follow),
                every(),
            )
            &&& !follow ==> ends_alike(log, state.cursors[at], end.cursors[at])
        }),
    decreases fetched.len(),
{
    let held = state.cursors[at].buffered;
    let follow = state.spec.follow;
    let from = read_to(state.cursors[at], follow);
    absorbing_appends(state, fetched);
    if fetched.len() == 0 {
        assert(held.skip(held.len() as int) =~= seq![]);
        lemma_nothing_between(log, from, from, every());
    } else {
        let earlier = fetched.drop_last();
        lemma_answers_tell(log, state, earlier, at);
        absorbing_appends(state, earlier);
        let (mid, read) = state.absorbed(earlier);
        if read is Ok {
            let last = fetched.last();
            assert(same_cursor(mid.cursors[at], state.cursors[at]));
            lemma_partition_tells(log, mid, last, at);
            lemma_with_partition(mid, last);
            let end = mid.with_partition(last).0;
            assert(same_cursor(end.cursors[at], mid.cursors[at]));
            lemma_put_joined(held, mid.cursors[at].buffered, end.cursors[at].buffered);
            lemma_between_joined(
                log,
                from,
                read_to(mid.cursors[at], follow),
                read_to(end.cursors[at], follow),
                every(),
            );
        }
    }
}

/// What is put into a partition's buffer is what its log holds, whatever the
/// actions.
proof fn lemma_put_tells(log: Seq<RecordView>, state: ScanView, actions: Seq<ScanAction>, at: int)
    requires
        0 <= at < state.cursors.len(),
        ascends(log),
        actions_tell(log, state, actions, at),
    ensures
        ({
            let end = ran(state, actions);
            let follow = state.spec.follow;
            &&& end.spec == state.spec
            &&& end.cursors.len() == state.cursors.len()
            &&& read_to(state.cursors[at], follow) <= read_to(end.cursors[at], follow)
            &&& records_of(all_put(state, actions, at)) == between(
                log,
                read_to(state.cursors[at], follow),
                read_to(end.cursors[at], follow),
                every(),
            )
            &&& !follow ==> ends_alike(log, state.cursors[at], end.cursors[at])
        }),
    decreases actions.len(),
{
    let follow = state.spec.follow;
    let from = read_to(state.cursors[at], follow);
    lemma_nothing_between(log, from, from, every());
    if actions.len() > 0 {
        let earlier = actions.drop_last();
        let action = actions.last();
        lemma_put_tells(log, state, earlier, at);
        let mid = ran(state, earlier);
        let end = after(mid, action);
        let put = all_put(state, earlier, at);
        let into = put_into(mid, action, at);
        lemma_records_of_joined(put, into);
        match action {
            ScanAction::Begin => {
                assert(put + into =~= put);
            },
            ScanAction::Absorb(fetched) => {
                lemma_answers_tell(log, mid, fetched, at);
                absorbing_appends(mid, fetched);
                lemma_between_joined(
                    log,
                    from,
                    read_to(mid.cursors[at], follow),
                    read_to(end.cursors[at], follow),
                    every(),
                );
            },
            ScanAction::Resume(passes) => {
                lemma_earliest_head(mid.cursors);
                lemma_resumed_cursors(mid, passes);
                assert(put + into =~= put);
            },
        }
    }
}

/// A scan leaves nothing out: what came out of a partition, followed by what is
/// still held, is every record of its log from where the scan started up to
/// where it stands, once each and in order; in a browse, up to the end that it
/// was planned against and no further. And a browse that is through with a
/// partition gave every record of it up to that end. The answers must tell what
/// the log holds.
pub proof fn a_scan_leaves_nothing_out(
    log: Seq<RecordView>,
    state: ScanView,
    actions: Seq<ScanAction>,
    at: int,
)
    requires
        0 <= at < state.cursors.len(),
        state.cursors[at].buffered.len() == 0,
        state.cursors[at].finished ==> state.cursors[at].next_offset
            >= state.cursors[at].end_offset,
        ascends(log),
        actions_tell(log, state, actions, at),
    ensures
        ({
            let end = ran(state, actions);
            let start = read_to(state.cursors[at], state.spec.follow);
            let taken = records_of(all_taken(state, actions, at));
            &&& taken + records_of(end.cursors[at].buffered) == between(
                log,
                start,
                read_to(end.cursors[at], state.spec.follow),
                every(),
            )
            &&& !state.spec.follow && end.cursors[at].drained() ==> taken == between(
                log,
                start,
                state.cursors[at].end_offset as int,
                every(),
            )
        }),
{
    what_is_read_first_comes_out_first(state, actions, at);
    lemma_put_tells(log, state, actions, at);
    let first = state.cursors[at];
    let last = ran(state, actions).cursors[at];
    let taken = all_taken(state, actions, at);
    assert(first.buffered + all_put(state, actions, at) =~= all_put(state, actions, at));
    lemma_records_of_joined(taken, last.buffered);
    if !state.spec.follow && last.drained() {
        let to = first.end_offset as int;
        lemma_nothing_between(log, to, to, every());
        lemma_between_joined(
            log,
            read_to(first, false),
            read_to(last, false),
            to,
            every(),
        );
        assert(records_of(taken) + records_of(last.buffered) =~= records_of(taken));
        assert(between(log, read_to(last, false), to, every()).len() == 0);
        assert(between(log, read_to(first, false), read_to(last, false), every()) + between(
            log,
            read_to(last, false),
            to,
            every(),
        ) =~= records_of(taken));
    }
}

/// Whether no partition stands, or holds a record from, before where it started.
pub open spec fn within_bounds(state: ScanView) -> bool {
    &&& forall|i: int|
        0 <= i < state.cursors.len() ==> (#[trigger] state.cursors[i]).next_offset
            >= state.cursors[i].start_offset
    &&& forall|i: int, j: int|
        0 <= i < state.cursors.len() && 0 <= j < state.cursors[i].buffered.len() ==> (
        (#[trigger] state.cursors[i].buffered[j]) matches OutcomeView::Decoded(record)
            ==> record.offset >= state.cursors[i].start_offset)
}

/// What is kept from an offset on is from that offset on.
proof fn lemma_kept_from(from: i64, to: Option<i64>, outcomes: Seq<OutcomeView>)
    ensures
        forall|j: int|
            0 <= j < kept(from, to, outcomes).len() ==> ((#[trigger] kept(from, to, outcomes)[j])
                matches OutcomeView::Decoded(record) ==> record.offset >= from),
    decreases outcomes.len(),
{
    if outcomes.len() > 0 {
        lemma_kept_from(from, to, outcomes.drop_last());
    }
}

/// A scan never holds, and so never emits, a record from before the offset at
/// which its partition started, however far back the fetched batches reach.
pub proof fn nothing_comes_before_the_start(
    spec: ScanSpec,
    cursors: Seq<CursorView>,
    actions: Seq<ScanAction>,
)
    requires
        forall|i: int|
            0 <= i < cursors.len() ==> (#[trigger] cursors[i]).buffered.len() == 0
                && cursors[i].next_offset >= cursors[i].start_offset,
    ensures
        within_bounds(ran(started(spec, cursors), actions)),
    decreases actions.len(),
{
    if actions.len() == 0 {
        let start = started(spec, cursors);
        assert forall|i: int, j: int|
            0 <= i < start.cursors.len() && 0 <= j < start.cursors[i].buffered.len() implies ((
        #[trigger] start.cursors[i].buffered[j]) matches OutcomeView::Decoded(record)
            ==> record.offset >= start.cursors[i].start_offset) by {
            assert(cursors[i].buffered.len() == 0);
        }
    } else {
        nothing_comes_before_the_start(spec, cursors, actions.drop_last());
        lemma_action_stays_within_bounds(
            ran(started(spec, cursors), actions.drop_last()),
            actions.last(),
        );
    }
}

/// One action's part of [`nothing_comes_before_the_start`].
proof fn lemma_action_stays_within_bounds(state: ScanView, action: ScanAction)
    requires
        within_bounds(state),
    ensures
        within_bounds(after(state, action)),
{
    let end = after(state, action);
    match action {
        ScanAction::Begin => {
            assert(end.cursors == state.cursors);
        },
        ScanAction::Absorb(fetched) => {
            lemma_absorbing_stays_within_bounds(state, fetched);
        },
        ScanAction::Resume(passes) => {
            lemma_earliest_head(state.cursors);
            lemma_resumed_cursors(state, passes);
            assert forall|i: int, j: int|
                0 <= i < end.cursors.len() && 0 <= j < end.cursors[i].buffered.len() implies ((
            #[trigger] end.cursors[i].buffered[j]) matches OutcomeView::Decoded(record)
                ==> record.offset >= end.cursors[i].start_offset) by {
                if state.up_next() is Some && earliest_head(state.cursors) == Some(i) {
                    assert(end.cursors[i].buffered[j] == state.cursors[i].buffered[j + 1]);
                } else {
                    assert(end.cursors[i] == state.cursors[i]);
                    assert(end.cursors[i].buffered[j] == state.cursors[i].buffered[j]);
                }
            }
        },
    }
}

/// The answers' part of [`nothing_comes_before_the_start`].
proof fn lemma_absorbing_stays_within_bounds(state: ScanView, fetched: Seq<FetchedView>)
    requires
        within_bounds(state),
    ensures
        within_bounds(state.absorbed(fetched).0),
    decreases fetched.len(),
{
    if fetched.len() > 0 {
        lemma_absorbing_stays_within_bounds(state, fetched.drop_last());
        let (before, read) = state.absorbed(fetched.drop_last());
        if read is Ok {
            let last = fetched.last();
            let end = before.with_partition(last).0;
            lemma_cursor_at(before.cursors, last.partition);
            lemma_with_partition(before, last);
            assert forall|i: int| 0 <= i < end.cursors.len() implies (#[trigger] end.cursors[i]).next_offset
                >= end.cursors[i].start_offset by {
                assert(same_cursor(end.cursors[i], before.cursors[i]));
                assert(before.cursors[i].next_offset >= before.cursors[i].start_offset);
            }
            assert forall|i: int, j: int|
                0 <= i < end.cursors.len() && 0 <= j < end.cursors[i].buffered.len() implies ((
            #[trigger] end.cursors[i].buffered[j]) matches OutcomeView::Decoded(record)
                ==> record.offset >= end.cursors[i].start_offset) by {
                let held = before.cursors[i].buffered;
                if j < held.len() {
                    assert(end.cursors[i].buffered[j] == held[j]);
                } else {
                    let outcome = decoded(
                        before.spec.topic@,
                        last.partition,
                        last.records,
                        last.aborted,
                        before.spec.options(),
                    );
                    let cursor = moved(before.cursors[i], last, before.spec);
                    let to = window_end(cursor, before.spec.follow);
                    assert(before.cursors[i].next_offset >= before.cursors[i].start_offset);
                    let from = before.cursors[i].next_offset;
                    lemma_kept_from(from, to, outcome.outcomes);
                    assert(end.cursors[i].buffered[j] == kept(from, to, outcome.outcomes)[j
                        - held.len()]);
                }
            }
        }
    }
}

/// A record that comes out is the head of a partition, and from where that
/// partition started, or later.
pub proof fn an_emitted_record_is_within_bounds(state: ScanView, passes: bool)
    requires
        within_bounds(state),
        state.pending.len() == 0,
    ensures
        state.resumed(passes).1 matches Some(EventView::Record(record)) ==> exists|at: int|
            0 <= at < state.cursors.len() && record.offset >= (#[trigger] state.cursors[at]).start_offset
                && state.cursors[at].buffered.len() > 0 && state.cursors[at].buffered[0]
                == OutcomeView::Decoded(record),
{
    lemma_earliest_head(state.cursors);
    if let Some(EventView::Record(record)) = state.resumed(passes).1 {
        let at = earliest_head(state.cursors)->Some_0;
        assert(state.cursors[at].buffered[0] == OutcomeView::Decoded(record));
    }
}

/// Whatever comes out is the earliest of what is buffered; and while every
/// unfinished partition is represented, the order across partitions is exact
/// and no caveat is raised.
pub proof fn the_earliest_comes_out(state: ScanView, passes: bool)
    ensures
        state.up_next() matches Some(outcome) ==> forall|i: int|
            0 <= i < state.cursors.len() && (#[trigger] state.cursors[i]).buffered.len() > 0
                ==> timestamp_of(outcome) <= timestamp_of(state.cursors[i].buffered[0]),
        !waiting(state.cursors) ==> state.resumed(passes).0.progress.reorder_window
            == state.progress.reorder_window,
        waiting(state.cursors) && !state.at_ceiling() ==> state.up_next() is None,
{
    lemma_earliest_head(state.cursors);
}

/// A scan one partition wide never raises a caveat about its order.
pub proof fn one_partition_has_no_order_to_degrade(
    spec: ScanSpec,
    cursors: Seq<CursorView>,
    actions: Seq<ScanAction>,
)
    requires
        cursors.len() <= 1,
    ensures
        ran(started(spec, cursors), actions).cursors.len() <= 1,
        ran(started(spec, cursors), actions).progress.reorder_window == 0,
    decreases actions.len(),
{
    if actions.len() > 0 {
        one_partition_has_no_order_to_degrade(spec, cursors, actions.drop_last());
        lemma_action_degrades_nothing(
            ran(started(spec, cursors), actions.drop_last()),
            actions.last(),
        );
    }
}

/// One action's part of [`one_partition_has_no_order_to_degrade`].
proof fn lemma_action_degrades_nothing(state: ScanView, action: ScanAction)
    requires
        state.cursors.len() <= 1,
        state.progress.reorder_window == 0,
    ensures
        after(state, action).cursors.len() <= 1,
        after(state, action).progress.reorder_window == 0,
{
    reveal_with_fuel(active, 2);
    assert(active(state.cursors) <= 1);
    assert(window_of(state.spec.max_buffered_records, active(state.cursors)) == 0);
    match action {
        ScanAction::Begin => {},
        ScanAction::Absorb(fetched) => {
            absorbing_appends(state, fetched);
        },
        ScanAction::Resume(passes) => {
            lemma_earliest_head(state.cursors);
        },
    }
}

/// The caveat about the order only ever widens.
pub proof fn the_reorder_window_only_widens(state: ScanView, action: ScanAction)
    ensures
        after(state, action).progress.reorder_window >= state.progress.reorder_window,
        after(state, action).progress.partitions_planned == state.progress.partitions_planned,
{
    if let ScanAction::Absorb(fetched) = action {
        absorbing_appends(state, fetched);
    }
}

/// No more records are emitted than were asked for: a scan that has not reached
/// its limit emits at most one more, and one that has reached it ends.
pub proof fn the_limit_holds(state: ScanView, passes: bool, limit: usize)
    requires
        state.spec.limit == Some(limit),
    ensures
        !state.limit_reached() ==> state.resumed(passes).0.progress.records_emitted <= limit,
        state.limit_reached() && state.pending.len() == 0 && !state.done ==> state.begun().1
            == TurnView::Event(EventView::Done(state.ended().progress)),
        forall|fetched: Seq<FetchedView>|
            (#[trigger] state.absorbed(fetched)).0.progress.records_emitted
                == state.progress.records_emitted,
{
    assert forall|fetched: Seq<FetchedView>|
        (#[trigger] state.absorbed(fetched)).0.progress.records_emitted
            == state.progress.records_emitted by {
        absorbing_appends(state, fetched);
    }
}

/// [`EventView::Done`] is the last event: whichever half of a turn it comes
/// from, every turn after it is over before it began.
pub proof fn done_is_last(state: ScanView, passes: bool)
    requires
        state.pending.len() == 0,
    ensures
        state.begun().1 matches TurnView::Event(EventView::Done(_)) ==> state.begun().0.begun() == (
            state.begun().0,
            TurnView::Over,
        ),
        state.resumed(passes).1 matches Some(EventView::Done(progress)) ==> {
            &&& progress.partitions_active == 0
            &&& state.resumed(passes).0.begun() == (state.resumed(passes).0, TurnView::Over)
        },
{
    lemma_earliest_head(state.cursors);
}

/// A scan that has nothing to emit and nothing to read ends.
pub proof fn an_exhausted_browse_ends(state: ScanView, passes: bool)
    requires
        state.all_exhausted(),
        state.pending.len() == 0,
    ensures
        state.resumed(passes).1 matches Some(EventView::Done(_)),
{
    lemma_earliest_head(state.cursors);
    assert(earliest_head(state.cursors) is None) by {
        if let Some(at) = earliest_head(state.cursors) {
            assert(state.cursors[at].drained());
        }
    }
}

/// The state after some turns that only handed out what was due.
pub open spec fn turns(state: ScanView, count: nat) -> ScanView
    decreases count,
{
    if count == 0 {
        state
    } else {
        turns(state, (count - 1) as nat).begun().0
    }
}

/// Every partition announces where it starts, in order, before anything is
/// fetched.
pub proof fn starts_come_first(spec: ScanSpec, cursors: Seq<CursorView>, nth: nat)
    requires
        nth < cursors.len(),
    ensures
        turns(started(spec, cursors), nth).begun().1 == TurnView::Event(
            start_event(cursors[nth as int]),
        ),
{
    lemma_turns(started(spec, cursors), nth);
}

/// Turns that hand out what is due leave the rest of it.
proof fn lemma_turns(state: ScanView, count: nat)
    requires
        count <= state.pending.len(),
    ensures
        turns(state, count) == (ScanView { pending: state.pending.skip(count as int), ..state }),
    decreases count,
{
    if count == 0 {
        assert(state.pending.skip(0) =~= state.pending);
    } else {
        lemma_turns(state, (count - 1) as nat);
        assert(state.pending.skip(count - 1).skip(1) =~= state.pending.skip(count as int));
    }
}

/// A fetch that brings a whole batch moves its partition on, whatever the batch
/// came to: past it, or to the end of a browse. Where there is no room for all
/// of it, the partition goes on past what is kept, and so on if that reaches the
/// offset that was asked for.
pub proof fn a_fetch_moves_on(
    from: i64,
    cursor: CursorView,
    outcome: DecodedView,
    spec: ScanSpec,
    most: nat,
)
    requires
        cursor.next_offset < i64::MAX,
        spec.follow || cursor.next_offset < cursor.end_offset,
        outcome.last_offset is Some,
    ensures
        filled(from, cursor, outcome, spec, most) matches Ok(after) && {
            let found = kept(from, window_end(cursor, spec.follow), outcome.outcomes);
            &&& found.len() <= most ==> after.next_offset > cursor.next_offset && (
            outcome.last_offset->Some_0 < i64::MAX ==> after.next_offset
                > outcome.last_offset->Some_0 || !spec.follow && after.next_offset
                == cursor.end_offset)
            &&& 0 < most < found.len() && cursor.next_offset <= found[most - 1].last_offset()
                ==> after.next_offset > cursor.next_offset
            &&& after.next_offset >= cursor.next_offset
        },
{
}

/// Only a partition that holds nothing is fetched for, and in a browse only one
/// that is behind its end.
pub proof fn only_partitions_that_are_behind_are_fetched(
    cursors: Seq<CursorView>,
    spec: ScanSpec,
    idle: bool,
)
    ensures
        forall|k: int|
            0 <= k < targets_of(cursors, spec, idle).len() ==> exists|i: int|
                0 <= i < cursors.len() && (#[trigger] cursors[i]).buffered.len() == 0
                    && cursors[i].partition == (#[trigger] targets_of(cursors, spec, idle)[k]).1.partition
                    && cursors[i].next_offset == targets_of(cursors, spec, idle)[k].1.offset
                    && cursors[i].leader == targets_of(cursors, spec, idle)[k].0 && (
                !spec.follow ==> !cursors[i].exhausted()),
    decreases cursors.len(),
{
    if cursors.len() > 0 {
        let before = cursors.drop_last();
        only_partitions_that_are_behind_are_fetched(before, spec, idle);
        let targets = targets_of(cursors, spec, idle);
        let earlier = targets_of(before, spec, idle);
        assert forall|k: int| 0 <= k < targets.len() implies exists|i: int|
            0 <= i < cursors.len() && (#[trigger] cursors[i]).buffered.len() == 0
                && cursors[i].partition == (#[trigger] targets[k]).1.partition
                && cursors[i].next_offset == targets[k].1.offset && cursors[i].leader
                == targets[k].0 && (!spec.follow ==> !cursors[i].exhausted()) by {
            if k < earlier.len() {
                assert(targets[k] == earlier[k]);
                let i = choose|i: int|
                    0 <= i < before.len() && (#[trigger] before[i]).buffered.len() == 0
                        && before[i].partition == earlier[k].1.partition && before[i].next_offset
                        == earlier[k].1.offset && before[i].leader == earlier[k].0 && (!spec.follow
                        ==> !before[i].exhausted());
                assert(cursors[i] == before[i]);
            } else {
                assert(cursors.last() == cursors[cursors.len() - 1]);
            }
        }
    }
}

/// With as much buffered as may be, nothing is fetched.
pub proof fn at_the_ceiling_nothing_is_fetched(state: ScanView)
    requires
        state.at_ceiling(),
        state.pending.len() == 0,
    ensures
        state.begun().1 matches TurnView::Fetch(groups) ==> groups == Seq::<
            (i32, Seq<FetchTarget>),
        >::empty(),
{
}

/// One answer's part of [`the_memory_ceiling_holds`].
proof fn lemma_partition_fits(state: ScanView, fetched: FetchedView)
    requires
        state.buffered_total == total_buffered(state.cursors),
        total_buffered(state.cursors) <= state.spec.max_buffered_records,
    ensures
        ({
            let end = state.with_partition(fetched).0;
            &&& end.spec == state.spec
            &&& end.buffered_total == total_buffered(end.cursors)
            &&& total_buffered(end.cursors) <= state.spec.max_buffered_records
        }),
{
    lemma_cursor_at(state.cursors, fetched.partition);
    if let Some(at) = cursor_at(state.cursors, fetched.partition) {
        let end = state.with_partition(fetched).0;
        lemma_total_update(state.cursors, at, end.cursors[at]);
    }
}

/// The answers' part of [`the_memory_ceiling_holds`].
proof fn lemma_answers_fit(state: ScanView, fetched: Seq<FetchedView>)
    requires
        state.buffered_total == total_buffered(state.cursors),
        total_buffered(state.cursors) <= state.spec.max_buffered_records,
    ensures
        ({
            let end = state.absorbed(fetched).0;
            &&& end.spec == state.spec
            &&& end.buffered_total == total_buffered(end.cursors)
            &&& total_buffered(end.cursors) <= state.spec.max_buffered_records
        }),
    decreases fetched.len(),
{
    if fetched.len() > 0 {
        let earlier = fetched.drop_last();
        lemma_answers_fit(state, earlier);
        let (mid, read) = state.absorbed(earlier);
        if read is Ok {
            lemma_partition_fits(mid, fetched.last());
        }
    }
}

/// The memory ceiling holds: whatever happens to a scan, however many partitions
/// it has and however much an answer brings, no more outcomes are ever held at
/// once than the ceiling allows.
pub proof fn the_memory_ceiling_holds(
    spec: ScanSpec,
    cursors: Seq<CursorView>,
    actions: Seq<ScanAction>,
)
    requires
        forall|i: int| 0 <= i < cursors.len() ==> (#[trigger] cursors[i]).buffered.len() == 0,
    ensures
        ({
            let end = ran(started(spec, cursors), actions);
            &&& end.spec == spec
            &&& end.buffered_total == total_buffered(end.cursors)
            &&& total_buffered(end.cursors) <= spec.max_buffered_records
        }),
    decreases actions.len(),
{
    let start = started(spec, cursors);
    if actions.len() == 0 {
        assert forall|i: int| 0 <= i < start.cursors.len() implies (
        #[trigger] start.cursors[i]).buffered.len() == 0 by {
            assert(cursors[i].buffered.len() == 0);
        }
        lemma_total_empty(start.cursors);
    } else {
        the_memory_ceiling_holds(spec, cursors, actions.drop_last());
        let mid = ran(start, actions.drop_last());
        match actions.last() {
            ScanAction::Begin => {},
            ScanAction::Absorb(fetched) => {
                lemma_answers_fit(mid, fetched);
            },
            ScanAction::Resume(passes) => {
                lemma_earliest_head(mid.cursors);
                lemma_resumed_cursors(mid, passes);
                if let Some(at) = earliest_head(mid.cursors) {
                    lemma_total_update(mid.cursors, at, mid.popped(at).cursors[at]);
                }
            },
        }
    }
}

} // verus!
