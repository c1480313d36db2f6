//! What holds of every cursor of a forward scan.

use vstd::prelude::*;

use crate::error::ErrorView;
use crate::keyed::grouped;
use crate::read::batch::{decoded, DecodeOptions, DecodedView, Visibility};
use crate::read::event_laws::through;
use crate::read::fetch::{FetchTarget, FetchedView};
use crate::read::record::OutcomeView;
use crate::read::scan::{window_of, CursorView, ScanSpec};
use crate::read::scan_state::{
    active, filled, kept, lemma_cursor_at, malformed_count, moved, targets_of, total_buffered,
    wanted, window_end, ScanView, TurnView,
};

verus! {

/// What an answer of a log does to where a partition stands: it does not stay before the
/// log's start; and where the scan follows the log its end moves on with the log's, up to
/// the last stable offset where only what is committed is read.
pub proof fn how_an_answer_moves_a_cursor(cursor: CursorView, fetched: FetchedView, spec: ScanSpec)
    ensures
        ({
            let after = moved(cursor, fetched, spec);
            let end = if spec.visibility == Visibility::CommittedOnly {
                fetched.last_stable_offset
            } else {
                fetched.high_watermark
            };
            &&& fetched.log_start_offset > cursor.next_offset ==> after.next_offset
                == fetched.log_start_offset
            &&& fetched.log_start_offset <= cursor.next_offset ==> after.next_offset
                == cursor.next_offset
            &&& !spec.follow ==> after.end_offset == cursor.end_offset
            &&& spec.follow && end >= 0 && end > cursor.end_offset ==> after.end_offset == end
            &&& spec.follow && (end < 0 || end <= cursor.end_offset) ==> after.end_offset
                == cursor.end_offset
            &&& after.buffered == cursor.buffered && after.finished == cursor.finished
            &&& after.partition == cursor.partition && after.leader == cursor.leader
            &&& after.start_offset == cursor.start_offset
        }),
{
}

/// What a partition takes of an answer that holds whole batches: what it wants of them, as
/// far as there is room, and in order. With room for all of it the partition goes on
/// behind the last batch, and in any case further on; without, behind what it took. A browse
/// does not go past its end.
pub proof fn what_a_partition_takes(
    from: i64,
    cursor: CursorView,
    answer: DecodedView,
    spec: ScanSpec,
    most: nat,
    last: i64,
)
    requires
        answer.last_offset == Some(last),
        last < i64::MAX,
        cursor.next_offset < i64::MAX,
    ensures
        filled(from, cursor, answer, spec, most) matches Ok(after) && {
            let to = if spec.follow {
                None
            } else {
                Some(cursor.end_offset)
            };
            let found = kept(from, to, answer.outcomes);
            let behind = if last >= cursor.next_offset {
                last + 1
            } else {
                cursor.next_offset + 1
            };
            &&& after.end_offset == cursor.end_offset && after.finished == cursor.finished
            &&& after.partition == cursor.partition && after.leader == cursor.leader
            &&& found.len() <= most ==> after.buffered == cursor.buffered + found
            &&& found.len() <= most && (spec.follow || behind <= cursor.end_offset)
                ==> after.next_offset == behind
            &&& found.len() <= most && !spec.follow && cursor.next_offset <= cursor.end_offset
                < behind ==> after.next_offset == cursor.end_offset
            &&& found.len() > most ==> after.buffered == cursor.buffered + found.take(most as int)
            &&& found.len() > most && most == 0 ==> after == cursor
            &&& found.len() > most && most > 0 ==> {
                let taken = found[most - 1].last_offset();
                &&& taken < cursor.next_offset ==> after.next_offset == cursor.next_offset
                &&& cursor.next_offset <= taken < i64::MAX && (spec.follow || taken
                    < cursor.end_offset) ==> after.next_offset == taken + 1
            }
        },
{
    let found = kept(from, window_end(cursor, spec.follow), answer.outcomes);
    if found.len() > most && most > 0 {
        assert(found.take(most as int).last() == found[most - 1]);
    }
    if found.len() > most && most == 0 {
        assert(cursor.buffered + found.take(0) =~= cursor.buffered);
    }
}

/// An answer without a whole batch ends a browse of the partition, and leaves a tail
/// waiting; but if one was cut off, not even the first fitted, and that is an error that
/// says so.
pub proof fn what_an_empty_answer_means(
    from: i64,
    cursor: CursorView,
    answer: DecodedView,
    spec: ScanSpec,
    most: nat,
)
    requires
        answer.last_offset is None,
    ensures
        !answer.truncated_tail ==> filled(from, cursor, answer, spec, most) == Ok::<
            CursorView,
            ErrorView,
        >(CursorView { finished: !spec.follow, ..cursor }),
        answer.truncated_tail ==> (filled(from, cursor, answer, spec, most) matches Err(error)
            && error.kind is Unsupported && !error.retriable && !error.needs_metadata_refresh),
{
}

/// What a scan keeps of some outcomes, in order.
pub proof fn which_outcomes_are_kept(
    from: i64,
    to: Option<i64>,
    outcomes: Seq<OutcomeView>,
    outcome: OutcomeView,
)
    ensures
        kept(from, to, seq![]).len() == 0,
        kept(from, to, outcomes.push(outcome)) == if wanted(from, to, outcome) {
            kept(from, to, outcomes).push(outcome)
        } else {
            kept(from, to, outcomes)
        },
{
    assert(outcomes.push(outcome).drop_last() =~= outcomes);
}

/// What is taken in of a partition that is scanned: its cursor is moved and filled, with no more than an even share of the ceiling, what it took is
/// added to the total, and the damage in it is counted.
pub proof fn what_is_taken_in(state: ScanView, fetched: FetchedView, at: int)
    requires
        0 <= at < state.cursors.len(),
        state.cursors[at].partition == fetched.partition,
        forall|i: int| 0 <= i < at ==> (#[trigger] state.cursors[i]).partition != fetched.partition,
    ensures
        ({
            let cursor = state.cursors[at];
            let answer = decoded(
                state.spec.topic@,
                fetched.partition,
                fetched.records,
                fetched.aborted,
                DecodeOptions {
                    max_decompressed_bytes: state.spec.max_decompressed_bytes,
                    visibility: state.spec.visibility,
                },
            );
            let (after, read) = state.with_partition(fetched);
            let moved_cursor = moved(cursor, fetched, state.spec);
            match filled(cursor.next_offset, moved_cursor, answer, state.spec, state.share()) {
                Ok(full) => {
                    let added = full.buffered.skip(cursor.buffered.len() as int);
                    &&& after.cursors == state.cursors.update(at, full)
                    &&& read == Ok::<bool, ErrorView>(answer.outcomes.len() > 0)
                    &&& state.progress.malformed_batches + malformed_count(added) <= u64::MAX
                        ==> after.progress.malformed_batches == state.progress.malformed_batches
                        + malformed_count(added)
                    &&& full.buffered.len() >= cursor.buffered.len() && state.buffered_total
                        + added.len() <= u128::MAX ==> after.buffered_total == state.buffered_total
                        + added.len()
                },
                Err(error) => {
                    &&& after.cursors == state.cursors.update(at, moved_cursor)
                    &&& read == Err::<bool, ErrorView>(error)
                    &&& after.buffered_total == state.buffered_total
                },
            }
        }),
{
    lemma_cursor_at(state.cursors, fetched.partition);
}

/// Of a partition that is not scanned nothing is taken in.
pub proof fn what_is_not_scanned_is_not_taken_in(state: ScanView, fetched: FetchedView)
    requires
        forall|i: int|
            0 <= i < state.cursors.len() ==> (#[trigger] state.cursors[i]).partition
                != fetched.partition,
    ensures
        state.with_partition(fetched) == (state, Ok::<bool, ErrorView>(false)),
{
    lemma_cursor_at(state.cursors, fetched.partition);
}

/// A share of the ceiling is even among the partitions that are not through, one at
/// least, and no more than there is room for.
pub proof fn how_the_ceiling_is_shared(state: ScanView)
    requires
        state.buffered_total <= state.spec.max_buffered_records,
    ensures
        ({
            let room = state.spec.max_buffered_records - state.buffered_total;
            let n = active(state.cursors);
            let even = if n <= 1 {
                state.spec.max_buffered_records as nat
            } else {
                state.spec.max_buffered_records as nat / n
            };
            &&& state.share() <= room
            &&& even >= 1 && even <= room ==> state.share() == even
            &&& even > room ==> state.share() == room
            &&& even == 0 && room >= 1 ==> state.share() == 1
        }),
{
}

/// Partitions are active until they are through.
pub proof fn which_partitions_are_active(cursors: Seq<CursorView>, cursor: CursorView)
    ensures
        active(seq![]) == 0,
        active(cursors.push(cursor)) == active(cursors) + if through(cursor) {
            0nat
        } else {
            1nat
        },
        total_buffered(seq![]) == 0,
        total_buffered(cursors.push(cursor)) == total_buffered(cursors) + cursor.buffered.len(),
{
    assert(cursors.push(cursor).drop_last() =~= cursors);
}

/// A partition is fetched, from where it stands and from its leader, if it has nothing
/// buffered and has more to read; in a tail also if nothing at all is buffered.
pub proof fn which_partitions_are_fetched(
    cursors: Seq<CursorView>,
    cursor: CursorView,
    spec: ScanSpec,
    idle: bool,
)
    ensures
        targets_of(seq![], spec, idle).len() == 0,
        ({
            let behind = !cursor.finished && cursor.next_offset < cursor.end_offset;
            let fetched = cursor.buffered.len() == 0 && (behind || (spec.follow && idle));
            &&& fetched ==> targets_of(cursors.push(cursor), spec, idle) == targets_of(
                cursors,
                spec,
                idle,
            ).push(
                (
                    cursor.leader,
                    FetchTarget {
                        partition: cursor.partition,
                        offset: cursor.next_offset,
                        max_bytes: spec.partition_max_bytes,
                    },
                ),
            )
            &&& !fetched ==> targets_of(cursors.push(cursor), spec, idle) == targets_of(
                cursors,
                spec,
                idle,
            )
        }),
{
    assert(cursors.push(cursor).drop_last() =~= cursors);
}

/// What the first half of a turn fetches: what is wanted, leader by leader, unless the
/// buffer is full; then the order may suffer, by the budget over the partitions that are
/// merged.
pub proof fn what_a_turn_fetches(state: ScanView)
    requires
        state.pending.len() == 0,
        !state.done,
        state.spec.limit matches Some(limit) ==> state.progress.records_emitted < limit,
    ensures
        ({
            let full = state.buffered_total >= state.spec.max_buffered_records;
            let (after, turn) = state.begun();
            let window = window_of(state.spec.max_buffered_records, active(state.cursors));
            &&& full ==> (turn matches TurnView::Fetch(targets) && targets.len() == 0)
            &&& full ==> after.progress.reorder_window == if window
                > state.progress.reorder_window {
                window
            } else {
                state.progress.reorder_window
            }
            &&& !full ==> after == state && turn == TurnView::Fetch(
                grouped(targets_of(state.cursors, state.spec, state.buffered_total == 0)),
            )
            &&& after.cursors == state.cursors
        }),
{
}

/// A leader's answer is taken in partition by partition, in order; the first that fails
/// ends it, and something was read if anything was of any.
pub proof fn how_an_answer_is_taken_in(
    state: ScanView,
    fetched: Seq<FetchedView>,
    part: FetchedView,
)
    ensures
        state.absorbed(seq![]) == (state, Ok::<bool, ErrorView>(false)),
        ({
            let (before, read) = state.absorbed(fetched);
            let (after, more) = before.with_partition(part);
            let (end, result) = state.absorbed(fetched.push(part));
            &&& read is Err ==> end == before && result == read
            &&& read is Ok ==> end == after
            &&& read is Ok && more is Err ==> result == more
            &&& read is Ok && more is Ok ==> result == Ok::<bool, ErrorView>(
                read->Ok_0 || more->Ok_0,
            )
        }),
{
    assert(fetched.push(part).drop_last() =~= fetched);
}

} // verus!
