//! What holds of every tail that is read, step by step.

use vstd::prelude::*;

use crate::read::backward::{
    bound_of, ceiling, grown_step, record_views, PartitionTail, TailAnchor, TailSpec, WalkView,
};
use crate::read::batch::{decoded, DecodedView};
use crate::read::event_laws::{accepts, a_filter_means_what_it_says, own_predicate};
use crate::read::fetch::{FetchTarget, FetchedView};
use crate::read::filter::RecordFilter;
use crate::read::record::{OutcomeView, RecordView};
use crate::read::scan::PartitionFacts;
use crate::read::scan_state::malformed_count;
use crate::read::tail::{
    decoded_for, holding, is_tail_of, may_judge_all, may_judge_answer, open_walks, opening_step,
    tail_of, total_kept, TailStep, TailView, WindowView,
};
use crate::read::tail_laws::judged_by;

verus! {

/// The verdicts on what an answer decoded to are the filter's: one for each outcome,
/// and of a record the one that the filter is documented to give.
pub proof fn the_verdicts_are_the_filters(
    filter: Option<RecordFilter>,
    answer: DecodedView,
    verdicts: Seq<bool>,
)
    requires
        !own_predicate(filter),
    ensures
        may_judge_answer(filter, Some(answer), verdicts) <==> {
            &&& verdicts.len() == answer.outcomes.len()
            &&& judged_by(accepts(filter), answer.outcomes, verdicts)
        },
{
    let outcomes = answer.outcomes;
    if may_judge_all(filter, outcomes, verdicts) {
        assert forall|i: int| 0 <= i < outcomes.len() implies ((
        #[trigger] outcomes[i]) matches OutcomeView::Decoded(record) ==> verdicts[i] == accepts(
            filter,
        )(record)) by {
            if let OutcomeView::Decoded(record) = outcomes[i] {
                a_filter_means_what_it_says(filter, record, verdicts[i]);
            }
        }
    }
    if verdicts.len() == outcomes.len() && judged_by(accepts(filter), outcomes, verdicts) {
        assert forall|i: int| 0 <= i < outcomes.len() implies ((
        #[trigger] outcomes[i]) matches OutcomeView::Decoded(record)
            ==> crate::read::filter::may_pass(filter, record, verdicts[i])) by {
            if let OutcomeView::Decoded(record) = outcomes[i] {
                a_filter_means_what_it_says(filter, record, verdicts[i]);
            }
        }
    }
}

/// What is decoded for a partition is the first part of the answer that is about it,
/// as the tail's own topic and options have it; without one there is nothing.
pub proof fn the_first_part_about_a_partition_counts(
    spec: TailSpec,
    partition: i32,
    fetched: Seq<FetchedView>,
    k: int,
)
    requires
        0 <= k <= fetched.len(),
        forall|j: int| 0 <= j < k ==> (#[trigger] fetched[j]).partition != partition,
    ensures
        k == fetched.len() ==> decoded_for(spec, partition, fetched) is None,
        k < fetched.len() && fetched[k].partition == partition ==> decoded_for(
            spec,
            partition,
            fetched,
        ) == Some(
            decoded(
                spec.topic@,
                partition,
                fetched[k].records,
                fetched[k].aborted,
                crate::read::batch::DecodeOptions {
                    max_decompressed_bytes: spec.max_decompressed_bytes,
                    visibility: spec.visibility,
                },
            ),
        ),
    decreases fetched.len(),
{
    if fetched.len() > 0 && k > 0 {
        assert(fetched[0].partition != partition);
        let rest = fetched.skip(1);
        assert forall|j: int| 0 <= j < k - 1 implies (#[trigger] rest[j]).partition != partition by {
            assert(rest[j] == fetched[j + 1]);
        }
        the_first_part_about_a_partition_counts(spec, partition, rest, k - 1);
        if k < fetched.len() {
            assert(rest[k - 1] == fetched[k]);
        }
    }
}

/// Where a walk starts from: the end of the log, or below the first record past an
/// instant, or just past an offset; never outside what the partition holds.
pub proof fn where_a_walk_starts(
    anchor: TailAnchor,
    log_start: i64,
    log_end: i64,
    at: Option<i64>,
)
    requires
        log_start <= log_end,
    ensures
        ({
            let bound = bound_of(anchor, log_start, log_end, at);
            &&& log_start <= bound <= log_end
            &&& anchor is LogEnd ==> bound == log_end
            &&& anchor is Timestamp && at is None ==> bound == log_end
            &&& anchor is Timestamp ==> (at matches Some(offset) ==> {
                &&& log_start <= offset <= log_end ==> bound == offset
                &&& offset < log_start ==> bound == log_start
                &&& offset > log_end ==> bound == log_end
            })
        }),
{
}

/// A quotient that is rounded up is the least that covers the whole.
pub proof fn what_is_rounded_up_covers(n: nat, d: nat)
    requires
        d > 0,
    ensures
        n <= ceiling(n, d) * d,
        n > 0 ==> (ceiling(n, d) - 1) * d < n,
        n == 0 ==> ceiling(n, d) == 0,
{
    let q = n / d;
    let r = n % d;
    assert(n == q * d + r && r < d) by (nonlinear_arith)
        requires
            q == n / d,
            r == n % d,
            d > 0,
    ;
    assert((q + 1) * d == q * d + d) by (nonlinear_arith);
    assert((q - 1) * d == q * d - d) by (nonlinear_arith);
    assert(n == 0 ==> q == 0) by (nonlinear_arith)
        requires
            q == n / d,
            d > 0,
    ;
}

/// The first step is the one that was asked for; else twice a partition's part of the
/// limit, rounded up, but no less than 64.
pub proof fn how_far_the_first_step_goes(spec: TailSpec, partitions: usize)
    ensures
        spec.initial_step > 0 ==> spec.step_for(partitions) == spec.initial_step,
        spec.initial_step <= 0 ==> {
            let among = if partitions == 0 {
                1nat
            } else {
                partitions as nat
            };
            let part = ceiling(spec.limit as nat, among);
            &&& 2 * part <= 64 ==> spec.step_for(partitions) == 64
            &&& 64 < 2 * part <= i32::MAX ==> spec.step_for(partitions) == 2 * part
        },
{
}

/// Every walk starts with the first step for the partitions that hold anything below
/// their anchor, held between one and the largest step.
pub proof fn how_far_the_opening_step_goes(spec: TailSpec, facts: Seq<PartitionFacts>)
    requires
        spec.max_step >= 1,
    ensures
        ({
            let step = spec.step_for(holding(spec, facts) as usize);
            &&& 1 <= opening_step(spec, facts) <= spec.max_step
            &&& 1 <= step <= spec.max_step ==> opening_step(spec, facts) == step
            &&& step > spec.max_step ==> opening_step(spec, facts) == spec.max_step
        }),
{
}

/// A partition counts if it holds anything below where its walk starts.
pub proof fn which_partitions_count(
    spec: TailSpec,
    facts: Seq<PartitionFacts>,
    known: PartitionFacts,
)
    ensures
        holding(spec, seq![]) == 0,
        holding(spec, facts.push(known)) == holding(spec, facts) + if bound_of(
            spec.anchor,
            known.earliest,
            known.latest,
            known.at_timestamp,
        ) > known.earliest {
            1nat
        } else {
            0nat
        },
{
    assert(facts.push(known).drop_last() =~= facts);
}

/// The step grows when a window held fewer records than half the offsets it spans and
/// more are wanted: eightfold when it held none, else as many times as it is sparse, twice
/// at least and eight times at most, up to the largest step. Otherwise it stays.
pub proof fn how_the_step_grows(step: i64, span: int, yielded: nat, more: bool, max_step: i64)
    requires
        1 <= step <= max_step <= i64::MAX / 8,
        1 <= span <= i64::MAX,
        yielded <= i64::MAX,
    ensures
        ({
            let next = grown_step(step, span, yielded, more, max_step);
            let sparse = yielded < span / 2;
            &&& !more || !sparse ==> next == step
            &&& more && sparse && yielded == 0 ==> next == if 8 * step > max_step {
                max_step as int
            } else {
                8 * step
            }
            &&& more && sparse && yielded > 0 ==> {
                let times = span / yielded as int;
                let scale = if times < 2 {
                    2int
                } else if times > 8 {
                    8int
                } else {
                    times
                };
                next == if step * scale > max_step {
                    max_step as int
                } else {
                    step * scale
                }
            }
        }),
{
    if more && yielded < span / 2 && yielded > 0 {
        let times = span / yielded as int;
        let scale = if times < 2 {
            2int
        } else if times > 8 {
            8int
        } else {
            times
        };
        assert(1 <= step * scale <= 8 * step) by (nonlinear_arith)
            requires
                1 <= step,
                1 <= scale <= 8,
        ;
    }
}

/// The next window ends where the walk stands and begins a step before, but not before
/// the log; there is one while fewer records are in hand than are wanted and the log goes
/// on.
pub proof fn which_window_comes_next(walk: WalkView)
    requires
        walk.step >= 1,
        0 <= walk.log_start,
    ensures
        ({
            let wanted = walk.collected.len() < walk.target && walk.window_end > walk.log_start;
            &&& walk.next_window() is Some <==> wanted
            &&& wanted ==> {
                let (start, end) = walk.next_window()->Some_0;
                &&& end == walk.window_end
                &&& walk.window_end - walk.step >= walk.log_start ==> start == walk.window_end
                    - walk.step
                &&& walk.window_end - walk.step < walk.log_start ==> start == walk.log_start
            }
        }),
{
}

/// A window's records come before those that were in hand, for they are older, and the
/// walk goes on from where the window began.
pub proof fn what_a_window_adds(
    walk: WalkView,
    start: i64,
    records: Seq<RecordView>,
    malformed: usize,
    fetches: usize,
    max_step: i64,
)
    ensures
        ({
            let after = walk.with_window(start, records, malformed, fetches, max_step);
            &&& after.collected == records + walk.collected
            &&& after.window_end == start
            &&& after.target == walk.target
            &&& after.partition == walk.partition && after.leader == walk.leader
            &&& after.log_start == walk.log_start && after.log_end == walk.log_end
            &&& walk.malformed + malformed <= usize::MAX ==> after.malformed == walk.malformed
                + malformed
            &&& walk.fetches + fetches <= usize::MAX ==> after.fetches == walk.fetches + fetches
        }),
{
}

/// What a fetch adds to a window: it is counted; an answer without a whole batch ends the
/// window; else the records in it that pass are added, those past which nothing was read
/// yet, its damage is counted, and the window goes on behind its last batch.
pub proof fn what_a_fetch_adds(
    window: WindowView,
    answer: Option<DecodedView>,
    verdicts: Seq<bool>,
)
    requires
        window.fetches < usize::MAX,
    ensures
        ({
            let after = window.with_answer(answer, verdicts);
            let last = match answer {
                Some(answer) => answer.last_offset,
                None => None,
            };
            &&& after.fetches == window.fetches + 1
            &&& after.start == window.start && after.end == window.end
            &&& last is None ==> after.over && after.records == window.records && after.malformed
                == window.malformed && after.offset == window.offset
            &&& last matches Some(last) ==> (last < i64::MAX ==> {
                let outcomes = answer->Some_0.outcomes;
                &&& after.records.len() >= window.records.len()
                &&& after.records.take(window.records.len() as int) == window.records
                &&& window.malformed + malformed_count(outcomes) <= usize::MAX ==> after.malformed
                    == window.malformed + malformed_count(outcomes)
                &&& last >= window.offset ==> after.offset == last + 1 && after.over == window.over
                &&& last < window.offset ==> after.offset == window.offset && after.over
            })
        }),
{
    if let Some(decoded) = answer {
        if let Some(last) = decoded.last_offset {
            let after = window.with_answer(answer, verdicts);
            assert(after.records.take(window.records.len() as int) =~= window.records);
        }
    }
}

/// Damage is counted batch by batch.
pub proof fn how_damage_is_counted(outcomes: Seq<OutcomeView>, outcome: OutcomeView)
    ensures
        malformed_count(seq![]) == 0,
        outcome is Malformed ==> malformed_count(outcomes.push(outcome)) == malformed_count(
            outcomes,
        ) + 1,
        outcome is Decoded ==> malformed_count(outcomes.push(outcome)) == malformed_count(outcomes),
{
    assert(outcomes.push(outcome).drop_last() =~= outcomes);
}

/// What counts towards the limit is what each walk has in hand, up to what it was asked
/// for; and a walk stays open while the log goes on below it or it has more than it was
/// asked for.
pub proof fn what_counts_towards_the_limit(walks: Seq<WalkView>, walk: WalkView)
    requires
        walks.len() < usize::MAX,
    ensures
        total_kept(seq![]) == 0,
        total_kept(walks.push(walk)) == total_kept(walks) + if walk.collected.len() < walk.target {
            walk.collected.len()
        } else {
            walk.target as nat
        },
        open_walks(seq![]).len() == 0,
        open_walks(walks.push(walk)) == if walk.window_end > walk.log_start || walk.collected.len()
            > walk.target {
            open_walks(walks).push(walks.len() as usize)
        } else {
            open_walks(walks)
        },
{
    assert(walks.push(walk).drop_last() =~= walks);
}

/// A round is dealt to the walks that are open, each a share of what is owed such that
/// they cover it together; with nothing owed, or nothing open, the tail is done.
pub proof fn how_a_round_is_dealt(tail: TailView)
    requires
        tail.wf(),
        tail.running is None,
        tail.turn == tail.round.len(),
    ensures
        ({
            let kept = total_kept(tail.walks);
            let open = open_walks(tail.walks);
            let (after, step) = tail.stepped();
            &&& kept >= tail.spec.limit || open.len() == 0 ==> step is Done && after == tail
            &&& kept < tail.spec.limit && open.len() > 0 ==> {
                &&& step is Again
                &&& after.round == open
                &&& after.turn == 0
                &&& after.walks == tail.walks
                &&& tail.spec.limit - kept <= after.share * open.len()
                &&& (after.share - 1) * open.len() < tail.spec.limit - kept
            }
        }),
{
    let kept = total_kept(tail.walks);
    let open = open_walks(tail.walks);
    if kept < tail.spec.limit && open.len() > 0 {
        let owed = (tail.spec.limit - kept) as nat;
        let share = ceiling(owed, open.len());
        what_is_rounded_up_covers(owed, open.len());
        assert(share <= owed) by (nonlinear_arith)
            requires
                (share - 1) * open.len() < owed,
                open.len() >= 1,
                owed >= 1,
        ;
    }
}

/// The walk whose turn comes in a round is asked for its share more, or for what is still
/// owed if that is less; and it runs.
pub proof fn how_a_share_is_granted(tail: TailView)
    requires
        tail.wf(),
        tail.running is None,
        tail.turn < tail.round.len() <= usize::MAX,
    ensures
        ({
            let kept = total_kept(tail.walks);
            let index = tail.round[tail.turn as int] as int;
            let (after, step) = tail.stepped();
            let owed = tail.spec.limit - kept;
            let more = if owed < tail.share {
                owed
            } else {
                tail.share as int
            };
            &&& owed <= 0 ==> step is Done && after == tail
            &&& owed > 0 ==> {
                &&& step is Again
                &&& after.running == Some(index as usize)
                &&& after.turn == tail.turn + 1
                &&& after.walks.len() == tail.walks.len()
                &&& tail.walks[index].target + more <= usize::MAX ==> after.walks[index] == (
                WalkView { target: (tail.walks[index].target + more) as usize, ..tail.walks[index] })
                &&& forall|i: int|
                    0 <= i < tail.walks.len() && i != index ==> #[trigger] after.walks[i]
                        == tail.walks[i]
            }
        }),
{
    assert(tail.round[tail.turn as int] < tail.walks.len());
}

/// What the walk that runs does: it fetches on, from the leader and the partition's own,
/// while its window is unread; then takes the window in; then opens the next, or is
/// through.
pub proof fn what_a_running_walk_does(tail: TailView, index: usize)
    requires
        tail.running == Some(index),
        index < tail.walks.len(),
    ensures
        ({
            let walk = tail.walks[index as int];
            let (after, step) = tail.stepped();
            &&& tail.window matches Some(window) ==> {
                let unread = !window.over && window.offset < window.end;
                &&& unread ==> after == tail && step == (TailStep::Fetch {
                    leader: walk.leader,
                    target: FetchTarget {
                        partition: walk.partition,
                        offset: window.offset,
                        max_bytes: tail.spec.partition_max_bytes,
                    },
                })
                &&& !unread ==> step is Again && after.window is None && after.running
                    == tail.running && after.walks == tail.walks.update(
                    index as int,
                    walk.with_window(
                        window.start,
                        window.records,
                        window.malformed,
                        window.fetches,
                        tail.spec.max_step,
                    ),
                )
            }
            &&& tail.window is None ==> step is Again && after.walks == tail.walks
            &&& tail.window is None && walk.next_window() is None ==> after.running is None
            &&& tail.window is None ==> (walk.next_window() matches Some(next) ==> {
                &&& after.running == tail.running
                &&& after.window matches Some(window) && {
                    &&& window.start == next.0
                    &&& window.end == next.1
                    &&& window.offset == next.0
                    &&& window.records.len() == 0
                    &&& window.malformed == 0
                    &&& window.fetches == 0
                    &&& !window.over
                }
            })
        }),
{
}

/// A tail starts out with a walk for every partition, in their order, each with nothing in
/// hand and nothing asked of it.
pub proof fn how_a_tail_starts_out(spec: TailSpec, facts: Seq<PartitionFacts>, i: int)
    requires
        0 <= i < facts.len(),
    ensures
        ({
            let tail = tail_of(spec, facts);
            let walk = tail.walks[i];
            &&& tail.spec == spec
            &&& tail.walks.len() == facts.len()
            &&& tail.round.len() == 0
            &&& tail.running is None
            &&& tail.window is None
            &&& walk.partition == facts[i].partition
            &&& walk.leader == facts[i].leader
            &&& walk.log_start == facts[i].earliest
            &&& walk.log_end == facts[i].latest
            &&& walk.window_end == bound_of(
                spec.anchor,
                facts[i].earliest,
                facts[i].latest,
                facts[i].at_timestamp,
            )
            &&& walk.step == opening_step(spec, facts)
            &&& walk.collected.len() == 0
            &&& walk.malformed == 0
            &&& walk.fetches == 0
            &&& walk.target == 0
        }),
{
}

/// What a walk returns: the newest of its records, as many as were asked of it, and what
/// it met on the way; and that it reached its log's start just when it read down to there
/// and gave back all it found.
pub proof fn what_a_walk_returns(returned: PartitionTail, walk: WalkView)
    requires
        is_tail_of(returned, walk),
    ensures
        ({
            let records = record_views(returned.records@);
            let n = walk.collected.len() as int;
            &&& returned.partition == walk.partition
            &&& returned.malformed == walk.malformed
            &&& returned.fetches == walk.fetches
            &&& returned.log_start == walk.log_start
            &&& returned.log_end == walk.log_end
            &&& n <= walk.target ==> records == walk.collected
            &&& n > walk.target ==> records == walk.collected.skip(n - walk.target)
            &&& !walk.trimmed ==> (returned.reached_log_start <==> walk.window_end
                <= walk.log_start && n <= walk.target)
        }),
{
}

/// An answer is that of the walk that runs, and goes into its window; without one it
/// changes nothing.
pub proof fn whose_answer_is_taken(
    tail: TailView,
    fetched: Seq<FetchedView>,
    answer: Option<DecodedView>,
    verdicts: Seq<bool>,
)
    ensures
        tail.running matches Some(index) ==> tail.answer(fetched) == decoded_for(
            tail.spec,
            tail.walks[index as int].partition,
            fetched,
        ),
        tail.running is None ==> tail.answer(fetched) is None,
        tail.window is None ==> tail.answered(answer, verdicts) == tail,
        tail.window matches Some(window) ==> tail.answered(answer, verdicts) == (TailView {
            window: Some(window.with_answer(answer, verdicts)),
            ..tail
        }),
{
}

} // verus!
