//! What holds of every read of a tail.

use vstd::prelude::*;

use crate::read::backward::{
    bound_of, record_views, trimming_keeps_the_newest, PartitionTail, TailSpec, WalkView,
};
use crate::read::batch::DecodedView;
use crate::read::log::{
    all_below, ascends, between, lemma_between, lemma_between_again, lemma_between_joined,
    lemma_between_suffix, lemma_nothing_between, lemma_told, records_of, tells,
};
use crate::read::record::{OutcomeView, RecordView};
use crate::read::scan::PartitionFacts;
use crate::read::tail::{
    inside, is_tail_of, lemma_kept_is_promised, lemma_open_walks, lemma_sums_update,
    lemma_taking_keeps_the_step, lesser, open_walks, settled, tail_of, total_kept, total_promised,
    TailStep, TailView, WindowView,
};

verus! {

/// How many records the tails hold together once each walk is trimmed to its
/// share.
pub open spec fn total_returned(walks: Seq<WalkView>) -> nat
    decreases walks.len(),
{
    if walks.len() == 0 {
        0
    } else {
        total_returned(walks.drop_last()) + walks.last().trimmed_to_target().collected.len()
    }
}

/// What is returned is what counts towards the limit.
proof fn lemma_returned_is_kept(walks: Seq<WalkView>)
    ensures
        total_returned(walks) == total_kept(walks),
    decreases walks.len(),
{
    if walks.len() > 0 {
        lemma_returned_is_kept(walks.drop_last());
        trimming_keeps_the_newest(walks.last());
    }
}

/// `limit` means "up to this many, if the topic has them": never more are
/// returned, and when fewer are, every walk has examined everything down to its
/// log start and nothing was set aside.
pub proof fn the_limit_is_met_if_the_topic_holds_it(tail: TailView)
    requires
        tail.wf(),
    ensures
        total_returned(tail.walks) <= tail.spec.limit,
        tail.stepped().1 == TailStep::Done && total_returned(tail.walks) < tail.spec.limit
            ==> forall|i: int|
            0 <= i < tail.walks.len() ==> !(#[trigger] tail.walks[i]).has_more()
                && tail.walks[i].trimmed_to_target() == tail.walks[i],
{
    lemma_returned_is_kept(tail.walks);
    lemma_kept_is_promised(tail.walks);
    lemma_open_walks(tail.walks);
    if tail.stepped().1 == TailStep::Done && total_returned(tail.walks) < tail.spec.limit {
        assert forall|i: int| 0 <= i < tail.walks.len() implies !(#[trigger] tail.walks[i]).has_more()
            && tail.walks[i].trimmed_to_target() == tail.walks[i] by {
            assert(!tail.walks[i].can_yield_more());
        }
    }
}

/// Replacing a walk that could yield more by one that could not takes it out of
/// the open ones; by one that could, leaves their number.
proof fn lemma_open_update(walks: Seq<WalkView>, at: int, walk: WalkView)
    requires
        0 <= at < walks.len(),
        walks[at].can_yield_more(),
    ensures
        open_walks(walks.update(at, walk)).len() == open_walks(walks).len() - if walk.can_yield_more() {
            0int
        } else {
            1int
        },
    decreases walks.len(),
{
    let after = walks.update(at, walk);
    if at == walks.len() - 1 {
        assert(after.drop_last() =~= walks.drop_last());
    } else {
        lemma_open_update(walks.drop_last(), at, walk);
        assert(after.drop_last() =~= walks.drop_last().update(at, walk));
    }
}

/// How many walks could yield more.
pub open spec fn open_count(tail: TailView) -> nat {
    open_walks(tail.walks).len()
}

/// How many records were not yet asked of any walk.
pub open spec fn owed(tail: TailView) -> int {
    tail.spec.limit - total_promised(tail.walks)
}

/// How much there is left to do for the walk whose turn it is, or until the
/// next one's.
pub open spec fn stage(tail: TailView) -> int {
    match tail.running {
        Some(index) => {
            let walk = tail.walks[index as int];
            let left = if walk.has_more() {
                walk.window_end - walk.log_start
            } else {
                0
            };
            2 * left + 2 + if tail.window is None {
                1int
            } else {
                0int
            }
        },
        None => if tail.turn < tail.round.len() {
            0
        } else {
            1
        },
    }
}

/// How many offsets of the window are left to fetch.
pub open spec fn unread(tail: TailView) -> int {
    match tail.window {
        Some(window) => if window.unread() {
            window.end - window.offset
        } else {
            0
        },
        None => 0,
    }
}

/// Reading a tail comes to an end: every step without a fetch leaves fewer
/// walks that could yield more, or fewer records to ask for, or less to do for
/// the walk whose turn it is.
pub proof fn every_step_gets_nearer_the_end(tail: TailView)
    requires
        tail.wf(),
        tail.stepped().1 == TailStep::Again,
    ensures
        open_count(tail) >= 0 && owed(tail) >= 0 && stage(tail) >= 0,
        ({
            let after = tail.stepped().0;
            ||| open_count(after) < open_count(tail)
            ||| open_count(after) == open_count(tail) && 0 <= owed(after) < owed(tail)
            ||| open_count(after) == open_count(tail) && owed(after) == owed(tail) && 0 <= stage(after)
                < stage(tail)
        }),
{
    let after = tail.stepped().0;
    match tail.running {
        Some(index) => {
            let at = index as int;
            let walk = tail.walks[at];
            match tail.window {
                Some(window) => {
                    let taken = walk.with_window(
                        window.start,
                        window.records,
                        window.malformed,
                        window.fetches,
                        tail.spec.max_step,
                    );
                    lemma_open_update(tail.walks, at, taken);
                    lemma_sums_update(tail.walks, at, taken);
                },
                None => {},
            }
        },
        None => {
            if tail.turn < tail.round.len() {
                let index = tail.round[tail.turn as int];
                let at = index as int;
                let walk = tail.walks[at];
                lemma_kept_is_promised(tail.walks);
                lemma_open_update(tail.walks, at, after.walks[at]);
                lemma_sums_update(tail.walks, at, after.walks[at]);
                assert(settled(walk));
            } else {
                lemma_open_walks(tail.walks);
            }
        },
    }
}

/// And so does every fetch: whatever the answer, fewer offsets of the window
/// are left to fetch, a next fetch of it asks for a later one, and nothing else
/// changed.
pub proof fn every_fetch_gets_nearer_the_end(
    tail: TailView,
    answer: Option<DecodedView>,
    verdicts: Seq<bool>,
)
    requires
        tail.wf(),
        tail.stepped().1 is Fetch,
    ensures
        0 <= unread(tail.answered(answer, verdicts)) < unread(tail),
        tail.answered(answer, verdicts).stepped().1 matches TailStep::Fetch { target, .. }
            ==> target.offset > tail.stepped().1->target.offset,
        tail.answered(answer, verdicts).walks == tail.walks,
        stage(tail.answered(answer, verdicts)) == stage(tail),
{
}

/// A fetch is for the partition whose turn it is, and never starts outside the
/// window, which lies inside the log.
pub proof fn fetches_stay_inside_the_log(tail: TailView)
    requires
        tail.wf(),
    ensures
        tail.stepped().1 matches TailStep::Fetch { leader, target } ==> exists|i: int|
            0 <= i < tail.walks.len() && (#[trigger] tail.walks[i]).leader == leader
                && tail.walks[i].partition == target.partition && tail.walks[i].log_start
                <= target.offset < tail.walks[i].window_end,
{
    if let TailStep::Fetch { leader, target } = tail.stepped().1 {
        let index = tail.running->Some_0;
        assert(tail.walks[index as int].leader == leader);
    }
}

/// Whether every record of a walk lies between what is still to be read and a
/// bound.
pub open spec fn lies_below(walk: WalkView, bound: i64) -> bool {
    &&& walk.window_end <= bound
    &&& forall|k: int|
        0 <= k < walk.collected.len() ==> walk.window_end <= (#[trigger] walk.collected[k]).offset
            < bound
}

/// Whether every walk's records lie between what is still to be read and its
/// bound, and those of the window being read inside it.
pub open spec fn all_lie_below(tail: TailView, bounds: Seq<i64>) -> bool {
    &&& bounds.len() == tail.walks.len()
    &&& forall|i: int| 0 <= i < tail.walks.len() ==> lies_below(#[trigger] tail.walks[i], bounds[i])
    &&& tail.window matches Some(window) ==> forall|k: int|
        0 <= k < window.records.len() ==> window.start <= (#[trigger] window.records[k]).offset
            < window.end
}

/// A walk that has not begun lies below the bound its anchor resolved to.
pub proof fn a_new_tail_lies_below_its_anchor(spec: TailSpec, facts: Seq<PartitionFacts>)
    ensures
        all_lie_below(
            tail_of(spec, facts),
            facts.map_values(
                |known: PartitionFacts|
                    bound_of(spec.anchor, known.earliest, known.latest, known.at_timestamp),
            ),
        ),
{
}

/// What is found inside a window lies inside it.
proof fn lemma_inside(start: i64, end: i64, outcomes: Seq<OutcomeView>, verdicts: Seq<bool>)
    ensures
        forall|k: int|
            0 <= k < inside(start, end, outcomes, verdicts).len() ==> start <= (#[trigger] inside(
                start,
                end,
                outcomes,
                verdicts,
            )[k]).offset < end,
    decreases outcomes.len(),
{
    if outcomes.len() > 0 {
        lemma_inside(start, end, outcomes.drop_last(), verdicts);
    }
}

/// No record above the anchor is ever collected, and windows never overlap:
/// what is collected lies above everything that is still to be read, and below
/// the bound that the anchor resolved to.
pub proof fn nothing_lies_above_the_anchor(
    tail: TailView,
    bounds: Seq<i64>,
    answer: Option<DecodedView>,
    verdicts: Seq<bool>,
)
    requires
        tail.wf(),
        all_lie_below(tail, bounds),
    ensures
        all_lie_below(tail.stepped().0, bounds),
        all_lie_below(tail.answered(answer, verdicts), bounds),
{
    let after = tail.stepped().0;
    assert forall|i: int| 0 <= i < after.walks.len() implies lies_below(
        #[trigger] after.walks[i],
        bounds[i],
    ) by {
        let walk = tail.walks[i];
        assert(lies_below(walk, bounds[i]));
        if tail.running == Some(i as usize) {
            if let Some(window) = tail.window {
                if !window.unread() {
                    let records = window.records;
                    assert forall|k: int| 0 <= k < after.walks[i].collected.len() implies window.start <= (
                    #[trigger] after.walks[i].collected[k]).offset < bounds[i] by {
                        if k < records.len() {
                            assert(after.walks[i].collected[k] == records[k]);
                        } else {
                            assert(after.walks[i].collected[k] == walk.collected[k
                                - records.len()]);
                        }
                    }
                }
            }
        }
    }
    if let Some(window) = tail.window {
        let read = window.with_answer(answer, verdicts);
        assert forall|k: int| 0 <= k < read.records.len() implies read.start <= (
        #[trigger] read.records[k]).offset < read.end by {
            if k < window.records.len() {
                assert(read.records[k] == window.records[k]);
            } else {
                let outcomes = answer->Some_0.outcomes;
                lemma_inside(window.offset, window.end, outcomes, verdicts);
                assert(read.records[k] == inside(window.offset, window.end, outcomes, verdicts)[k
                    - window.records.len()]);
            }
        }
    }
}

/// What happens to the read of a tail.
pub enum TailAction {
    /// A step is taken.
    Step,
    /// The fetch that was asked for is answered: what it decodes to, and the
    /// filter's verdicts on that.
    Answer(DecodedView, Seq<bool>),
}

/// The state after an action.
pub open spec fn after(tail: TailView, action: TailAction) -> TailView {
    match action {
        TailAction::Step => tail.stepped().0,
        TailAction::Answer(answer, verdicts) => tail.answered(Some(answer), verdicts),
    }
}

/// The state after some actions.
pub open spec fn ran(tail: TailView, actions: Seq<TailAction>) -> TailView
    decreases actions.len(),
{
    if actions.len() == 0 {
        tail
    } else {
        after(ran(tail, actions.drop_last()), actions.last())
    }
}

/// Whether verdicts on some outcomes are those that a rule gives.
pub open spec fn judged_by(
    accepts: spec_fn(RecordView) -> bool,
    outcomes: Seq<OutcomeView>,
    verdicts: Seq<bool>,
) -> bool {
    forall|i: int|
        0 <= i < outcomes.len() ==> ((#[trigger] outcomes[i]) matches OutcomeView::Decoded(record)
            ==> verdicts[i] == accepts(record))
}

/// Whether an action is true to the partitions' logs: an answer comes to a
/// fetch that was asked for, tells what the log of its partition holds, and is
/// judged by the rule.
pub open spec fn is_true_to(
    logs: Seq<Seq<RecordView>>,
    accepts: spec_fn(RecordView) -> bool,
    tail: TailView,
    action: TailAction,
) -> bool {
    match action {
        TailAction::Step => true,
        TailAction::Answer(answer, verdicts) => {
            &&& tail.stepped().1 is Fetch
            &&& tells(logs[tail.running->Some_0 as int], tail.window->Some_0.offset, answer)
            &&& judged_by(accepts, answer.outcomes, verdicts)
        },
    }
}

/// Whether every action is true to the partitions' logs.
pub open spec fn are_true_to(
    logs: Seq<Seq<RecordView>>,
    accepts: spec_fn(RecordView) -> bool,
    tail: TailView,
    actions: Seq<TailAction>,
) -> bool
    decreases actions.len(),
{
    actions.len() > 0 ==> {
        &&& are_true_to(logs, accepts, tail, actions.drop_last())
        &&& is_true_to(logs, accepts, ran(tail, actions.drop_last()), actions.last())
    }
}

/// How far a window was read.
pub open spec fn window_reach(window: WindowView) -> int {
    if window.over || window.offset > window.end {
        window.end as int
    } else {
        window.offset as int
    }
}

/// The exclusive upper bound of a partition's tail.
pub open spec fn bound_for(spec: TailSpec, known: PartitionFacts) -> i64 {
    bound_of(spec.anchor, known.earliest, known.latest, known.at_timestamp)
}

/// Whether a walk collected just what its log holds between what is still to be
/// read and its bound; nothing, and at no cost, where it has not begun.
pub open spec fn walk_holds(
    log: Seq<RecordView>,
    accepts: spec_fn(RecordView) -> bool,
    walk: WalkView,
    known: PartitionFacts,
    spec: TailSpec,
) -> bool {
    let bound = bound_for(spec, known);
    &&& 1 <= walk.step <= spec.max_step
    &&& walk.log_start == known.earliest
    &&& walk.log_end == known.latest
    &&& !walk.trimmed
    &&& walk.window_end == bound && walk.fetches == 0 || known.earliest <= walk.window_end < bound
    &&& walk.collected == between(log, walk.window_end as int, bound as int, accepts)
}

/// Whether a window that is being read is the next one of its walk, and holds
/// just what the log does as far as it was read.
pub open spec fn window_holds(
    log: Seq<RecordView>,
    accepts: spec_fn(RecordView) -> bool,
    walk: WalkView,
    window: WindowView,
) -> bool {
    &&& walk.log_start <= window.start < window.end
    &&& window.end == walk.window_end
    &&& window.start <= window.offset
    &&& window.records == between(log, window.start as int, window_reach(window), accepts)
}

/// Whether every walk, and the window that is being read, hold just what the
/// logs do.
pub open spec fn tail_holds(
    logs: Seq<Seq<RecordView>>,
    accepts: spec_fn(RecordView) -> bool,
    facts: Seq<PartitionFacts>,
    tail: TailView,
) -> bool {
    &&& tail.walks.len() == logs.len()
    &&& tail.walks.len() == facts.len()
    &&& tail.walks.len() <= usize::MAX
    &&& forall|i: int|
        0 <= i < tail.walks.len() ==> walk_holds(
            logs[i],
            accepts,
            #[trigger] tail.walks[i],
            facts[i],
            tail.spec,
        )
    &&& forall|k: int| 0 <= k < tail.round.len() ==> (#[trigger] tail.round[k]) < tail.walks.len()
    &&& tail.running matches Some(index) ==> index < tail.walks.len()
    &&& tail.window matches Some(window) ==> {
        &&& tail.running matches Some(index)
        &&& window_holds(logs[index as int], accepts, tail.walks[index as int], window)
    }
}

/// What lies inside a window by the verdicts is what lies there by the rule.
proof fn lemma_inside_is_between(
    from: i64,
    to: i64,
    outcomes: Seq<OutcomeView>,
    verdicts: Seq<bool>,
    accepts: spec_fn(RecordView) -> bool,
)
    requires
        judged_by(accepts, outcomes, verdicts),
    ensures
        inside(from, to, outcomes, verdicts) == between(
            records_of(outcomes),
            from as int,
            to as int,
            accepts,
        ),
    decreases outcomes.len(),
{
    if outcomes.len() > 0 {
        let earlier = outcomes.drop_last();
        assert forall|i: int| 0 <= i < earlier.len() implies ((#[trigger] earlier[i]) matches OutcomeView::Decoded(
            record,
        ) ==> verdicts[i] == accepts(record)) by {
            assert(earlier[i] == outcomes[i]);
        }
        lemma_inside_is_between(from, to, earlier, verdicts, accepts);
        assert(outcomes.last() == outcomes[outcomes.len() - 1]);
        if let OutcomeView::Decoded(record) = outcomes.last() {
            let before = records_of(earlier);
            assert(before.push(record).drop_last() =~= before);
        }
    }
}

/// A window that takes in an answer still holds just what the log does.
proof fn lemma_window_holds(
    log: Seq<RecordView>,
    accepts: spec_fn(RecordView) -> bool,
    walk: WalkView,
    window: WindowView,
    answer: DecodedView,
    verdicts: Seq<bool>,
)
    requires
        ascends(log),
        window_holds(log, accepts, walk, window),
        window.unread(),
        tells(log, window.offset, answer),
        judged_by(accepts, answer.outcomes, verdicts),
    ensures
        window_holds(log, accepts, walk, window.with_answer(Some(answer), verdicts)),
{
    let read = window.with_answer(Some(answer), verdicts);
    let from = window.offset as int;
    match answer.last_offset {
        None => {
            lemma_between_again(log, from, i64::MAX + 1, window.end as int, accepts);
            lemma_between_joined(log, window.start as int, from, window.end as int, accepts);
        },
        Some(last) => {
            lemma_inside_is_between(window.offset, window.end, answer.outcomes, verdicts, accepts);
            lemma_told(log, window.offset, answer, window.end as int, accepts);
            lemma_between_joined(log, window.start as int, from, window_reach(read), accepts);
        },
    }
}

/// Every action that is true to the logs leaves the walks holding just what the
/// logs do.
proof fn lemma_tail_holds(
    logs: Seq<Seq<RecordView>>,
    accepts: spec_fn(RecordView) -> bool,
    facts: Seq<PartitionFacts>,
    tail: TailView,
    action: TailAction,
)
    requires
        forall|i: int| 0 <= i < logs.len() ==> ascends(#[trigger] logs[i]),
        tail_holds(logs, accepts, facts, tail),
        is_true_to(logs, accepts, tail, action),
    ensures
        tail_holds(logs, accepts, facts, after(tail, action)),
        after(tail, action).spec == tail.spec,
{
    match action {
        TailAction::Answer(answer, verdicts) => {
            let at = tail.running->Some_0 as int;
            assert(ascends(logs[at]));
            lemma_window_holds(
                logs[at],
                accepts,
                tail.walks[at],
                tail.window->Some_0,
                answer,
                verdicts,
            );
        },
        TailAction::Step => {
            lemma_open_walks(tail.walks);
            let end = tail.stepped().0;
            if let Some(index) = tail.running {
                let at = index as int;
                let walk = tail.walks[at];
                assert(ascends(logs[at]));
                assert(walk_holds(logs[at], accepts, walk, facts[at], tail.spec));
                match tail.window {
                    Some(window) => {
                        lemma_taking_keeps_the_step(walk, window, tail.spec.max_step);
                        lemma_between_joined(
                            logs[at],
                            window.start as int,
                            window.end as int,
                            bound_for(tail.spec, facts[at]) as int,
                            accepts,
                        );
                    },
                    None => if let Some((start, end)) = walk.next_window() {
                        lemma_nothing_between(logs[at], start as int, start as int, accepts);
                    },
                }
            }
            assert forall|i: int| 0 <= i < end.walks.len() implies walk_holds(
                logs[i],
                accepts,
                #[trigger] end.walks[i],
                facts[i],
                tail.spec,
            ) by {
                assert(walk_holds(logs[i], accepts, tail.walks[i], facts[i], tail.spec));
            }
        },
    }
}

/// Any actions that are true to the logs leave the walks holding just what the
/// logs do.
proof fn lemma_ran_holds(
    logs: Seq<Seq<RecordView>>,
    accepts: spec_fn(RecordView) -> bool,
    facts: Seq<PartitionFacts>,
    tail: TailView,
    actions: Seq<TailAction>,
)
    requires
        forall|i: int| 0 <= i < logs.len() ==> ascends(#[trigger] logs[i]),
        tail_holds(logs, accepts, facts, tail),
        are_true_to(logs, accepts, tail, actions),
    ensures
        tail_holds(logs, accepts, facts, ran(tail, actions)),
        ran(tail, actions).spec == tail.spec,
    decreases actions.len(),
{
    if actions.len() > 0 {
        let earlier = actions.drop_last();
        lemma_ran_holds(logs, accepts, facts, tail, earlier);
        lemma_tail_holds(logs, accepts, facts, ran(tail, earlier), actions.last());
    }
}

/// A walk that has not begun holds what its log does above its bound: nothing.
proof fn lemma_new_tail_holds(
    spec: TailSpec,
    facts: Seq<PartitionFacts>,
    logs: Seq<Seq<RecordView>>,
    accepts: spec_fn(RecordView) -> bool,
)
    requires
        spec.max_step >= 1,
        facts.len() <= usize::MAX,
        logs.len() == facts.len(),
    ensures
        tail_holds(logs, accepts, facts, tail_of(spec, facts)),
{
    let first = tail_of(spec, facts);
    assert forall|i: int| 0 <= i < first.walks.len() implies walk_holds(
        logs[i],
        accepts,
        #[trigger] first.walks[i],
        facts[i],
        spec,
    ) by {
        let bound = bound_for(spec, facts[i]) as int;
        lemma_nothing_between(logs[i], bound, bound, accepts);
    }
}

/// Every accepted record that a partition's log holds for its tail.
pub open spec fn held_for_tail(
    spec: TailSpec,
    known: PartitionFacts,
    log: Seq<RecordView>,
    accepts: spec_fn(RecordView) -> bool,
) -> Seq<RecordView> {
    between(log, known.earliest as int, bound_for(spec, known) as int, accepts)
}

/// What a walk that holds its log comes to.
proof fn lemma_walk_returns(
    log: Seq<RecordView>,
    accepts: spec_fn(RecordView) -> bool,
    walk: WalkView,
    known: PartitionFacts,
    spec: TailSpec,
)
    requires
        ascends(log),
        walk_holds(log, accepts, walk, known, spec),
    ensures
        ({
            let returned = walk.trimmed_to_target().collected;
            let held = held_for_tail(spec, known, log, accepts);
            &&& ascends(returned)
            &&& returned.len() > 0 ==> returned == between(
                log,
                returned[0].offset as int,
                bound_for(spec, known) as int,
                accepts,
            )
            &&& returned.len() <= held.len()
            &&& !walk.has_more() && !walk.trimmed_to_target().trimmed ==> returned == held
            &&& bound_for(spec, known) <= known.earliest ==> held.len() == 0 && !walk.has_more()
                && walk.fetches == 0 && !walk.trimmed_to_target().trimmed
        }),
{
    let bound = bound_for(spec, known) as int;
    let from = walk.window_end as int;
    let collected = walk.collected;
    let returned = walk.trimmed_to_target().collected;
    assert(all_below(log, i64::MAX + 1));
    lemma_between(log, from, bound, accepts, i64::MAX + 1);
    let spare = collected.len() - returned.len();
    assert(returned =~= collected.skip(spare));
    if returned.len() > 0 {
        lemma_between_suffix(log, from, bound, accepts, spare);
    }
    if from < known.earliest {
        lemma_nothing_between(log, from, bound, accepts);
        lemma_nothing_between(log, known.earliest as int, bound, accepts);
    } else {
        lemma_between_joined(log, known.earliest as int, from, bound, accepts);
        if bound <= known.earliest {
            lemma_nothing_between(log, known.earliest as int, bound, accepts);
        }
    }
}

/// A tail is the newest records there are. Whatever was asked for and answered,
/// as long as the answers tell what the partitions' logs hold, what a partition
/// returns strictly ascends, so nothing comes twice; it is every accepted
/// record from the oldest of them up to the anchor, so nothing newer than the
/// oldest is left out; and a partition that claims to have reached its log start
/// returns every accepted record it has below the anchor. One that has nothing
/// below its anchor makes that claim, and is not fetched from.
pub proof fn a_tail_is_the_newest_records(
    spec: TailSpec,
    facts: Seq<PartitionFacts>,
    logs: Seq<Seq<RecordView>>,
    accepts: spec_fn(RecordView) -> bool,
    actions: Seq<TailAction>,
    at: int,
    returned: PartitionTail,
)
    requires
        spec.max_step >= 1,
        facts.len() <= usize::MAX,
        logs.len() == facts.len(),
        forall|i: int| 0 <= i < logs.len() ==> ascends(#[trigger] logs[i]),
        are_true_to(logs, accepts, tail_of(spec, facts), actions),
        0 <= at < facts.len(),
        is_tail_of(returned, ran(tail_of(spec, facts), actions).walks[at]),
    ensures
        ({
            let records = record_views(returned.records@);
            let bound = bound_for(spec, facts[at]);
            &&& ascends(records)
            &&& records.len() > 0 ==> records == between(
                logs[at],
                records[0].offset as int,
                bound as int,
                accepts,
            )
            &&& returned.reached_log_start ==> records == held_for_tail(
                spec,
                facts[at],
                logs[at],
                accepts,
            )
            &&& returned.log_start == facts[at].earliest
            &&& returned.log_end == facts[at].latest
            &&& bound <= facts[at].earliest ==> {
                &&& records.len() == 0
                &&& returned.fetches == 0
                &&& returned.reached_log_start
            }
        }),
{
    let first = tail_of(spec, facts);
    lemma_new_tail_holds(spec, facts, logs, accepts);
    lemma_ran_holds(logs, accepts, facts, first, actions);
    let last = ran(first, actions);
    assert(walk_holds(logs[at], accepts, last.walks[at], facts[at], spec));
    assert(ascends(logs[at]));
    lemma_walk_returns(logs[at], accepts, last.walks[at], facts[at], spec);
}

/// How many accepted records some partitions' logs hold for their tails.
pub open spec fn total_held(
    spec: TailSpec,
    facts: Seq<PartitionFacts>,
    logs: Seq<Seq<RecordView>>,
    accepts: spec_fn(RecordView) -> bool,
) -> nat
    decreases facts.len(),
{
    if facts.len() == 0 {
        0
    } else {
        total_held(spec, facts.drop_last(), logs, accepts) + held_for_tail(
            spec,
            facts.last(),
            logs[facts.len() - 1],
            accepts,
        ).len()
    }
}

/// What the walks return is no more than the logs hold, and just that where
/// every walk returns all that its log holds.
proof fn lemma_returned_is_held(
    spec: TailSpec,
    facts: Seq<PartitionFacts>,
    logs: Seq<Seq<RecordView>>,
    accepts: spec_fn(RecordView) -> bool,
    walks: Seq<WalkView>,
)
    requires
        walks.len() == facts.len(),
        facts.len() <= logs.len(),
        forall|i: int| 0 <= i < logs.len() ==> ascends(#[trigger] logs[i]),
        forall|i: int|
            0 <= i < walks.len() ==> walk_holds(
                logs[i],
                accepts,
                #[trigger] walks[i],
                facts[i],
                spec,
            ),
    ensures
        total_returned(walks) <= total_held(spec, facts, logs, accepts),
        (forall|i: int|
            0 <= i < walks.len() ==> !(#[trigger] walks[i]).has_more()
                && walks[i].trimmed_to_target() == walks[i]) ==> total_returned(walks)
            == total_held(spec, facts, logs, accepts),
    decreases walks.len(),
{
    if walks.len() > 0 {
        let n = walks.len() - 1;
        let shorter = walks.drop_last();
        assert forall|i: int| 0 <= i < shorter.len() implies walk_holds(
            logs[i],
            accepts,
            #[trigger] shorter[i],
            facts.drop_last()[i],
            spec,
        ) by {
            assert(shorter[i] == walks[i]);
        }
        lemma_returned_is_held(spec, facts.drop_last(), logs, accepts, shorter);
        assert(walk_holds(logs[n], accepts, walks[n], facts[n], spec));
        assert(ascends(logs[n]));
        lemma_walk_returns(logs[n], accepts, walks[n], facts[n], spec);
        if forall|i: int|
            0 <= i < walks.len() ==> !(#[trigger] walks[i]).has_more()
                && walks[i].trimmed_to_target() == walks[i] {
            assert forall|i: int| 0 <= i < shorter.len() implies !(#[trigger] shorter[i]).has_more()
                && shorter[i].trimmed_to_target() == shorter[i] by {
                assert(shorter[i] == walks[i]);
            }
            assert(!walks[n].has_more());
        }
    }
}

/// A finished tail holds as many records as were asked for, or, where the
/// partitions have fewer that are accepted, every one of them.
pub proof fn a_tail_holds_the_limit_or_everything(
    spec: TailSpec,
    facts: Seq<PartitionFacts>,
    logs: Seq<Seq<RecordView>>,
    accepts: spec_fn(RecordView) -> bool,
    actions: Seq<TailAction>,
)
    requires
        spec.max_step >= 1,
        facts.len() <= usize::MAX,
        logs.len() == facts.len(),
        forall|i: int| 0 <= i < logs.len() ==> ascends(#[trigger] logs[i]),
        are_true_to(logs, accepts, tail_of(spec, facts), actions),
        ran(tail_of(spec, facts), actions).wf(),
        ran(tail_of(spec, facts), actions).stepped().1 == TailStep::Done,
    ensures
        total_returned(ran(tail_of(spec, facts), actions).walks) == lesser(
            spec.limit as nat,
            total_held(spec, facts, logs, accepts),
        ),
{
    let first = tail_of(spec, facts);
    lemma_new_tail_holds(spec, facts, logs, accepts);
    lemma_ran_holds(logs, accepts, facts, first, actions);
    let last = ran(first, actions);
    the_limit_is_met_if_the_topic_holds_it(last);
    assert forall|i: int| 0 <= i < last.walks.len() implies walk_holds(
        logs[i],
        accepts,
        #[trigger] last.walks[i],
        facts[i],
        spec,
    ) by {}
    lemma_returned_is_held(spec, facts, logs, accepts, last.walks);
}

} // verus!
