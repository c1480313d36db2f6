//! Reading the tail of a topic: windows, walks, and the rounds that spread one
//! limit over many partitions.
//!
//! [`Tail::step`] says what is to be done next. When that is a fetch, the
//! caller makes it and hands the answer to [`Tail::absorb`]; when the rounds
//! are over, [`Tail::finish`] gives the result.

use vstd::prelude::*;
use vstd::string::*;

use crate::read::backward::{
    bound_of, ceiling, divided, record_views, resolve_anchor, the_step_only_grows, walk_views, PartitionTail, TailSpec, Walk,
    WalkView,
};
use crate::read::batch::{
    decode_partition, decoded, held, saturating, saturating_sum, DecodedView,
};
use crate::read::fetch::{fetched_views, FetchTarget, FetchedPartition, FetchedView};
use crate::read::filter::{may_pass, passes, RecordFilter};
use crate::read::record::{outcome_views, OutcomeView, Record, RecordOutcome, RecordView};
use crate::read::scan::PartitionFacts;
use crate::read::scan_state::malformed_count;

verus! {

/// One window of a partition, being read forwards by as many fetches as it
/// takes.
#[derive(Debug)]
pub struct WindowRead {
    /// The first offset of the window.
    pub start: i64,
    /// The offset past its last.
    pub end: i64,
    /// The next offset to fetch.
    pub offset: i64,
    /// The records found in the window.
    pub records: Vec<Record>,
    /// Batches that would not decode.
    pub malformed: usize,
    /// How many fetches this cost.
    pub fetches: usize,
    /// Whether there is nothing more to get here.
    pub over: bool,
}

/// A [`WindowRead`], as plain values.
pub struct WindowView {
    pub start: i64,
    pub end: i64,
    pub offset: i64,
    pub records: Seq<RecordView>,
    pub malformed: usize,
    pub fetches: usize,
    pub over: bool,
}

impl View for WindowRead {
    type V = WindowView;

    open spec fn view(&self) -> WindowView {
        WindowView {
            start: self.start,
            end: self.end,
            offset: self.offset,
            records: record_views(self.records@),
            malformed: self.malformed,
            fetches: self.fetches,
            over: self.over,
        }
    }
}

/// Whether every verdict on an outcome is one that a filter may give.
pub open spec fn may_judge_all(
    filter: Option<RecordFilter>,
    outcomes: Seq<OutcomeView>,
    verdicts: Seq<bool>,
) -> bool {
    &&& verdicts.len() == outcomes.len()
    &&& forall|i: int|
        0 <= i < outcomes.len() ==> ((#[trigger] outcomes[i]) matches OutcomeView::Decoded(record)
            ==> may_pass(filter, record, verdicts[i]))
}

/// The records of some outcomes that lie between two offsets and pass.
///
/// A fetch starts at whatever batch holds the offset it asks for, so records
/// from before that offset are normal, and are dropped rather than trusted.
pub open spec fn inside(
    start: i64,
    end: i64,
    outcomes: Seq<OutcomeView>,
    verdicts: Seq<bool>,
) -> Seq<RecordView>
    decreases outcomes.len(),
{
    if outcomes.len() == 0 {
        seq![]
    } else {
        let before = inside(start, end, outcomes.drop_last(), verdicts);
        match outcomes.last() {
            OutcomeView::Decoded(record) => if start <= record.offset < end && verdicts[outcomes.len()
                - 1] {
                before.push(record)
            } else {
                before
            },
            OutcomeView::Malformed { .. } => before,
        }
    }
}

/// The first fetched part of a partition.
pub open spec fn fetched_for(fetched: Seq<FetchedView>, partition: i32) -> Option<FetchedView>
    decreases fetched.len(),
{
    if fetched.len() == 0 {
        None
    } else if fetched[0].partition == partition {
        Some(fetched[0])
    } else {
        fetched_for(fetched.skip(1), partition)
    }
}

/// What an answer decodes to for a partition, if it has anything of it.
pub open spec fn decoded_for(spec: TailSpec, partition: i32, fetched: Seq<FetchedView>) -> Option<
    DecodedView,
> {
    match fetched_for(fetched, partition) {
        None => None,
        Some(part) => Some(
            decoded(spec.topic@, partition, part.records, part.aborted, spec.options()),
        ),
    }
}

impl WindowView {
    /// Whether the window needs another fetch.
    pub open spec fn unread(self) -> bool {
        !self.over && self.offset < self.end
    }

    /// The window after a fetch whose last whole batch ends at `last`.
    ///
    /// A batch may hold records from before the offset that was asked for, so
    /// what was already read is dropped. The next fetch goes past the whole of
    /// what came, also where it held nothing that can be shown: markers,
    /// aborted records, offsets that were compacted away. A partition whose
    /// offsets do not advance would otherwise be read for ever.
    pub open spec fn with_batches(
        self,
        outcomes: Seq<OutcomeView>,
        last: i64,
        verdicts: Seq<bool>,
    ) -> WindowView {
        let next = saturating(last + 1);
        WindowView {
            fetches: held(self.fetches as nat + 1),
            records: self.records + inside(self.offset, self.end, outcomes, verdicts),
            malformed: held(self.malformed as nat + malformed_count(outcomes)),
            offset: if next <= self.offset {
                self.offset
            } else {
                next
            },
            over: self.over || next <= self.offset,
            ..self
        }
    }

    /// The window after a fetch, with the filter's verdicts on what it decoded
    /// to.
    pub open spec fn with_answer(self, answer: Option<DecodedView>, verdicts: Seq<bool>) -> WindowView {
        match answer {
            None => WindowView { fetches: held(self.fetches as nat + 1), over: true, ..self },
            Some(answer) => match answer.last_offset {
                // Not one whole batch: there is nothing more to get.
                None => WindowView { fetches: held(self.fetches as nat + 1), over: true, ..self },
                Some(last) => self.with_batches(answer.outcomes, last, verdicts),
            },
        }
    }
}

/// What a filter may say of an answer.
pub open spec fn may_judge_answer(
    filter: Option<RecordFilter>,
    answer: Option<DecodedView>,
    verdicts: Seq<bool>,
) -> bool {
    match answer {
        None => true,
        Some(answer) => may_judge_all(filter, answer.outcomes, verdicts),
    }
}

/// Verdicts that a filter may give, whichever they are.
spec fn any_verdicts(filter: Option<RecordFilter>, outcomes: Seq<OutcomeView>) -> Seq<bool> {
    Seq::new(
        outcomes.len(),
        |i: int|
            outcomes[i] matches OutcomeView::Decoded(record) && may_pass(filter, record, true),
    )
}

/// Verdicts past the end of some outcomes do not matter to them.
proof fn lemma_inside_prefix(
    start: i64,
    end: i64,
    outcomes: Seq<OutcomeView>,
    a: Seq<bool>,
    b: Seq<bool>,
)
    requires
        outcomes.len() <= a.len(),
        outcomes.len() <= b.len(),
        forall|i: int| 0 <= i < outcomes.len() ==> a[i] == b[i],
    ensures
        inside(start, end, outcomes, a) == inside(start, end, outcomes, b),
    decreases outcomes.len(),
{
    if outcomes.len() > 0 {
        lemma_inside_prefix(start, end, outcomes.drop_last(), a, b);
    }
}

impl WindowRead {
    /// A window that nothing was read of yet.
    pub fn new(start: i64, end: i64) -> (window: Self)
        ensures
            window@ == (WindowView {
                start,
                end,
                offset: start,
                records: seq![],
                malformed: 0,
                fetches: 0,
                over: false,
            }),
    {
        let window = WindowRead {
            start,
            end,
            offset: start,
            records: Vec::new(),
            malformed: 0,
            fetches: 0,
            over: false,
        };
        assert(window@.records =~= seq![]);
        window
    }

    /// Whether the window needs another fetch.
    pub fn unread(&self) -> (unread: bool)
        ensures
            unread == self@.unread(),
    {
        !self.over && self.offset < self.end
    }

    /// Takes in what a fetch decoded to, and where its last whole batch ends.
    fn keep(&mut self, filter: &Option<RecordFilter>, outcomes: Vec<RecordOutcome>, last: i64)
        ensures
            exists|verdicts: Seq<bool>|
                #![trigger may_judge_all(*filter, outcome_views(outcomes@), verdicts)]
                may_judge_all(*filter, outcome_views(outcomes@), verdicts) && final(self)@
                    == old(self)@.with_batches(outcome_views(outcomes@), last, verdicts),
    {
        let ghost before = self@;
        let ghost views = outcome_views(outcomes@);
        let ghost mut verdicts: Seq<bool> = seq![];
        let ghost mut bad: nat = 0;
        self.fetches = self.fetches.saturating_add(1);
        let ghost counted = self.fetches;
        assert(views.take(0) =~= seq![]);
        assert(before.records + inside(self.offset, self.end, views.take(0), verdicts)
            =~= before.records);
        for outcome in iter: outcomes
            invariant
                iter.seq() == outcomes@,
                views == outcome_views(outcomes@),
                views.len() == outcomes@.len(),
                verdicts.len() == iter.index(),
                forall|i: int|
                    0 <= i < iter.index() ==> ((#[trigger] views[i]) matches OutcomeView::Decoded(
                        record,
                    ) ==> may_pass(*filter, record, verdicts[i])),
                bad == malformed_count(views.take(iter.index())),
                self.malformed == held(before.malformed as nat + bad),
                self@ == (WindowView {
                    records: before.records + inside(
                        before.offset,
                        before.end,
                        views.take(iter.index()),
                        verdicts,
                    ),
                    malformed: self.malformed,
                    fetches: counted,
                    ..before
                }),
        {
            let ghost earlier = verdicts;
            let ghost place = iter.index();
            proof {
                assert(views[place] == outcome@);
                assert(views.take(place + 1).drop_last() =~= views.take(place));
                assert(views.take(place + 1).last() == views[place]);
            }
            match outcome {
                RecordOutcome::Decoded(record) => {
                    let within = record.offset >= self.offset && record.offset < self.end;
                    let through = within && passes(filter, &record);
                    proof {
                        // A record outside the window is dropped without
                        // asking; any answer the filter may give will do.
                        let verdict = if within {
                            through
                        } else {
                            may_pass(*filter, record@, true)
                        };
                        verdicts = verdicts.push(verdict);
                        lemma_inside_prefix(
                            before.offset,
                            before.end,
                            views.take(place),
                            earlier,
                            verdicts,
                        );
                    }
                    let ghost found = self.records@;
                    if through {
                        self.records.push(record);
                        assert(record_views(self.records@) =~= record_views(found).push(record@));
                    }
                    assert(self@.records =~= before.records + inside(
                        before.offset,
                        before.end,
                        views.take(place + 1),
                        verdicts,
                    ));
                },
                RecordOutcome::Malformed { .. } => {
                    self.malformed = self.malformed.saturating_add(1);
                    proof {
                        bad = bad + 1;
                        verdicts = verdicts.push(true);
                        lemma_inside_prefix(
                            before.offset,
                            before.end,
                            views.take(place),
                            earlier,
                            verdicts,
                        );
                    }
                },
            }
        }
        assert(views.take(views.len() as int) =~= views);
        let next: i64 = saturating_sum(last, 1);
        if next <= self.offset {
            self.over = true;
        } else {
            self.offset = next;
        }
        assert(may_judge_all(*filter, views, verdicts));
        assert(self@ == before.with_batches(views, last, verdicts));
    }
}

/// The part of an answer that is about a partition.
fn pick(fetched: Vec<FetchedPartition>, partition: i32) -> (part: Option<FetchedPartition>)
    ensures
        match part {
            Some(part) => fetched_for(fetched_views(fetched@), partition) == Some(part@),
            None => fetched_for(fetched_views(fetched@), partition) is None,
        },
{
    let ghost views = fetched_views(fetched@);
    assert(views.skip(0) =~= views);
    for part in iter: fetched
        invariant
            iter.seq() == fetched@,
            views == fetched_views(fetched@),
            fetched_for(views, partition) == fetched_for(views.skip(iter.index()), partition),
    {
        proof {
            assert(views[iter.index()] == part@);
            assert(views.skip(iter.index())[0] == views[iter.index()]);
            assert(views.skip(iter.index()).skip(1) =~= views.skip(iter.index() + 1));
        }
        if part.partition == partition {
            return Some(part);
        }
    }
    None
}

impl WindowRead {
    /// Takes in the answer to a fetch.
    pub fn absorb(&mut self, spec: &TailSpec, partition: i32, fetched: Vec<FetchedPartition>)
        ensures
            exists|verdicts: Seq<bool>|
                #![trigger may_judge_answer(
                    spec.filter,
                    decoded_for(*spec, partition, fetched_views(fetched@)),
                    verdicts,
                )]
                may_judge_answer(
                    spec.filter,
                    decoded_for(*spec, partition, fetched_views(fetched@)),
                    verdicts,
                ) && final(self)@ == old(self)@.with_answer(
                    decoded_for(*spec, partition, fetched_views(fetched@)),
                    verdicts,
                ),
    {
        let ghost before = self@;
        let ghost answer = decoded_for(*spec, partition, fetched_views(fetched@));
        let part = match pick(fetched, partition) {
            Some(part) => part,
            None => {
                self.fetches = self.fetches.saturating_add(1);
                self.over = true;
                assert(may_judge_answer(spec.filter, answer, seq![]));
                assert(self@ == before.with_answer(answer, seq![]));
                return;
            },
        };
        let options = spec.decode_options();
        let decoded = decode_partition(
            spec.topic.as_str(),
            partition,
            part.records,
            part.aborted.as_slice(),
            &options,
        );
        let ghost outcomes = outcome_views(decoded.outcomes@);
        assert(answer matches Some(answer) && answer.outcomes == outcomes);
        let last: i64 = match decoded.last_offset {
            Some(last) => last,
            None => {
                self.fetches = self.fetches.saturating_add(1);
                self.over = true;
                proof {
                    let verdicts = any_verdicts(spec.filter, outcomes);
                    assert(may_judge_answer(spec.filter, answer, verdicts));
                    assert(self@ == before.with_answer(answer, verdicts));
                }
                return;
            },
        };
        self.keep(&spec.filter, decoded.outcomes, last);
        proof {
            let verdicts = choose|verdicts: Seq<bool>|
                #![trigger may_judge_all(spec.filter, outcomes, verdicts)]
                may_judge_all(spec.filter, outcomes, verdicts) && self@ == before.with_batches(
                    outcomes,
                    last,
                    verdicts,
                );
            assert(may_judge_answer(spec.filter, answer, verdicts));
        }
    }
}

/// The walks of a topic, and where the rounds that share out its limit are.
pub struct Tail {
    /// What to read.
    pub spec: TailSpec,
    /// One walk per partition.
    pub walks: Vec<Walk>,
    /// The walks that could yield more when this round began.
    pub round: Vec<usize>,
    /// How many of them had their turn.
    pub turn: usize,
    /// How much each of them is granted.
    pub share: usize,
    /// The walk whose turn it is.
    pub running: Option<usize>,
    /// The window it is reading.
    pub window: Option<WindowRead>,
}

/// A [`Tail`], as plain values.
pub struct TailView {
    pub spec: TailSpec,
    pub walks: Seq<WalkView>,
    pub round: Seq<usize>,
    pub turn: usize,
    pub share: usize,
    pub running: Option<usize>,
    pub window: Option<WindowView>,
}

impl View for Tail {
    type V = TailView;

    open spec fn view(&self) -> TailView {
        TailView {
            spec: self.spec,
            walks: walk_views(self.walks@),
            round: self.round@,
            turn: self.turn,
            share: self.share,
            running: self.running,
            window: match self.window {
                Some(window) => Some(window@),
                None => None,
            },
        }
    }
}

/// What is to be done next.
#[derive(Debug, Clone, Copy, PartialEq, Eq, Structural)]
pub enum TailStep {
    /// Fetch this from this leader, and hand over the answer.
    Fetch {
        /// The leader.
        leader: i32,
        /// What to fetch.
        target: FetchTarget,
    },
    /// Take another step.
    Again,
    /// The rounds are over.
    Done,
}

/// How many records count towards the limit.
pub open spec fn total_kept(walks: Seq<WalkView>) -> nat
    decreases walks.len(),
{
    if walks.len() == 0 {
        0
    } else {
        total_kept(walks.drop_last()) + walks.last().kept()
    }
}

/// How many records a walk's present target may still come to.
pub open spec fn promised(walk: WalkView) -> nat {
    if walk.has_more() {
        walk.target as nat
    } else {
        walk.kept()
    }
}

/// How many records the present targets may still come to.
pub open spec fn total_promised(walks: Seq<WalkView>) -> nat
    decreases walks.len(),
{
    if walks.len() == 0 {
        0
    } else {
        total_promised(walks.drop_last()) + promised(walks.last())
    }
}

/// Whether a walk did what it was asked for, or cannot.
pub open spec fn settled(walk: WalkView) -> bool {
    walk.collected.len() >= walk.target || !walk.has_more()
}

/// The walks that could yield more, as their places.
pub open spec fn open_walks(walks: Seq<WalkView>) -> Seq<usize>
    decreases walks.len(),
{
    if walks.len() == 0 {
        seq![]
    } else {
        let before = open_walks(walks.drop_last());
        if walks.last().can_yield_more() {
            before.push((walks.len() - 1) as usize)
        } else {
            before
        }
    }
}

/// The smaller of two counts.
pub open spec fn lesser(a: nat, b: nat) -> nat {
    if a < b {
        a
    } else {
        b
    }
}

impl TailView {
    /// What holds between any two steps.
    pub open spec fn wf(self) -> bool {
        &&& self.spec.max_step >= 1
        &&& self.walks.len() <= usize::MAX
        &&& self.turn <= self.round.len()
        &&& forall|i: int|
            0 <= i < self.walks.len() ==> 1 <= (#[trigger] self.walks[i]).step <= self.spec.max_step
        // Every walk but the one whose turn it is did what it was asked for, or
        // cannot, and together they were not asked for more than the limit.
        &&& forall|i: int|
            0 <= i < self.walks.len() && self.running != Some(i as usize) ==> settled(
                #[trigger] self.walks[i],
            )
        &&& total_promised(self.walks) <= self.spec.limit
        // Those that still get a turn in this round could yield more.
        &&& forall|k: int|
            self.turn <= k < self.round.len() ==> (#[trigger] self.round[k]) < self.walks.len()
                && self.walks[self.round[k] as int].can_yield_more() && self.running != Some(
                self.round[k],
            )
        &&& forall|j: int, k: int|
            0 <= j < k < self.round.len() ==> (#[trigger] self.round[j]) < (#[trigger] self.round[k])
        &&& self.share >= 1 || self.turn == self.round.len()
        &&& self.running matches Some(index) ==> index < self.walks.len()
        &&& self.window matches Some(window) ==> {
            &&& self.running matches Some(index) && {
                let walk = self.walks[index as int];
                &&& walk.next_window() == Some((window.start, window.end))
                &&& walk.log_start <= window.start < window.end
            }
            &&& window.start <= window.offset
        }
    }

    /// The next grant of a round: the walk whose turn comes gets a larger
    /// target, by its share or by what is still owed if that is less. With
    /// nothing owed the rounds are over.
    pub open spec fn granted(self) -> (TailView, TailStep) {
        let deficit = self.spec.limit - total_kept(self.walks);
        if deficit <= 0 {
            (self, TailStep::Done)
        } else {
            let index = self.round[self.turn as int];
            let walk = self.walks[index as int];
            let grant = lesser(self.share as nat, deficit as nat);
            (
                TailView {
                    walks: self.walks.update(
                        index as int,
                        WalkView { target: held(walk.target as nat + grant), ..walk },
                    ),
                    turn: (self.turn + 1) as usize,
                    running: Some(index),
                    ..self
                },
                TailStep::Again,
            )
        }
    }

    /// A new round: what is still owed, divided among the walks that can still
    /// yield.
    pub open spec fn dealt(self) -> (TailView, TailStep) {
        let kept = total_kept(self.walks);
        let open = open_walks(self.walks);
        if kept >= self.spec.limit || open.len() == 0 {
            (self, TailStep::Done)
        } else {
            (
                TailView {
                    round: open,
                    turn: 0,
                    share: ceiling((self.spec.limit - kept) as nat, open.len()) as usize,
                    ..self
                },
                TailStep::Again,
            )
        }
    }

    /// The next step.
    pub open spec fn stepped(self) -> (TailView, TailStep) {
        match self.running {
            Some(index) => {
                let walk = self.walks[index as int];
                match self.window {
                    Some(window) => if window.unread() {
                        (
                            self,
                            TailStep::Fetch {
                                leader: walk.leader,
                                target: FetchTarget {
                                    partition: walk.partition,
                                    offset: window.offset,
                                    max_bytes: self.spec.partition_max_bytes,
                                },
                            },
                        )
                    } else {
                        (
                            TailView {
                                walks: self.walks.update(
                                    index as int,
                                    walk.with_window(
                                        window.start,
                                        window.records,
                                        window.malformed,
                                        window.fetches,
                                        self.spec.max_step,
                                    ),
                                ),
                                window: None,
                                ..self
                            },
                            TailStep::Again,
                        )
                    },
                    None => match walk.next_window() {
                        Some((start, end)) => (
                            TailView {
                                window: Some(
                                    WindowView {
                                        start,
                                        end,
                                        offset: start,
                                        records: seq![],
                                        malformed: 0,
                                        fetches: 0,
                                        over: false,
                                    },
                                ),
                                ..self
                            },
                            TailStep::Again,
                        ),
                        None => (TailView { running: None, ..self }, TailStep::Again),
                    },
                }
            },
            None => if self.turn < self.round.len() {
                self.granted()
            } else {
                self.dealt()
            },
        }
    }

    /// What a fetch answer decodes to for the walk whose turn it is.
    pub open spec fn answer(self, fetched: Seq<FetchedView>) -> Option<DecodedView> {
        match self.running {
            Some(index) => decoded_for(self.spec, self.walks[index as int].partition, fetched),
            None => None,
        }
    }

    /// The state after the answer to a fetch.
    pub open spec fn answered(self, answer: Option<DecodedView>, verdicts: Seq<bool>) -> TailView {
        match self.window {
            Some(window) => TailView { window: Some(window.with_answer(answer, verdicts)), ..self },
            None => self,
        }
    }
}

/// Where a partition's walk starts out.
pub open spec fn walk_of(spec: TailSpec, step: i64, facts: PartitionFacts) -> WalkView {
    WalkView {
        partition: facts.partition,
        leader: facts.leader,
        log_start: facts.earliest,
        log_end: facts.latest,
        window_end: bound_of(spec.anchor, facts.earliest, facts.latest, facts.at_timestamp),
        step,
        collected: seq![],
        malformed: 0,
        fetches: 0,
        target: 0,
        trimmed: false,
    }
}

/// How many partitions hold anything below their anchor.
pub open spec fn holding(spec: TailSpec, facts: Seq<PartitionFacts>) -> nat
    decreases facts.len(),
{
    if facts.len() == 0 {
        0
    } else {
        holding(spec, facts.drop_last()) + if walk_of(spec, 1, facts.last()).has_more() {
            1nat
        } else {
            0nat
        }
    }
}

/// The step every walk starts with.
pub open spec fn opening_step(spec: TailSpec, facts: Seq<PartitionFacts>) -> i64 {
    let step = spec.step_for(holding(spec, facts) as usize);
    if step < 1 {
        1
    } else if step > spec.max_step {
        spec.max_step
    } else {
        step
    }
}

/// The state reading a tail starts out in. Only the partitions that hold
/// anything below their anchor count when the first step is worked out.
pub open spec fn tail_of(spec: TailSpec, facts: Seq<PartitionFacts>) -> TailView {
    TailView {
        spec,
        walks: facts.map_values(
            |facts_of: PartitionFacts| walk_of(spec, opening_step(spec, facts), facts_of),
        ),
        round: seq![],
        turn: 0,
        share: 0,
        running: None,
        window: None,
    }
}

/// Replacing a walk changes the sums by what it counts more or less.
pub proof fn lemma_sums_update(walks: Seq<WalkView>, at: int, walk: WalkView)
    requires
        0 <= at < walks.len(),
    ensures
        total_kept(walks.update(at, walk)) == total_kept(walks) - walks[at].kept() + walk.kept(),
        total_promised(walks.update(at, walk)) == total_promised(walks) - promised(walks[at])
            + promised(walk),
        total_kept(walks) >= walks[at].kept(),
        total_promised(walks) >= promised(walks[at]),
    decreases walks.len(),
{
    let after = walks.update(at, walk);
    if at == walks.len() - 1 {
        assert(after.drop_last() =~= walks.drop_last());
    } else {
        lemma_sums_update(walks.drop_last(), at, walk);
        assert(after.drop_last() =~= walks.drop_last().update(at, walk));
    }
}

/// What is kept is no more than what is promised; and just that where every
/// walk did what it was asked for, or cannot.
pub proof fn lemma_kept_is_promised(walks: Seq<WalkView>)
    ensures
        total_kept(walks) <= total_promised(walks),
        (forall|i: int| 0 <= i < walks.len() ==> settled(#[trigger] walks[i])) ==> total_kept(walks)
            == total_promised(walks),
    decreases walks.len(),
{
    if walks.len() > 0 {
        let before = walks.drop_last();
        lemma_kept_is_promised(before);
        if forall|i: int| 0 <= i < walks.len() ==> settled(#[trigger] walks[i]) {
            assert forall|i: int| 0 <= i < before.len() implies settled(#[trigger] before[i]) by {
                assert(before[i] == walks[i]);
            }
            assert(settled(walks[walks.len() - 1]));
        }
    }
}

/// The open walks are just those that could yield more, in order.
pub proof fn lemma_open_walks(walks: Seq<WalkView>)
    requires
        walks.len() <= usize::MAX,
    ensures
        open_walks(walks).len() <= walks.len(),
        forall|k: int|
            0 <= k < open_walks(walks).len() ==> (#[trigger] open_walks(walks)[k]) < walks.len()
                && walks[open_walks(walks)[k] as int].can_yield_more(),
        forall|j: int, k: int|
            0 <= j < k < open_walks(walks).len() ==> (#[trigger] open_walks(walks)[j]) < (
            #[trigger] open_walks(walks)[k]),
        open_walks(walks).len() == 0 ==> forall|i: int|
            0 <= i < walks.len() ==> !(#[trigger] walks[i]).can_yield_more(),
    decreases walks.len(),
{
    if walks.len() > 0 {
        let before = walks.drop_last();
        lemma_open_walks(before);
        let all = open_walks(walks);
        let earlier = open_walks(before);
        assert forall|k: int| 0 <= k < all.len() implies (#[trigger] all[k]) < walks.len()
            && walks[all[k] as int].can_yield_more() by {
            if k < earlier.len() {
                assert(all[k] == earlier[k]);
                assert(before[earlier[k] as int] == walks[all[k] as int]);
            } else {
                assert(walks.last() == walks[walks.len() - 1]);
            }
        }
        assert forall|j: int, k: int| 0 <= j < k < all.len() implies (#[trigger] all[j]) < (
        #[trigger] all[k]) by {
            assert(all[j] == earlier[j]);
            if k < earlier.len() {
                assert(all[k] == earlier[k]);
            } else {
                assert(earlier[j] < before.len());
            }
        }
        if all.len() == 0 {
            assert forall|i: int| 0 <= i < walks.len() implies !(#[trigger] walks[i]).can_yield_more() by {
                if i < before.len() {
                    assert(before[i] == walks[i]);
                }
            }
        }
    }
}

/// A prefix of the walks keeps no more than all of them.
proof fn lemma_kept_prefix(walks: Seq<WalkView>, n: int)
    requires
        0 <= n <= walks.len(),
    ensures
        total_kept(walks.take(n)) <= total_kept(walks),
    decreases walks.len(),
{
    if n == walks.len() {
        assert(walks.take(n) =~= walks);
    } else {
        lemma_kept_prefix(walks.drop_last(), n);
        assert(walks.drop_last().take(n) =~= walks.take(n));
    }
}

impl Tail {
    /// How many records count towards the limit.
    fn kept(&self) -> (kept: usize)
        requires
            self@.wf(),
        ensures
            kept == total_kept(self@.walks),
            kept <= self.spec.limit,
    {
        let ghost views = self@.walks;
        let mut kept: usize = 0;
        let mut at: usize = 0;
        proof {
            lemma_kept_is_promised(views);
            assert(views.take(0) =~= seq![]);
        }
        while at < self.walks.len()
            invariant
                at <= self.walks.len(),
                views == self@.walks,
                total_kept(views) <= self.spec.limit,
                kept == total_kept(views.take(at as int)),
            decreases self.walks.len() - at,
        {
            proof {
                assert(views[at as int] == self.walks@[at as int]@);
                assert(views.take(at + 1).drop_last() =~= views.take(at as int));
                assert(views.take(at + 1).last() == views[at as int]);
                lemma_kept_prefix(views, at + 1);
            }
            kept += self.walks[at].kept();
            at += 1;
        }
        assert(views.take(at as int) =~= views);
        kept
    }

    /// The walks that could yield more.
    fn open(&self) -> (open: Vec<usize>)
        ensures
            open@ == open_walks(self@.walks),
    {
        let ghost views = self@.walks;
        let mut open: Vec<usize> = Vec::new();
        let mut at: usize = 0;
        assert(views.take(0) =~= seq![]);
        while at < self.walks.len()
            invariant
                at <= self.walks.len(),
                views == self@.walks,
                open@ == open_walks(views.take(at as int)),
            decreases self.walks.len() - at,
        {
            assert(views[at as int] == self.walks@[at as int]@);
            assert(views.take(at + 1).drop_last() =~= views.take(at as int));
            assert(views.take(at + 1).last() == views[at as int]);
            if self.walks[at].can_yield_more() {
                open.push(at);
            }
            at += 1;
        }
        assert(views.take(at as int) =~= views);
        open
    }

    /// The next grant of a round.
    fn grant(&mut self) -> (step: TailStep)
        requires
            old(self)@.wf(),
            old(self).running is None,
            old(self).window is None,
            old(self).turn < old(self).round@.len(),
        ensures
            final(self)@.wf(),
            (final(self)@, step) == old(self)@.granted(),
    {
        let ghost before = self@;
        let kept: usize = self.kept();
        let deficit: usize = self.spec.limit - kept;
        if deficit == 0 {
            return TailStep::Done;
        }
        let index: usize = self.round[self.turn];
        let grant: usize = if self.share < deficit {
            self.share
        } else {
            deficit
        };
        let ghost walk = before.walks[index as int];
        assert(walk == self.walks@[index as int]@);
        let target: usize = self.walks[index].target.saturating_add(grant);
        self.walks[index].target = target;
        assert(self.turn < self.round.len());
        self.turn += 1;
        self.running = Some(index);
        proof {
            let raised = WalkView { target, ..walk };
            assert(self@.walks =~= before.walks.update(index as int, raised));
            lemma_kept_is_promised(before.walks);
            lemma_sums_update(before.walks, index as int, raised);
            assert(self@.wf()) by {
                assert forall|i: int|
                    0 <= i < self@.walks.len() && self@.running != Some(i as usize) implies settled(
                    #[trigger] self@.walks[i],
                ) by {
                    assert(settled(before.walks[i]));
                }
                assert forall|k: int| self@.turn <= k < self@.round.len() implies (
                #[trigger] self@.round[k]) < self@.walks.len()
                    && self@.walks[self@.round[k] as int].can_yield_more() && self@.running != Some(
                    self@.round[k],
                ) by {
                    assert(before.round[before.turn as int] < before.round[k]);
                }
                assert forall|i: int| 0 <= i < self@.walks.len() implies 1 <= (
                #[trigger] self@.walks[i]).step <= self@.spec.max_step by {
                    assert(before.walks[i].step >= 1);
                }
            }
        }
        TailStep::Again
    }

    /// A new round.
    fn deal(&mut self) -> (step: TailStep)
        requires
            old(self)@.wf(),
            old(self).running is None,
            old(self).window is None,
        ensures
            final(self)@.wf(),
            (final(self)@, step) == old(self)@.dealt(),
    {
        let ghost before = self@;
        let kept: usize = self.kept();
        if kept >= self.spec.limit {
            return TailStep::Done;
        }
        let open = self.open();
        if open.len() == 0 {
            return TailStep::Done;
        }
        proof {
            lemma_open_walks(before.walks);
        }
        self.share = divided(self.spec.limit - kept, open.len());
        self.round = open;
        self.turn = 0;
        TailStep::Again
    }

    /// The next step. A fetch that it asks for is to be answered with
    /// [`Tail::absorb`] before the next.
    pub fn step(&mut self) -> (step: TailStep)
        requires
            old(self)@.wf(),
        ensures
            final(self)@.wf(),
            (final(self)@, step) == old(self)@.stepped(),
    {
        let ghost before = self@;
        match self.running {
            Some(index) => {
                let ghost walk = before.walks[index as int];
                assert(walk == self.walks@[index as int]@);
                let mut held: Option<WindowRead> = None;
                std::mem::swap(&mut held, &mut self.window);
                match held {
                    Some(window) => {
                        if window.unread() {
                            let target = FetchTarget {
                                partition: self.walks[index].partition,
                                offset: window.offset,
                                max_bytes: self.spec.partition_max_bytes,
                            };
                            self.window = Some(window);
                            return TailStep::Fetch { leader: self.walks[index].leader, target };
                        }
                        let max_step: i64 = self.spec.max_step;
                        self.walks[index].take_window(
                            window.start,
                            window.records,
                            window.malformed,
                            window.fetches,
                            max_step,
                        );
                        proof {
                            let taken = walk.with_window(
                                window@.start,
                                window@.records,
                                window@.malformed,
                                window@.fetches,
                                max_step,
                            );
                            assert(self@.walks =~= before.walks.update(index as int, taken));
                            lemma_sums_update(before.walks, index as int, taken);
                            lemma_taking_keeps_the_step(walk, window@, max_step);
                            assert(self@.wf()) by {
                                assert forall|i: int|
                                    0 <= i < self@.walks.len() && self@.running != Some(
                                        i as usize,
                                    ) implies settled(#[trigger] self@.walks[i]) by {
                                    assert(settled(before.walks[i]));
                                }
                                assert forall|k: int| self@.turn <= k < self@.round.len() implies (
                                #[trigger] self@.round[k]) < self@.walks.len()
                                    && self@.walks[self@.round[k] as int].can_yield_more()
                                    && self@.running != Some(self@.round[k]) by {
                                    assert(before.round[k] != index);
                                }
                                assert forall|i: int| 0 <= i < self@.walks.len() implies 1 <= (
                                #[trigger] self@.walks[i]).step <= self@.spec.max_step by {
                                    assert(before.walks[i].step >= 1);
                                }
                            }
                        }
                        TailStep::Again
                    },
                    None => {
                        match self.walks[index].run_until() {
                            Some((start, end)) => {
                                self.window = Some(WindowRead::new(start, end));
                            },
                            None => {
                                self.running = None;
                            },
                        }
                        assert(self@.walks == before.walks);
                        assert(before.walks[index as int].step >= 1);
                        assert(self@.wf()) by {
                            assert forall|i: int|
                                0 <= i < self@.walks.len() && self@.running != Some(
                                    i as usize,
                                ) implies settled(#[trigger] self@.walks[i]) by {
                                if i != index {
                                    assert(settled(before.walks[i]));
                                }
                            }
                        }
                        TailStep::Again
                    },
                }
            },
            None => {
                if self.turn < self.round.len() {
                    self.grant()
                } else {
                    self.deal()
                }
            },
        }
    }

    /// Takes in the answer to the fetch that was asked for.
    pub fn absorb(&mut self, fetched: Vec<FetchedPartition>)
        requires
            old(self)@.wf(),
        ensures
            final(self)@.wf(),
            exists|verdicts: Seq<bool>|
                #![trigger may_judge_answer(
                    old(self).spec.filter,
                    old(self)@.answer(fetched_views(fetched@)),
                    verdicts,
                )]
                may_judge_answer(
                    old(self).spec.filter,
                    old(self)@.answer(fetched_views(fetched@)),
                    verdicts,
                ) && final(self)@ == old(self)@.answered(
                    old(self)@.answer(fetched_views(fetched@)),
                    verdicts,
                ),
    {
        let ghost before = self@;
        let ghost answer = before.answer(fetched_views(fetched@));
        let mut held: Option<WindowRead> = None;
        std::mem::swap(&mut held, &mut self.window);
        match (self.running, held) {
            (Some(index), Some(read)) => {
                let mut window = read;
                assert(before.walks[index as int] == self.walks@[index as int]@);
                let partition: i32 = self.walks[index].partition;
                let ghost first = window@;
                window.absorb(&self.spec, partition, fetched);
                proof {
                    let verdicts = choose|verdicts: Seq<bool>|
                        #![trigger may_judge_answer(self.spec.filter, answer, verdicts)]
                        may_judge_answer(self.spec.filter, answer, verdicts) && window@
                            == first.with_answer(answer, verdicts);
                    assert(may_judge_answer(before.spec.filter, answer, verdicts));
                    assert(before.answered(answer, verdicts).window == Some(window@));
                }
                self.window = Some(window);
            },
            _ => {
                assert(before.window is None);
                proof {
                    let outcomes = match answer {
                        Some(answer) => answer.outcomes,
                        None => seq![],
                    };
                    let verdicts = any_verdicts(before.spec.filter, outcomes);
                    assert(may_judge_answer(before.spec.filter, answer, verdicts));
                    assert(self@ == before.answered(answer, verdicts));
                }
            },
        }
    }
}

/// Taking in a window keeps the step in its bounds.
pub proof fn lemma_taking_keeps_the_step(walk: WalkView, window: WindowView, max_step: i64)
    requires
        1 <= walk.step <= max_step,
    ensures
        1 <= walk.with_window(
            window.start,
            window.records,
            window.malformed,
            window.fetches,
            max_step,
        ).step <= max_step,
{
    let span = saturating(walk.window_end - window.start);
    the_step_only_grows(
        walk.step,
        if span < 1 {
            1
        } else {
            span as int
        },
        window.records.len(),
        window.records.len() + walk.collected.len() < walk.target,
        max_step,
    );
}

/// Starts reading the tail of a topic, from what is known of its partitions.
pub fn tail(spec: TailSpec, facts: &Vec<PartitionFacts>) -> (tail: Tail)
    requires
        spec.max_step >= 1,
    ensures
        tail@ == tail_of(spec, facts@),
        tail@.wf(),
{
    let mut count: usize = 0;
    let mut at: usize = 0;
    assert(facts@.take(0) =~= seq![]);
    while at < facts.len()
        invariant
            at <= facts.len(),
            count <= at,
            count == holding(spec, facts@.take(at as int)),
        decreases facts.len() - at,
    {
        let known: PartitionFacts = facts[at];
        assert(facts@.take(at + 1).drop_last() =~= facts@.take(at as int));
        assert(facts@.take(at + 1).last() == known);
        let bound: i64 = resolve_anchor(
            spec.anchor,
            known.earliest,
            known.latest,
            known.at_timestamp,
        );
        if bound > known.earliest {
            count += 1;
        }
        at += 1;
    }
    assert(facts@.take(at as int) =~= facts@);
    let step: i64 = spec.first_step(count);
    let step: i64 = if step < 1 {
        1
    } else if step > spec.max_step {
        spec.max_step
    } else {
        step
    };
    let mut walks: Vec<Walk> = Vec::new();
    let mut at: usize = 0;
    while at < facts.len()
        invariant
            at <= facts.len(),
            walks@.len() == at,
            forall|i: int| 0 <= i < at ==> (#[trigger] walks@[i])@ == walk_of(spec, step, facts@[i]),
        decreases facts.len() - at,
    {
        let known: PartitionFacts = facts[at];
        let walk = Walk {
            partition: known.partition,
            leader: known.leader,
            log_start: known.earliest,
            log_end: known.latest,
            window_end: resolve_anchor(
                spec.anchor,
                known.earliest,
                known.latest,
                known.at_timestamp,
            ),
            step,
            collected: Vec::new(),
            malformed: 0,
            fetches: 0,
            target: 0,
            trimmed: false,
        };
        assert(walk@.collected =~= seq![]);
        walks.push(walk);
        at += 1;
    }
    let tail = Tail {
        spec,
        walks,
        round: Vec::new(),
        turn: 0,
        share: 0,
        running: None,
        window: None,
    };
    proof {
        assert(tail@.walks =~= tail_of(spec, facts@).walks);
        assert(tail@.round =~= seq![]);
        lemma_nothing_promised(tail@.walks);
    }
    tail
}

/// Walks that were asked for nothing promise nothing.
proof fn lemma_nothing_promised(walks: Seq<WalkView>)
    requires
        forall|i: int| 0 <= i < walks.len() ==> (#[trigger] walks[i]).target == 0,
    ensures
        total_promised(walks) == 0,
    decreases walks.len(),
{
    if walks.len() > 0 {
        let before = walks.drop_last();
        assert forall|i: int| 0 <= i < before.len() implies (#[trigger] before[i]).target == 0 by {
            assert(before[i] == walks[i]);
        }
        lemma_nothing_promised(before);
        assert(walks.last() == walks[walks.len() - 1]);
    }
}

/// Whether a tail is what a walk came to.
pub open spec fn is_tail_of(tail: PartitionTail, walk: WalkView) -> bool {
    let trimmed = walk.trimmed_to_target();
    &&& tail.partition == walk.partition
    &&& record_views(tail.records@) == trimmed.collected
    &&& tail.malformed == walk.malformed
    &&& tail.fetches == walk.fetches
    &&& tail.log_start == walk.log_start
    &&& tail.log_end == walk.log_end
    &&& tail.reached_log_start == (!walk.has_more() && !trimmed.trimmed)
}

impl Tail {
    /// What the walks came to: each one's share, the newest records of what it
    /// collected.
    pub fn finish(self) -> (tails: Vec<PartitionTail>)
        ensures
            tails@.len() == self@.walks.len(),
            forall|i: int|
                0 <= i < tails@.len() ==> is_tail_of(#[trigger] tails@[i], self@.walks[i]),
    {
        let ghost views = self@.walks;
        let walks = self.walks;
        let mut tails: Vec<PartitionTail> = Vec::new();
        for walk in iter: walks
            invariant
                iter.seq() == walks@,
                views == walk_views(walks@),
                tails@.len() == iter.index(),
                forall|i: int|
                    0 <= i < iter.index() ==> is_tail_of(#[trigger] tails@[i], views[i]),
        {
            assert(views[iter.index()] == walk@);
            let mut trimmed = walk;
            trimmed.trim_to_target();
            tails.push(trimmed.finish());
        }
        tails
    }
}

} // verus!
