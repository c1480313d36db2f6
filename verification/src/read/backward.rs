//! The backward scan: "the last N messages".
//!
//! Not a forward read with a different starting point. Reading forward from
//! `latest - N` is wrong on any topic where records are not one offset apart,
//! which is every compacted topic and every one that had records deleted. So a
//! walk goes backwards in bounded windows: it reads `[end - step, end)`, keeps
//! what came out and, if that was not enough, moves `end` back and goes again.
//! The step grows when a window holds fewer records than its span suggested, so
//! that a walk over large gaps converges instead of crawling.

use vstd::prelude::*;
use vstd::string::*;
use crate::error::{broker_error, Error, ErrorCode};
use crate::read::batch::{held, saturating, saturating_difference, saturating_sum, DecodeOptions, Visibility};
use crate::read::filter::RecordFilter;
use crate::read::record::{Record, RecordView};
use crate::read::scan::wanted;

verus! {

/// Where a backward walk starts.
///
/// Both explicit anchors are inclusive upper bounds: `Offset(16733)` yields
/// 16733 and the records before it, and `Timestamp(t)` yields the last record
/// written at or before `t`. An anchor beyond a partition's log end is not an
/// error, that partition yields its own tail; and one below its log start
/// yields nothing.
#[derive(Debug, Clone, Copy, PartialEq, Eq, Structural)]
pub enum TailAnchor {
    /// The current end of the log.
    LogEnd,
    /// The same explicit offset in every partition.
    Offset(i64),
    /// The last record at or before a wall-clock time, in epoch milliseconds.
    Timestamp(i64),
}

impl Default for TailAnchor {
    fn default() -> (anchor: Self)
        ensures
            anchor == TailAnchor::LogEnd,
    {
        TailAnchor::LogEnd
    }
}

/// How to read the tail of a topic.
pub struct TailSpec {
    /// Topic.
    pub topic: String,
    /// Partitions, or `None` for every partition.
    pub partitions: Option<Vec<i32>>,
    /// Where the walk starts.
    pub anchor: TailAnchor,
    /// How many records to return, in total across partitions.
    pub limit: usize,
    /// Filter applied after decoding.
    pub filter: Option<RecordFilter>,
    /// Whether aborted-transaction records are visible.
    pub visibility: Visibility,
    /// Per-partition byte budget for one chunk.
    pub partition_max_bytes: i32,
    /// Whole-response byte budget.
    pub fetch_max_bytes: i32,
    /// Ceiling on a single batch's decompressed size.
    pub max_decompressed_bytes: usize,
    /// How many offsets to step back on the first chunk, or nothing above zero
    /// to derive it from the limit.
    pub initial_step: i64,
    /// Never step back more than this in one chunk, so that a single fetch
    /// stays bounded.
    pub max_step: i64,
}

/// A quotient, rounded up.
pub open spec fn ceiling(n: nat, d: nat) -> nat
    recommends
        d > 0,
{
    if n % d == 0 {
        n / d
    } else {
        n / d + 1
    }
}

/// A quotient, rounded up.
pub fn divided(n: usize, d: usize) -> (quotient: usize)
    requires
        d > 0,
    ensures
        quotient == ceiling(n as nat, d as nat),
        n > 0 ==> quotient > 0,
{
    let whole: usize = n / d;
    if n % d == 0 {
        proof {
            if n > 0 && whole == 0 {
                vstd::arithmetic::div_mod::lemma_fundamental_div_mod(n as int, d as int);
            }
        }
        whole
    } else {
        proof {
            vstd::arithmetic::div_mod::lemma_fundamental_div_mod(n as int, d as int);
            assert(whole < usize::MAX) by (nonlinear_arith)
                requires
                    n == d * whole + n % d,
                    n % d > 0,
                    d >= 1,
                    n <= usize::MAX,
            ;
        }
        whole + 1
    }
}

impl TailSpec {
    /// The last `limit` records of a topic.
    pub fn new(topic: &str, limit: usize) -> (spec: Self)
        ensures
            spec.topic@ == topic@,
            spec.partitions is None,
            spec.anchor == TailAnchor::LogEnd,
            spec.limit == limit,
            spec.filter is None,
            spec.visibility == Visibility::All,
            spec.partition_max_bytes == 1_048_576,
            spec.fetch_max_bytes == 8_388_608,
            spec.max_decompressed_bytes == 67_108_864,
            spec.initial_step == 0,
            spec.max_step == 100_000,
    {
        TailSpec {
            topic: topic.to_owned(),
            partitions: None,
            anchor: TailAnchor::LogEnd,
            limit,
            filter: None,
            visibility: Visibility::All,
            partition_max_bytes: 1024 * 1024,
            fetch_max_bytes: 8 * 1024 * 1024,
            max_decompressed_bytes: 64 * 1024 * 1024,
            initial_step: 0,
            max_step: 100_000,
        }
    }

    /// Restrict to specific partitions.
    #[must_use]
    pub fn partitions(self, partitions: Vec<i32>) -> (spec: Self)
        ensures
            spec == (TailSpec { partitions: Some(partitions), ..self }),
    {
        TailSpec { partitions: Some(partitions), ..self }
    }

    /// Walk backwards from somewhere other than the log end.
    #[must_use]
    pub fn ending_at(self, anchor: TailAnchor) -> (spec: Self)
        ensures
            spec == (TailSpec { anchor, ..self }),
    {
        TailSpec { anchor, ..self }
    }

    /// Filter records after decoding.
    #[must_use]
    pub fn filter(self, filter: RecordFilter) -> (spec: Self)
        ensures
            spec == (TailSpec { filter: Some(filter), ..self }),
    {
        TailSpec { filter: Some(filter), ..self }
    }

    /// Show or hide aborted-transaction records.
    #[must_use]
    pub fn visibility(self, visibility: Visibility) -> (spec: Self)
        ensures
            spec == (TailSpec { visibility, ..self }),
    {
        TailSpec { visibility, ..self }
    }

    /// How this walk decodes.
    pub open spec fn options(self) -> DecodeOptions {
        DecodeOptions {
            max_decompressed_bytes: self.max_decompressed_bytes,
            visibility: self.visibility,
        }
    }

    /// How this walk decodes.
    pub fn decode_options(&self) -> (options: DecodeOptions)
        ensures
            options == self.options(),
    {
        DecodeOptions {
            max_decompressed_bytes: self.max_decompressed_bytes,
            visibility: self.visibility,
        }
    }

    /// The first step size: the explicit one, or twice each partition's part
    /// of the limit, which leaves a little headroom because a window that lands
    /// one record short costs a whole round trip.
    pub open spec fn step_for(self, partitions: usize) -> i64 {
        if self.initial_step > 0 {
            self.initial_step
        } else {
            let share = ceiling(
                self.limit as nat,
                if partitions == 0 {
                    1
                } else {
                    partitions as nat
                },
            );
            let doubled = held(share + share);
            if doubled < 64 {
                64
            } else if doubled > i64::MAX {
                1024
            } else {
                doubled as i64
            }
        }
    }

    /// The first step size, derived from the limit when not set explicitly.
    pub fn first_step(&self, partitions: usize) -> (step: i64)
        ensures
            step == self.step_for(partitions),
    {
        if self.initial_step > 0 {
            return self.initial_step;
        }
        let among: usize = if partitions == 0 {
            1
        } else {
            partitions
        };
        let share: usize = divided(self.limit, among);
        let doubled: usize = share.saturating_add(share);
        if doubled < 64 {
            64
        } else if doubled as u64 > i64::MAX as u64 {
            1024
        } else {
            doubled as i64
        }
    }
}

/// The tail of one partition.
#[derive(Debug)]
pub struct PartitionTail {
    /// Partition.
    pub partition: i32,
    /// Records, oldest first.
    pub records: Vec<Record>,
    /// Batches that would not decode.
    pub malformed: usize,
    /// How many fetches this partition cost.
    pub fetches: usize,
    /// The partition's log start offset, as measured before the walk.
    pub log_start: i64,
    /// The partition's log end offset (exclusive), as measured before the walk.
    pub log_end: i64,
    /// `true` when the oldest record returned is the oldest the partition
    /// retains below the anchor. `false` means that records remain below
    /// `records[0]`, so a further page exists and can be anchored at
    /// `records[0].offset - 1`.
    pub reached_log_start: bool,
}

/// Records, as plain values.
pub open spec fn record_views(records: Seq<Record>) -> Seq<RecordView> {
    records.map_values(|record: Record| record@)
}

/// The instant to ask `ListOffsets` about for an inclusive timestamp anchor.
pub open spec fn probe_for(millis: i64) -> i64 {
    if millis < 0 {
        0
    } else {
        saturating(millis + 1)
    }
}

/// The instant to ask `ListOffsets` about for an inclusive timestamp anchor.
///
/// It answers with the first offset at or after an instant, so it is asked
/// about the millisecond after. Negative values are sentinels on the wire, so a
/// timestamp from before the epoch must not get there as it is.
pub fn timestamp_probe(millis: i64) -> (probe: i64)
    ensures
        probe == probe_for(millis),
{
    if millis < 0 {
        0
    } else {
        saturating_sum(millis, 1)
    }
}

/// No anchor asks about a negative instant, which would be a different question
/// altogether.
pub proof fn a_probe_is_never_a_sentinel(millis: i64)
    ensures
        probe_for(millis) >= 0,
        0 <= millis < i64::MAX ==> probe_for(millis) == millis + 1,
{
}

/// An exclusive upper bound, held inside what a partition retains.
pub open spec fn clamped_bound(bound: int, log_start: i64, log_end: i64) -> i64 {
    if bound > log_end {
        log_end
    } else if log_start > log_end {
        log_end
    } else if bound < log_start {
        log_start
    } else {
        bound as i64
    }
}

/// Holds an exclusive upper bound inside what the partition actually retains.
///
/// A bound above the log end becomes the log end, so that a partition which has
/// not reached the requested offset yields its own tail. A bound below the log
/// start becomes the log start, which leaves the walk nothing to do.
pub fn clamp_bound(bound: i64, log_start: i64, log_end: i64) -> (clamped: i64)
    ensures
        clamped == clamped_bound(bound as int, log_start, log_end),
{
    let lowest: i64 = if log_start < log_end {
        log_start
    } else {
        log_end
    };
    if bound < lowest {
        lowest
    } else if bound > log_end {
        log_end
    } else {
        bound
    }
}

/// What to ask `ListOffsets` to resolve an anchor, if anything.
pub fn anchor_probe(anchor: TailAnchor) -> (probe: Option<i64>)
    ensures
        probe == match anchor {
            TailAnchor::Timestamp(millis) => Some(probe_for(millis)),
            _ => None,
        },
{
    match anchor {
        TailAnchor::Timestamp(millis) => Some(timestamp_probe(millis)),
        _ => None,
    }
}

/// The exclusive upper bound a partition's walk starts from, given what its
/// probe was answered.
pub open spec fn bound_of(anchor: TailAnchor, log_start: i64, log_end: i64, at: Option<i64>) -> i64 {
    match anchor {
        TailAnchor::LogEnd => log_end,
        TailAnchor::Offset(offset) => clamped_bound(
            saturating(offset + 1) as int,
            log_start,
            log_end,
        ),
        TailAnchor::Timestamp(_) => match at {
            Some(offset) => clamped_bound(offset as int, log_start, log_end),
            // Nothing was written after the instant, so the whole partition is
            // at or before it.
            None => log_end,
        },
    }
}

/// The exclusive upper bound a partition's walk starts from, given what its
/// probe was answered.
pub fn resolve_anchor(anchor: TailAnchor, log_start: i64, log_end: i64, at: Option<i64>) -> (bound:
    i64)
    ensures
        bound == bound_of(anchor, log_start, log_end, at),
{
    match anchor {
        TailAnchor::LogEnd => log_end,
        TailAnchor::Offset(offset) => clamp_bound(saturating_sum(offset, 1), log_start, log_end),
        TailAnchor::Timestamp(_) => match at {
            Some(offset) => clamp_bound(offset, log_start, log_end),
            None => log_end,
        },
    }
}

/// Every anchor resolves to a bound inside the log, so the walk is the same
/// whatever it was anchored at; an explicit offset inside the log is included,
/// one beyond its end yields the partition's own tail, and one below its start
/// yields nothing.
pub proof fn an_anchor_is_an_inclusive_upper_bound(
    anchor: TailAnchor,
    log_start: i64,
    log_end: i64,
    at: Option<i64>,
)
    requires
        log_start <= log_end,
    ensures
        log_start <= bound_of(anchor, log_start, log_end, at) <= log_end,
        anchor matches TailAnchor::Offset(offset) ==> {
            &&& log_start <= offset < log_end ==> bound_of(anchor, log_start, log_end, at) == offset
                + 1
            &&& offset >= log_end ==> bound_of(anchor, log_start, log_end, at) == log_end
            &&& offset < log_start ==> bound_of(anchor, log_start, log_end, at) == log_start
        },
{
}

/// The partitions to walk: those that were asked for, or all that are listed.
pub fn partitions_to_walk(spec: &TailSpec, listed: Option<Vec<i32>>) -> (partitions: Result<
    Vec<i32>,
    Error,
>)
    ensures
        match listed {
            None => partitions matches Err(error) && error@ == broker_error(
                ErrorCode::UnknownTopicOrPartition,
                Some(spec.topic@),
            ),
            Some(listed) => partitions matches Ok(partitions) && partitions@ == wanted(
                spec.partitions,
                listed@,
            ),
        },
{
    match listed {
        None => Err(
            Error::from_code(ErrorCode::UnknownTopicOrPartition, Some(spec.topic.clone())),
        ),
        Some(listed) => Ok(
            match &spec.partitions {
                Some(partitions) => vstd::slice::slice_to_vec(partitions.as_slice()),
                None => listed,
            },
        ),
    }
}

/// One partition's backward walk, resumable so that its target can be raised
/// when another partition runs out of records.
#[derive(Debug)]
pub struct Walk {
    /// Partition.
    pub partition: i32,
    /// Who leads it.
    pub leader: i32,
    /// The first offset the log still holds.
    pub log_start: i64,
    /// The end of the log.
    pub log_end: i64,
    /// The exclusive upper bound of the window still to be read.
    pub window_end: i64,
    /// How far the next window reaches back.
    pub step: i64,
    /// What was found, in log order.
    pub collected: Vec<Record>,
    /// Batches that would not decode.
    pub malformed: usize,
    /// How many fetches this cost.
    pub fetches: usize,
    /// This walk's share of the topic-wide limit, granted in rounds.
    pub target: usize,
    /// Whether records older than `collected` were dropped to hold the limit.
    pub trimmed: bool,
}

/// A [`Walk`], as plain values.
pub struct WalkView {
    pub partition: i32,
    pub leader: i32,
    pub log_start: i64,
    pub log_end: i64,
    pub window_end: i64,
    pub step: i64,
    pub collected: Seq<RecordView>,
    pub malformed: usize,
    pub fetches: usize,
    pub target: usize,
    pub trimmed: bool,
}

impl View for Walk {
    type V = WalkView;

    open spec fn view(&self) -> WalkView {
        WalkView {
            partition: self.partition,
            leader: self.leader,
            log_start: self.log_start,
            log_end: self.log_end,
            window_end: self.window_end,
            step: self.step,
            collected: record_views(self.collected@),
            malformed: self.malformed,
            fetches: self.fetches,
            target: self.target,
            trimmed: self.trimmed,
        }
    }
}

/// Walks, as plain values.
pub open spec fn walk_views(walks: Seq<Walk>) -> Seq<WalkView> {
    walks.map_values(|walk: Walk| walk@)
}

/// The step after a window: larger when the window held fewer records than half
/// its span suggested and more are still wanted.
pub open spec fn grown_step(step: i64, span: int, yielded: nat, more: bool, max_step: i64) -> i64 {
    let density = if yielded > i64::MAX {
        i64::MAX as int
    } else {
        yielded as int
    };
    if density < span / 2 && more {
        let scale = if density == 0 {
            8int
        } else {
            let sparse = span / density;
            if sparse < 2 {
                2int
            } else if sparse > 8 {
                8int
            } else {
                sparse
            }
        };
        let grown = saturating(step * scale);
        if grown < 1 {
            1
        } else if grown > max_step {
            max_step
        } else {
            grown
        }
    } else {
        step
    }
}

impl WalkView {
    /// Whether offsets remain below the window.
    pub open spec fn has_more(self) -> bool {
        self.window_end > self.log_start
    }

    /// How many records count towards the topic-wide limit: what is in hand,
    /// up to what this walk was asked for.
    pub open spec fn kept(self) -> nat {
        if self.collected.len() < self.target {
            self.collected.len()
        } else {
            self.target as nat
        }
    }

    /// Whether a larger target could yield more records.
    pub open spec fn can_yield_more(self) -> bool {
        self.has_more() || self.collected.len() > self.target
    }

    /// The next window to read, if the target is not met and there is one.
    pub open spec fn next_window(self) -> Option<(i64, i64)> {
        if self.collected.len() < self.target && self.has_more() {
            let start = saturating(self.window_end - self.step);
            Some(
                (
                    if start > self.log_start {
                        start
                    } else {
                        self.log_start
                    },
                    self.window_end,
                ),
            )
        } else {
            None
        }
    }

    /// The walk after it took in a window that starts at `start`.
    ///
    /// Everything the window yielded is kept, even past the target: the walk
    /// may be resumed with a higher one, and what was dropped would then be
    /// skipped over.
    pub open spec fn with_window(
        self,
        start: i64,
        records: Seq<RecordView>,
        malformed: usize,
        fetches: usize,
        max_step: i64,
    ) -> WalkView {
        let span = saturating(self.window_end - start);
        WalkView {
            collected: records + self.collected,
            malformed: held(self.malformed as nat + malformed as nat),
            fetches: held(self.fetches as nat + fetches as nat),
            step: grown_step(
                self.step,
                if span < 1 {
                    1
                } else {
                    span as int
                },
                records.len(),
                records.len() + self.collected.len() < self.target,
                max_step,
            ),
            window_end: start,
            ..self
        }
    }

    /// The walk after over-collection past the target was dropped: the oldest
    /// records, since the walk collects backwards.
    pub open spec fn trimmed_to_target(self) -> WalkView {
        if self.collected.len() > self.target {
            WalkView {
                collected: self.collected.skip(self.collected.len() - self.target),
                trimmed: true,
                ..self
            }
        } else {
            self
        }
    }
}

impl Walk {
    /// Whether offsets remain below the window: the walk can yield more.
    pub fn has_more(&self) -> (more: bool)
        ensures
            more == self@.has_more(),
    {
        self.window_end > self.log_start
    }

    /// Records that count towards the topic-wide limit: what is in hand, capped
    /// at what this walk was asked for.
    pub fn kept(&self) -> (kept: usize)
        ensures
            kept == self@.kept(),
    {
        if self.collected.len() < self.target {
            self.collected.len()
        } else {
            self.target
        }
    }

    /// Whether granting this walk a larger target could yield more records:
    /// offsets remain below the window, or a window already over-delivered and
    /// the spare is in hand.
    pub fn can_yield_more(&self) -> (more: bool)
        ensures
            more == self@.can_yield_more(),
    {
        self.has_more() || self.collected.len() > self.target
    }

    /// Drops over-collection past the target: the oldest records.
    pub fn trim_to_target(&mut self)
        ensures
            final(self)@ == old(self)@.trimmed_to_target(),
    {
        if self.collected.len() > self.target {
            let over: usize = self.collected.len() - self.target;
            let ghost before = self.collected@;
            let newest = self.collected.split_off(over);
            self.collected = newest;
            self.trimmed = true;
            assert(record_views(self.collected@) =~= record_views(before).skip(over as int));
        }
    }

    /// The next window to read, if the target is not met and there is one.
    pub fn run_until(&self) -> (window: Option<(i64, i64)>)
        ensures
            window == self@.next_window(),
    {
        if self.collected.len() < self.target && self.window_end > self.log_start {
            let start: i64 = saturating_difference(self.window_end, self.step);
            Some(
                (
                    if start > self.log_start {
                        start
                    } else {
                        self.log_start
                    },
                    self.window_end,
                ),
            )
        } else {
            None
        }
    }

    /// Takes in a window.
    pub fn take_window(
        &mut self,
        start: i64,
        records: Vec<Record>,
        malformed: usize,
        fetches: usize,
        max_step: i64,
    )
        requires
            max_step >= 1,
        ensures
            final(self)@ == old(self)@.with_window(
                start,
                record_views(records@),
                malformed,
                fetches,
                max_step,
            ),
    {
        let ghost before = self@;
        let ghost views = record_views(records@);
        self.fetches = self.fetches.saturating_add(fetches);
        self.malformed = self.malformed.saturating_add(malformed);
        let yielded: usize = records.len();
        let mut collected = records;
        // In front of what is there: the walk goes backwards.
        collected.append(&mut self.collected);
        self.collected = collected;
        assert(record_views(self.collected@) =~= views + before.collected);
        let span: i64 = saturating_difference(self.window_end, start);
        let span: i64 = if span < 1 {
            1
        } else {
            span
        };
        let density: i64 = if yielded as u64 > i64::MAX as u64 {
            i64::MAX
        } else {
            yielded as i64
        };
        if density < span / 2 && self.collected.len() < self.target {
            self.step = grow_step(self.step, span, density, max_step);
        }
        self.window_end = start;
    }

    /// What the walk came to.
    pub fn finish(self) -> (tail: PartitionTail)
        ensures
            tail.partition == self.partition,
            record_views(tail.records@) == self@.collected,
            tail.malformed == self.malformed,
            tail.fetches == self.fetches,
            tail.log_start == self.log_start,
            tail.log_end == self.log_end,
            tail.reached_log_start == (!self@.has_more() && !self.trimmed),
    {
        let reached_log_start = !self.has_more() && !self.trimmed;
        PartitionTail {
            partition: self.partition,
            records: self.collected,
            malformed: self.malformed,
            fetches: self.fetches,
            log_start: self.log_start,
            log_end: self.log_end,
            reached_log_start,
        }
    }
}

/// The larger step after a window that under-delivered.
fn grow_step(step: i64, span: i64, density: i64, max_step: i64) -> (grown: i64)
    requires
        span >= 1,
        0 <= density < span as int / 2,
        max_step >= 1,
    ensures
        grown == grown_step(step, span as int, density as nat, true, max_step),
{
    let scale: i64 = if density == 0 {
        8
    } else {
        let sparse: i64 = span / density;
        if sparse < 2 {
            2
        } else if sparse > 8 {
            8
        } else {
            sparse
        }
    };
    assert(-8 * 0x8000_0000_0000_0000 <= step * scale <= 8 * 0x8000_0000_0000_0000)
        by (nonlinear_arith)
        requires
            2 <= scale <= 8,
            i64::MIN <= step <= i64::MAX,
    ;
    let exact: i128 = step as i128 * scale as i128;
    let grown: i64 = if exact > i64::MAX as i128 {
        i64::MAX
    } else if exact < i64::MIN as i128 {
        i64::MIN
    } else {
        exact as i64
    };
    if grown < 1 {
        1
    } else if grown > max_step {
        max_step
    } else {
        grown
    }
}

/// A window lies inside the log, below what was already read, and is never
/// empty; so a walk that takes it gets nearer the log start and never goes
/// past it.
pub proof fn a_window_stays_above_the_log_start(walk: WalkView)
    requires
        walk.step >= 1,
    ensures
        walk.next_window() matches Some((start, end)) ==> walk.log_start <= start < end && end
            == walk.window_end,
{
}

/// The step never leaves its bounds, and a window that under-delivered never
/// makes it smaller.
pub proof fn the_step_only_grows(step: i64, span: int, yielded: nat, more: bool, max_step: i64)
    requires
        1 <= step <= max_step,
        span >= 1,
    ensures
        step <= grown_step(step, span, yielded, more, max_step) <= max_step,
        yielded == 0 && more && span >= 2 && step * 8 <= max_step ==> grown_step(
            step,
            span,
            yielded,
            more,
            max_step,
        ) == step * 8,
{
    let density = if yielded > i64::MAX {
        i64::MAX as int
    } else {
        yielded as int
    };
    if density < span / 2 && more {
        let scale = if density == 0 {
            8int
        } else {
            let sparse = span / density;
            if sparse < 2 {
                2int
            } else if sparse > 8 {
                8int
            } else {
                sparse
            }
        };
        assert(step * scale >= step) by (nonlinear_arith)
            requires
                step >= 1,
                scale >= 1,
        ;
    }
}

/// Trimming keeps the newest records, as many as were asked for, and a trimmed
/// walk does not claim to have reached the bottom.
pub proof fn trimming_keeps_the_newest(walk: WalkView)
    ensures
        walk.trimmed_to_target().collected.len() == walk.kept(),
        forall|i: int|
            0 <= i < walk.kept() ==> #[trigger] walk.trimmed_to_target().collected[i]
                == walk.collected[i + (walk.collected.len() - walk.kept())],
        walk.collected.len() > walk.target ==> walk.trimmed_to_target().trimmed,
{
}

} // verus!
