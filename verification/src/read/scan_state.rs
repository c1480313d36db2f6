//! The forward scan as a state machine.
//!
//! A turn of the scan has two halves. [`ScanState::next_event`] hands out what
//! is due, or says what to fetch; the caller fetches, hands each answer to
//! [`ScanState::absorb`], and ends the turn with [`ScanState::resume`]. Nothing
//! happens between turns, so a scan that is dropped stops at once.

use std::collections::VecDeque;
use vstd::prelude::*;
use vstd::string::*;
use crate::error::{Error, ErrorKind, ErrorKindView, ErrorView};
use crate::keyed::grouped;
use crate::read::batch::{decode_partition, decoded, saturating, saturating_difference, saturating_sum, DecodedPartition, DecodedView, Visibility};
use crate::read::fetch::{
    fetched_views, group_by_leader, target_views, FetchTarget, FetchedPartition, FetchedView,
};
use crate::read::filter::{may_pass, passes};
use crate::read::offsets::{place, place_text};
use crate::read::record::{outcome_views, OutcomeView, Record, RecordOutcome};
use crate::read::scan::{
    cursor_views, event_views, reorder_window, should_fetch, timestamp_of, window_of, CursorView,
    EventView, PartitionCursor, ScanEvent, ScanProgress, ScanSpec,
};
use crate::text::{signed, signed_of};

verus! {

/// How many decoded records lie between two progress events.
pub const PROGRESS_EVERY: u64 = 1_000;

/// The state a scan carries between events.
pub struct ScanState {
    /// What to scan.
    pub spec: ScanSpec,
    /// Where each partition is.
    pub cursors: Vec<PartitionCursor>,
    /// How far the scan has got.
    pub progress: ScanProgress,
    /// Events that are due.
    pub pending: VecDeque<ScanEvent>,
    /// How many outcomes the partitions hold.
    pub buffered_total: u128,
    /// Whether the scan is over.
    pub done: bool,
    /// The scanned count at which the next progress event is due.
    pub next_progress_at: u64,
}

/// A [`ScanState`], as plain values.
pub struct ScanView {
    pub spec: ScanSpec,
    pub cursors: Seq<CursorView>,
    pub progress: ScanProgress,
    pub pending: Seq<EventView>,
    pub buffered_total: u128,
    pub done: bool,
    pub next_progress_at: u64,
}

impl View for ScanState {
    type V = ScanView;

    open spec fn view(&self) -> ScanView {
        ScanView {
            spec: self.spec,
            cursors: cursor_views(self.cursors@),
            progress: self.progress,
            pending: event_views(self.pending@),
            buffered_total: self.buffered_total,
            done: self.done,
            next_progress_at: self.next_progress_at,
        }
    }
}

/// How many outcomes partitions hold together.
pub open spec fn total_buffered(cursors: Seq<CursorView>) -> nat
    decreases cursors.len(),
{
    if cursors.len() == 0 {
        0
    } else {
        total_buffered(cursors.drop_last()) + cursors.last().buffered.len()
    }
}

/// How many partitions have something left to fetch or to emit.
pub open spec fn active(cursors: Seq<CursorView>) -> nat
    decreases cursors.len(),
{
    if cursors.len() == 0 {
        0
    } else {
        active(cursors.drop_last()) + if cursors.last().drained() {
            0nat
        } else {
            1nat
        }
    }
}

/// One more, held at the largest number.
pub open spec fn one_more(n: u64) -> u64 {
    if n == u64::MAX {
        n
    } else {
        (n + 1) as u64
    }
}

/// A sum, held at the largest number.
pub open spec fn capped(n: nat) -> u64 {
    if n > u64::MAX {
        u64::MAX
    } else {
        n as u64
    }
}

/// How many of some outcomes are decode failures.
pub open spec fn malformed_count(outcomes: Seq<OutcomeView>) -> nat
    decreases outcomes.len(),
{
    if outcomes.len() == 0 {
        0
    } else {
        malformed_count(outcomes.drop_last()) + if outcomes.last() is Malformed {
            1nat
        } else {
            0nat
        }
    }
}

/// Whether a scan that has come to `from` and reads no further than `to` keeps
/// an outcome.
///
/// A fetch begins at whatever batch holds the requested offset, so it routinely
/// hands back records from before it, and may hand back some from past the end
/// that a browse was planned against. Both are dropped. A malformed batch is
/// kept whatever its base, for it is there to say where the damage is, unless
/// its header shows that it lies past the end.
pub open spec fn wanted(from: i64, to: Option<i64>, outcome: OutcomeView) -> bool {
    match outcome {
        OutcomeView::Decoded(record) => from <= record.offset && (to matches Some(to)
            ==> record.offset < to),
        OutcomeView::Malformed { offset, last_offset, .. } => to matches Some(to) ==> last_offset
            is Some ==> offset < to,
    }
}

/// The outcomes that a scan keeps.
pub open spec fn kept(from: i64, to: Option<i64>, outcomes: Seq<OutcomeView>) -> Seq<OutcomeView>
    decreases outcomes.len(),
{
    if outcomes.len() == 0 {
        seq![]
    } else {
        let before = kept(from, to, outcomes.drop_last());
        if wanted(from, to, outcomes.last()) {
            before.push(outcomes.last())
        } else {
            before
        }
    }
}

/// The place of the first cursor of a partition.
pub open spec fn cursor_at(cursors: Seq<CursorView>, partition: i32) -> Option<int>
    decreases cursors.len(),
{
    if cursors.len() == 0 {
        None
    } else {
        match cursor_at(cursors.drop_last(), partition) {
            Some(at) => Some(at),
            None => if cursors.last().partition == partition {
                Some(cursors.len() - 1)
            } else {
                None
            },
        }
    }
}

/// The cursor whose head comes out next: the first of those whose head sorts
/// earliest.
pub open spec fn earliest_head(cursors: Seq<CursorView>) -> Option<int>
    decreases cursors.len(),
{
    if cursors.len() == 0 {
        None
    } else {
        let before = earliest_head(cursors.drop_last());
        match cursors.last().head_timestamp() {
            None => before,
            Some(timestamp) => match before {
                None => Some(cursors.len() - 1),
                Some(at) => if timestamp < cursors[at].head_timestamp()->Some_0 {
                    Some(cursors.len() - 1)
                } else {
                    before
                },
            },
        }
    }
}

/// Whether a partition that has more to read has nothing buffered.
pub open spec fn waiting(cursors: Seq<CursorView>) -> bool {
    exists|i: int|
        0 <= i < cursors.len() && !(#[trigger] cursors[i]).exhausted()
            && cursors[i].buffered.len() == 0
}

/// The targets to fetch, each with its leader, in the order of the cursors.
pub open spec fn targets_of(cursors: Seq<CursorView>, spec: ScanSpec, idle: bool) -> Seq<
    (i32, FetchTarget),
>
    decreases cursors.len(),
{
    if cursors.len() == 0 {
        seq![]
    } else {
        let before = targets_of(cursors.drop_last(), spec, idle);
        let cursor = cursors.last();
        if cursor.buffered.len() == 0 && (!cursor.exhausted() || (spec.follow && idle)) {
            before.push(
                (
                    cursor.leader,
                    FetchTarget {
                        partition: cursor.partition,
                        offset: cursor.next_offset,
                        max_bytes: spec.partition_max_bytes,
                    },
                ),
            )
        } else {
            before
        }
    }
}

/// What a partition whose first batch does not fit its budget is answered.
pub open spec fn oversized(spec: ScanSpec, partition: i32) -> ErrorView {
    ErrorView {
        kind: ErrorKindView::Unsupported(
            place(spec.topic@, partition)
                + " has a batch larger than partition_max_bytes ("@ + signed_of(
                spec.partition_max_bytes as int,
            ) + " bytes); raise ScanSpec::partition_max_bytes"@,
        ),
        retriable: false,
        needs_metadata_refresh: false,
    }
}

/// A cursor after an answer's own offsets were taken in: it does not stand
/// before the log's start, and the end of a scan that follows the log does not
/// stay behind the log's. A browse ends where the log did when it started.
pub open spec fn moved(cursor: CursorView, fetched: FetchedView, spec: ScanSpec) -> CursorView {
    let end = match spec.visibility {
        Visibility::All => fetched.high_watermark,
        Visibility::CommittedOnly => fetched.last_stable_offset,
    };
    CursorView {
        end_offset: if spec.follow && end > cursor.end_offset && end >= 0 {
            end
        } else {
            cursor.end_offset
        },
        next_offset: if fetched.log_start_offset > cursor.next_offset {
            fetched.log_start_offset
        } else {
            cursor.next_offset
        },
        ..cursor
    }
}

/// The offset that a scan reads up to, if it has one.
pub open spec fn window_end(cursor: CursorView, follow: bool) -> Option<i64> {
    if follow {
        None
    } else {
        Some(cursor.end_offset)
    }
}

/// Where to go on after batches up to `last`: past them, in any case further
/// on, and in a browse not past the end.
pub open spec fn past(cursor: CursorView, last: i64, follow: bool) -> i64 {
    let after = saturating(last + 1);
    let further = saturating(cursor.next_offset + 1);
    let next = if after > further {
        after
    } else {
        further
    };
    if follow || next <= cursor.end_offset {
        next
    } else if cursor.end_offset > cursor.next_offset {
        cursor.end_offset
    } else {
        cursor.next_offset
    }
}

/// Where to go on when no more than some outcomes up to `last` could be kept:
/// past them, never back, and in a browse not past the end.
pub open spec fn past_kept(cursor: CursorView, last: i64, follow: bool) -> i64 {
    let after = saturating(last + 1);
    if after <= cursor.next_offset {
        cursor.next_offset
    } else if follow || after <= cursor.end_offset {
        after
    } else if cursor.end_offset > cursor.next_offset {
        cursor.end_offset
    } else {
        cursor.next_offset
    }
}

/// A cursor after an answer to a fetch from `from` was decoded, or what is wrong
/// with the answer. No more than `most` outcomes are kept; the rest is fetched
/// again when there is room for it.
pub open spec fn filled(
    from: i64,
    cursor: CursorView,
    decoded: DecodedView,
    spec: ScanSpec,
    most: nat,
) -> Result<CursorView, ErrorView> {
    match decoded.last_offset {
        Some(last) => {
            let found = kept(from, window_end(cursor, spec.follow), decoded.outcomes);
            if found.len() <= most {
                // Whatever the batches came to, they were read: records,
                // damage, markers, aborted records, or nothing that compaction
                // left.
                Ok(
                    CursorView {
                        next_offset: past(cursor, last, spec.follow),
                        buffered: cursor.buffered + found,
                        ..cursor
                    },
                )
            } else if most == 0 {
                Ok(cursor)
            } else {
                let first = found.take(most as int);
                Ok(
                    CursorView {
                        next_offset: past_kept(cursor, first.last().last_offset(), spec.follow),
                        buffered: cursor.buffered + first,
                        ..cursor
                    },
                )
            }
        },
        None => if !decoded.truncated_tail {
            Ok(CursorView { finished: !spec.follow, ..cursor })
        } else {
            Err(oversized(spec, cursor.partition))
        },
    }
}

impl ScanView {
    /// What holds of every scan: the running total is what the partitions hold,
    /// and that is no more than the ceiling allows.
    pub open spec fn wf(self) -> bool {
        &&& self.buffered_total == total_buffered(self.cursors)
        &&& self.buffered_total <= self.spec.max_buffered_records
        &&& forall|i: int|
            0 <= i < self.cursors.len() ==> (#[trigger] self.cursors[i]).buffered.len()
                <= usize::MAX
        &&& self.cursors.len() <= usize::MAX
    }

    /// Whether as many records were emitted as were asked for.
    pub open spec fn limit_reached(self) -> bool {
        self.spec.limit matches Some(limit) && self.progress.records_emitted >= limit
    }

    /// Whether there is nothing left to read. A following scan is never there:
    /// every partition at its log end is the steady state of a tail.
    pub open spec fn all_exhausted(self) -> bool {
        !self.spec.follow && forall|i: int|
            0 <= i < self.cursors.len() ==> (#[trigger] self.cursors[i]).drained()
    }

    /// Whether the buffer is as full as it may get before anything more is
    /// fetched.
    pub open spec fn at_ceiling(self) -> bool {
        self.buffered_total >= self.spec.max_buffered_records
    }

    /// How many more outcomes the ceiling has room for.
    pub open spec fn room(self) -> nat {
        if self.at_ceiling() {
            0
        } else {
            (self.spec.max_buffered_records - self.buffered_total) as nat
        }
    }

    /// How many outcomes one answer may add: an even share of the ceiling among
    /// the partitions that are still being read, so that each of them can be
    /// represented; at least one; and no more than there is room for.
    pub open spec fn share(self) -> nat {
        let even = if active(self.cursors) <= 1 {
            self.spec.max_buffered_records as nat
        } else {
            self.spec.max_buffered_records as nat / active(self.cursors)
        };
        let least = if even < 1 {
            1
        } else {
            even
        };
        if least < self.room() {
            least
        } else {
            self.room()
        }
    }

    /// The state after an emit was forced before every partition was
    /// represented.
    pub open spec fn degraded(self) -> ScanView {
        let window = window_of(self.spec.max_buffered_records, active(self.cursors));
        if window > self.progress.reorder_window {
            ScanView {
                progress: ScanProgress { reorder_window: window, ..self.progress },
                ..self
            }
        } else {
            self
        }
    }

    /// The state after the scan ended.
    pub open spec fn ended(self) -> ScanView {
        ScanView {
            done: true,
            progress: ScanProgress { partitions_active: 0, ..self.progress },
            ..self
        }
    }

    /// The state after the head of a cursor was taken out.
    pub open spec fn popped(self, at: int) -> ScanView {
        let cursor = self.cursors[at];
        ScanView {
            cursors: self.cursors.update(
                at,
                CursorView { buffered: cursor.buffered.skip(1), ..cursor },
            ),
            buffered_total: (self.buffered_total - 1) as u128,
            progress: ScanProgress {
                records_scanned: one_more(self.progress.records_scanned),
                offsets_consumed: saturating(self.progress.offsets_consumed + 1),
                ..self.progress
            },
            ..self
        }
    }

    /// The state after a cursor that was taken from announced that it is
    /// complete, if it is. A tail announces nothing: its partitions drain every
    /// time it catches up.
    pub open spec fn announced(self, at: int) -> ScanView {
        let cursor = self.cursors[at];
        if cursor.drained() && !self.spec.follow {
            ScanView {
                progress: ScanProgress {
                    partitions_active: active(self.cursors) as usize,
                    ..self.progress
                },
                pending: self.pending.push(
                    EventView::PartitionComplete {
                        partition: cursor.partition,
                        last_offset: saturating(cursor.next_offset - 1),
                    },
                ),
                ..self
            }
        } else {
            self
        }
    }

    /// The state after a progress event was made due, if it is time for one.
    pub open spec fn reported(self) -> ScanView {
        if self.progress.records_scanned >= self.next_progress_at {
            ScanView {
                next_progress_at: capped(self.next_progress_at as nat + PROGRESS_EVERY as nat),
                pending: self.pending.push(EventView::Progress(self.progress)),
                ..self
            }
        } else {
            self
        }
    }

    /// The state after the head of a cursor was taken out and all that goes
    /// with that was noted.
    pub open spec fn taken(self, at: int) -> ScanView {
        self.popped(at).announced(at).reported()
    }

    /// The state after the first event that is due was handed out.
    pub open spec fn handed_out(self) -> (ScanView, Option<EventView>) {
        if self.pending.len() == 0 {
            (self, None)
        } else {
            (ScanView { pending: self.pending.skip(1), ..self }, Some(self.pending[0]))
        }
    }

    /// The state before anything is taken out: if a partition is missing from
    /// the buffer, the order may suffer.
    pub open spec fn braced(self) -> ScanView {
        if waiting(self.cursors) {
            self.degraded()
        } else {
            self
        }
    }

    /// The outcome that comes out next, if one may.
    pub open spec fn up_next(self) -> Option<OutcomeView> {
        if waiting(self.cursors) && !self.at_ceiling() {
            None
        } else {
            match earliest_head(self.cursors) {
                None => None,
                Some(at) => Some(self.cursors[at].buffered[0]),
            }
        }
    }

    /// Whether it is in order to take the verdict `passes` of the outcome that
    /// comes out next.
    pub open spec fn may_judge(self, passes: bool) -> bool {
        match self.up_next() {
            Some(OutcomeView::Decoded(record)) => may_pass(self.spec.filter, record, passes),
            _ => true,
        }
    }

    /// The state after emitting, and what came out. A record that does not
    /// pass the filter is no event, but the scan still advanced, and what that
    /// made due comes out instead.
    pub open spec fn emitted(self, passes: bool) -> (ScanView, Option<EventView>) {
        if waiting(self.cursors) && !self.at_ceiling() {
            (self, None)
        } else {
            match earliest_head(self.cursors) {
                None => (self.braced(), None),
                Some(at) => {
                    let cursor = self.cursors[at];
                    let after = self.braced().taken(at);
                    match cursor.buffered[0] {
                        OutcomeView::Decoded(record) => if passes {
                            (
                                ScanView {
                                    progress: ScanProgress {
                                        records_emitted: one_more(after.progress.records_emitted),
                                        ..after.progress
                                    },
                                    ..after
                                },
                                Some(EventView::Record(record)),
                            )
                        } else {
                            after.handed_out()
                        },
                        OutcomeView::Malformed { offset, last_offset, raw, reason } => (
                            after,
                            Some(
                                EventView::Malformed {
                                    topic: self.spec.topic@,
                                    partition: cursor.partition,
                                    offset,
                                    last_offset,
                                    raw,
                                    reason,
                                },
                            ),
                        ),
                    }
                },
            }
        }
    }

    /// The state after one fetched partition was taken in, and whether anything
    /// was read from it.
    pub open spec fn with_partition(self, fetched: FetchedView) -> (ScanView, Result<
        bool,
        ErrorView,
    >) {
        match cursor_at(self.cursors, fetched.partition) {
            None => (self, Ok(false)),
            Some(at) => {
                let outcome = decoded(
                    self.spec.topic@,
                    fetched.partition,
                    fetched.records,
                    fetched.aborted,
                    self.spec.options(),
                );
                let cursor = moved(self.cursors[at], fetched, self.spec);
                let from = self.cursors[at].next_offset;
                match filled(from, cursor, outcome, self.spec, self.share()) {
                    Err(error) => (
                        ScanView { cursors: self.cursors.update(at, cursor), ..self },
                        Err(error),
                    ),
                    Ok(after) => (
                        ScanView {
                            cursors: self.cursors.update(at, after),
                            buffered_total: (self.buffered_total + after.buffered.len()
                                - cursor.buffered.len()) as u128,
                            progress: ScanProgress {
                                malformed_batches: capped(
                                    self.progress.malformed_batches as nat + malformed_count(
                                        after.buffered.skip(cursor.buffered.len() as int),
                                    ),
                                ),
                                ..self.progress
                            },
                            ..self
                        },
                        Ok(outcome.outcomes.len() > 0),
                    ),
                }
            },
        }
    }

    /// The state after a leader's answer was taken in, and whether anything was
    /// read from it. The first partition that fails ends it.
    pub open spec fn absorbed(self, fetched: Seq<FetchedView>) -> (ScanView, Result<
        bool,
        ErrorView,
    >)
        decreases fetched.len(),
    {
        if fetched.len() == 0 {
            (self, Ok(false))
        } else {
            let (before, read) = self.absorbed(fetched.drop_last());
            match read {
                Err(_) => (before, read),
                Ok(read) => {
                    let (after, more) = before.with_partition(fetched.last());
                    match more {
                        Err(error) => (after, Err(error)),
                        Ok(more) => (after, Ok(read || more)),
                    }
                },
            }
        }
    }

    /// The state after deciding what to fetch, and what to fetch from which
    /// leader. At the ceiling nothing is: what is there comes out first.
    pub open spec fn refilled(self) -> (ScanView, Seq<(i32, Seq<FetchTarget>)>) {
        if self.at_ceiling() {
            (self.degraded(), seq![])
        } else {
            (self, grouped(targets_of(self.cursors, self.spec, self.buffered_total == 0)))
        }
    }

    /// The first half of a turn.
    pub open spec fn begun(self) -> (ScanView, TurnView) {
        if self.pending.len() > 0 {
            (self.handed_out().0, TurnView::Event(self.pending[0]))
        } else if self.done {
            (self, TurnView::Over)
        } else if self.limit_reached() {
            (self.ended(), TurnView::Event(EventView::Done(self.ended().progress)))
        } else {
            (self.refilled().0, TurnView::Fetch(self.refilled().1))
        }
    }

    /// The second half of a turn.
    pub open spec fn resumed(self, passes: bool) -> (ScanView, Option<EventView>) {
        let (after, event) = self.emitted(passes);
        if event is None && after.all_exhausted() {
            (after.ended(), Some(EventView::Done(after.ended().progress)))
        } else {
            (after, event)
        }
    }
}

/// What the first half of a turn comes to.
#[derive(Debug)]
pub enum Turn {
    /// An event, and the turn is over.
    Event(ScanEvent),
    /// There are no more events.
    Over,
    /// Each leader's targets are to be fetched, then the turn goes on.
    Fetch(Vec<(i32, Vec<FetchTarget>)>),
}

/// A [`Turn`], as plain values.
pub enum TurnView {
    Event(EventView),
    Over,
    Fetch(Seq<(i32, Seq<FetchTarget>)>),
}

impl View for Turn {
    type V = TurnView;

    open spec fn view(&self) -> TurnView {
        match self {
            Turn::Event(event) => TurnView::Event(event@),
            Turn::Over => TurnView::Over,
            Turn::Fetch(groups) => TurnView::Fetch(target_views(groups@)),
        }
    }
}

/// An optional event, as plain values.
pub open spec fn event_of(event: Option<ScanEvent>) -> Option<EventView> {
    match event {
        Some(event) => Some(event@),
        None => None,
    }
}

/// Replacing a cursor changes the total by what it holds more or less.
pub proof fn lemma_total_update(cursors: Seq<CursorView>, at: int, cursor: CursorView)
    requires
        0 <= at < cursors.len(),
    ensures
        total_buffered(cursors.update(at, cursor)) == total_buffered(cursors)
            - cursors[at].buffered.len() + cursor.buffered.len(),
        total_buffered(cursors) >= cursors[at].buffered.len(),
    decreases cursors.len(),
{
    let after = cursors.update(at, cursor);
    if at == cursors.len() - 1 {
        assert(after.drop_last() =~= cursors.drop_last());
    } else {
        lemma_total_update(cursors.drop_last(), at, cursor);
        assert(after.drop_last() =~= cursors.drop_last().update(at, cursor));
    }
}

/// Partitions that are all at their end and empty are not counted, and no more
/// are counted than there are.
proof fn lemma_active(cursors: Seq<CursorView>)
    ensures
        active(cursors) <= cursors.len(),
    decreases cursors.len(),
{
    if cursors.len() > 0 {
        lemma_active(cursors.drop_last());
    }
}

/// The cursor that comes next has something, and nothing sorts before it.
pub proof fn lemma_earliest_head(cursors: Seq<CursorView>)
    ensures
        match earliest_head(cursors) {
            Some(at) => {
                &&& 0 <= at < cursors.len()
                &&& cursors[at].buffered.len() > 0
                &&& forall|i: int|
                    0 <= i < cursors.len() && (#[trigger] cursors[i]).buffered.len() > 0
                        ==> timestamp_of(cursors[at].buffered[0]) <= timestamp_of(
                        cursors[i].buffered[0],
                    )
            },
            None => forall|i: int|
                0 <= i < cursors.len() ==> (#[trigger] cursors[i]).buffered.len() == 0,
        },
    decreases cursors.len(),
{
    if cursors.len() > 0 {
        let before = cursors.drop_last();
        lemma_earliest_head(before);
        assert forall|i: int| 0 <= i < before.len() implies before[i] == cursors[i] by {}
        assert(cursors.last() == cursors[cursors.len() - 1]);
        match earliest_head(cursors) {
            Some(at) => {
                assert forall|i: int|
                    0 <= i < cursors.len() && (#[trigger] cursors[i]).buffered.len() > 0 implies timestamp_of(
                    cursors[at].buffered[0],
                ) <= timestamp_of(cursors[i].buffered[0]) by {
                    if i < before.len() {
                        assert(before[i] == cursors[i]);
                        assert(before[i].buffered.len() > 0);
                    }
                }
            },
            None => {
                assert forall|i: int| 0 <= i < cursors.len() implies (#[trigger] cursors[i]).buffered.len()
                    == 0 by {
                    if i < before.len() {
                        assert(before[i] == cursors[i]);
                    }
                }
            },
        }
    }
}

/// The cursor of a partition is one of its own, and the first.
pub proof fn lemma_cursor_at(cursors: Seq<CursorView>, partition: i32)
    ensures
        match cursor_at(cursors, partition) {
            Some(at) => {
                &&& 0 <= at < cursors.len()
                &&& cursors[at].partition == partition
                &&& forall|i: int| 0 <= i < at ==> (#[trigger] cursors[i]).partition != partition
            },
            None => forall|i: int|
                0 <= i < cursors.len() ==> (#[trigger] cursors[i]).partition != partition,
        },
    decreases cursors.len(),
{
    if cursors.len() > 0 {
        let before = cursors.drop_last();
        lemma_cursor_at(before, partition);
        assert forall|i: int| 0 <= i < before.len() implies before[i] == cursors[i] by {}
        assert(cursors.last() == cursors[cursors.len() - 1]);
        match cursor_at(cursors, partition) {
            Some(at) => {
                assert forall|i: int| 0 <= i < at implies (#[trigger] cursors[i]).partition
                    != partition by {
                    assert(before[i] == cursors[i]);
                }
            },
            None => {
                assert forall|i: int| 0 <= i < cursors.len() implies (#[trigger] cursors[i]).partition
                    != partition by {
                    if i < before.len() {
                        assert(before[i] == cursors[i]);
                    }
                }
            },
        }
    }
}

impl ScanState {
    /// Whether as many records were emitted as were asked for.
    pub fn limit_reached(&self) -> (reached: bool)
        ensures
            reached == self@.limit_reached(),
    {
        match self.spec.limit {
            Some(limit) => self.progress.records_emitted >= limit as u64,
            None => false,
        }
    }

    /// Whether there is nothing left to read.
    pub fn all_exhausted(&self) -> (exhausted: bool)
        ensures
            exhausted == self@.all_exhausted(),
    {
        if self.spec.follow {
            return false;
        }
        let ghost views = self@.cursors;
        let mut at: usize = 0;
        while at < self.cursors.len()
            invariant
                at <= self.cursors.len(),
                views == self@.cursors,
                !self.spec.follow,
                forall|i: int| 0 <= i < at ==> (#[trigger] views[i]).drained(),
            decreases self.cursors.len() - at,
        {
            assert(views[at as int] == self.cursors@[at as int]@);
            if !self.cursors[at].drained() {
                return false;
            }
            at += 1;
        }
        true
    }

    /// How many partitions have something left to fetch or to emit.
    fn active(&self) -> (count: usize)
        ensures
            count == active(self@.cursors),
    {
        let ghost views = self@.cursors;
        let mut count: usize = 0;
        let mut at: usize = 0;
        assert(views.take(0) =~= seq![]);
        while at < self.cursors.len()
            invariant
                at <= self.cursors.len(),
                count <= at,
                views == self@.cursors,
                count == active(views.take(at as int)),
            decreases self.cursors.len() - at,
        {
            assert(views[at as int] == self.cursors@[at as int]@);
            assert(views.take(at + 1).drop_last() =~= views.take(at as int));
            assert(views.take(at + 1).last() == views[at as int]);
            if !self.cursors[at].drained() {
                count += 1;
            }
            at += 1;
        }
        assert(views.take(at as int) =~= views);
        count
    }

    /// Whether a partition that has more to read has nothing buffered.
    fn waiting(&self) -> (waiting: bool)
        ensures
            waiting == self::waiting(self@.cursors),
    {
        let ghost views = self@.cursors;
        let mut at: usize = 0;
        while at < self.cursors.len()
            invariant
                at <= self.cursors.len(),
                views == self@.cursors,
                forall|i: int|
                    0 <= i < at ==> (#[trigger] views[i]).exhausted() || views[i].buffered.len() > 0,
            decreases self.cursors.len() - at,
        {
            assert(views[at as int] == self.cursors@[at as int]@);
            if !self.cursors[at].exhausted() && self.cursors[at].buffered.len() == 0 {
                return true;
            }
            at += 1;
        }
        false
    }

    /// The cursor whose head comes out next.
    fn choose_head(&self) -> (choice: Option<usize>)
        ensures
            match choice {
                Some(at) => earliest_head(self@.cursors) == Some(at as int),
                None => earliest_head(self@.cursors) is None,
            },
    {
        let ghost views = self@.cursors;
        let mut choice: Option<usize> = None;
        let mut earliest: i64 = 0;
        let mut at: usize = 0;
        assert(views.take(0) =~= seq![]);
        while at < self.cursors.len()
            invariant
                at <= self.cursors.len(),
                views == self@.cursors,
                match choice {
                    Some(choice) => {
                        &&& choice < at
                        &&& earliest_head(views.take(at as int)) == Some(choice as int)
                        &&& views[choice as int].head_timestamp() == Some(earliest)
                    },
                    None => earliest_head(views.take(at as int)) is None,
                },
            decreases self.cursors.len() - at,
        {
            assert(views[at as int] == self.cursors@[at as int]@);
            assert(views.take(at + 1).drop_last() =~= views.take(at as int));
            assert(views.take(at + 1).last() == views[at as int]);
            if let Some(timestamp) = self.cursors[at].head_timestamp() {
                match choice {
                    Some(_) => {
                        if timestamp < earliest {
                            choice = Some(at);
                            earliest = timestamp;
                        }
                    },
                    None => {
                        choice = Some(at);
                        earliest = timestamp;
                    },
                }
            }
            at += 1;
        }
        assert(views.take(at as int) =~= views);
        choice
    }

    /// Notes that the buffer ceiling forced an emit before every partition was
    /// represented, when there is a merge to degrade.
    ///
    /// Within one partition the order is exact, so a scan of one that is simply
    /// big raises no caveat. The widest window ever reached is kept: the caveat
    /// describes the whole scan.
    pub fn note_ordering_degraded(&mut self)
        ensures
            final(self)@ == old(self)@.degraded(),
    {
        let window: usize = reorder_window(self.spec.max_buffered_records, self.active());
        if window > self.progress.reorder_window {
            self.progress.reorder_window = window;
        }
    }

    /// Ends the scan.
    pub fn finish(&mut self) -> (event: ScanEvent)
        ensures
            final(self)@ == old(self)@.ended(),
            event@ == EventView::Done(final(self)@.progress),
    {
        self.done = true;
        self.progress.partitions_active = 0;
        ScanEvent::Done(self.progress)
    }

    /// Ends the scan because a fetch failed.
    pub fn fail(&mut self)
        ensures
            final(self)@ == (ScanView { done: true, ..old(self)@ }),
    {
        self.done = true;
    }
}

impl ScanState {
    /// Takes out the head of a cursor and notes all that goes with that.
    fn take_head(&mut self, at: usize) -> (outcome: RecordOutcome)
        requires
            old(self)@.wf(),
            at < old(self)@.cursors.len(),
            old(self)@.cursors[at as int].buffered.len() > 0,
        ensures
            final(self)@.wf(),
            final(self)@ == old(self)@.taken(at as int),
            outcome@ == old(self)@.cursors[at as int].buffered[0],
    {
        let ghost before = self@;
        let ghost held = self.cursors@[at as int].buffered@;
        proof {
            lemma_total_update(before.cursors, at as int, before.cursors[at as int]);
        }
        let popped = self.cursors[at].buffered.pop_front();
        let outcome = popped.unwrap();
        self.buffered_total = self.buffered_total - 1;
        if self.progress.records_scanned < u64::MAX {
            self.progress.records_scanned += 1;
        }
        self.progress.offsets_consumed = saturating_sum(self.progress.offsets_consumed, 1);
        proof {
            assert(outcome_views(held.subrange(1, held.len() as int)) =~= outcome_views(held).skip(
                1,
            ));
            assert(self@.cursors =~= before.popped(at as int).cursors);
            assert(self@ == before.popped(at as int));
            lemma_total_update(before.cursors, at as int, self@.cursors[at as int]);
            assert forall|i: int| 0 <= i < self@.cursors.len() implies (#[trigger] self@.cursors[i]).buffered.len()
                <= usize::MAX by {
                assert(before.cursors[i].buffered.len() <= usize::MAX);
            }
        }
        let ghost popped = self@;
        if self.cursors[at].drained() && !self.spec.follow {
            self.progress.partitions_active = self.active();
            let ghost due = self.pending@;
            let event = ScanEvent::PartitionComplete {
                partition: self.cursors[at].partition,
                last_offset: saturating_sum(self.cursors[at].next_offset, -1),
            };
            self.pending.push_back(event);
            assert(self@.pending =~= popped.announced(at as int).pending);
        }
        assert(self@ == popped.announced(at as int));
        let ghost announced = self@;
        if self.progress.records_scanned >= self.next_progress_at {
            self.next_progress_at = self.next_progress_at.saturating_add(PROGRESS_EVERY);
            self.pending.push_back(ScanEvent::Progress(self.progress));
            assert(self@.pending =~= announced.reported().pending);
        }
        assert(self@ == announced.reported());
        outcome
    }

    /// The first event that is due.
    fn hand_out(&mut self) -> (event: Option<ScanEvent>)
        ensures
            (final(self)@, event_of(event)) == old(self)@.handed_out(),
    {
        let ghost before = self@;
        let ghost due = self.pending@;
        let event = self.pending.pop_front();
        proof {
            if due.len() > 0 {
                assert(event_views(due.subrange(1, due.len() as int)) =~= event_views(due).skip(1));
                assert(event_views(due)[0] == due[0]@);
            }
        }
        event
    }

    /// Emits the earliest buffered record, if it is safe to do so.
    ///
    /// Ordering is only exact while every unfinished partition is represented
    /// in the buffer. When one is not, nothing comes out, so that the caller
    /// fetches; at the memory ceiling something does, and the scan says so.
    pub fn emit_next(&mut self) -> (event: Option<ScanEvent>)
        requires
            old(self)@.wf(),
        ensures
            final(self)@.wf(),
            exists|passes: bool|
                #![trigger old(self)@.emitted(passes)]
                old(self)@.may_judge(passes) && (final(self)@, event_of(event)) == old(self)@.emitted(passes),
    {
        let ghost before = self@;
        let waiting = self.waiting();
        let at_ceiling = self.buffered_total >= self.spec.max_buffered_records as u128;
        if waiting && !at_ceiling {
            assert(before.emitted(true) == (before, None::<EventView>));
            return None;
        }
        if waiting {
            self.note_ordering_degraded();
        }
        assert(self@ == before.braced());
        assert(self@.cursors == before.cursors);
        let at: usize = match self.choose_head() {
            Some(at) => at,
            None => {
                assert(before.emitted(true) == (self@, None::<EventView>));
                return None;
            },
        };
        proof {
            lemma_earliest_head(before.cursors);
        }
        let partition: i32 = self.cursors[at].partition;
        assert(self@.cursors[at as int] == self.cursors@[at as int]@);
        let outcome = self.take_head(at);
        let ghost after = self@;
        match outcome {
            RecordOutcome::Decoded(record) => {
                let through = passes(&self.spec.filter, &record);
                if !through {
                    assert(before.may_judge(false));
                    let event = self.hand_out();
                    assert((self@, event_of(event)) == before.emitted(false));
                    return event;
                }
                if self.progress.records_emitted < u64::MAX {
                    self.progress.records_emitted += 1;
                }
                let event = Some(ScanEvent::Record(record));
                assert(before.may_judge(true));
                assert((self@, event_of(event)) == before.emitted(true));
                event
            },
            RecordOutcome::Malformed { offset, last_offset, raw, reason } => {
                let event = Some(
                    ScanEvent::Malformed {
                        topic: self.spec.topic.clone(),
                        partition,
                        offset,
                        last_offset,
                        raw,
                        reason,
                    },
                );
                assert((self@, event_of(event)) == before.emitted(true));
                event
            },
        }
    }

    /// Decides what to fetch. At the ceiling that is nothing: what is there
    /// comes out first.
    ///
    /// Partitions are grouped by leader, so that one broker gets one request. A
    /// partition at its log end is only worth polling when there is nothing
    /// else to emit.
    pub fn refill(&mut self) -> (groups: Vec<(i32, Vec<FetchTarget>)>)
        ensures
            (final(self)@, target_views(groups@)) == old(self)@.refilled(),
    {
        if self.buffered_total >= self.spec.max_buffered_records as u128 {
            self.note_ordering_degraded();
            let groups: Vec<(i32, Vec<FetchTarget>)> = Vec::new();
            assert(target_views(groups@) =~= seq![]);
            return groups;
        }
        let idle = self.buffered_total == 0;
        let ghost views = self@.cursors;
        let mut targets: Vec<(i32, FetchTarget)> = Vec::new();
        let mut at: usize = 0;
        assert(views.take(0) =~= seq![]);
        while at < self.cursors.len()
            invariant
                at <= self.cursors.len(),
                views == self@.cursors,
                targets@ == targets_of(views.take(at as int), self.spec, idle),
            decreases self.cursors.len() - at,
        {
            assert(views[at as int] == self.cursors@[at as int]@);
            assert(views.take(at + 1).drop_last() =~= views.take(at as int));
            assert(views.take(at + 1).last() == views[at as int]);
            let cursor = &self.cursors[at];
            if cursor.buffered.len() == 0 && should_fetch(
                !cursor.exhausted(),
                self.spec.follow,
                idle,
            ) {
                targets.push(
                    (
                        cursor.leader,
                        FetchTarget {
                            partition: cursor.partition,
                            offset: cursor.next_offset,
                            max_bytes: self.spec.partition_max_bytes,
                        },
                    ),
                );
            }
            at += 1;
        }
        assert(views.take(at as int) =~= views);
        group_by_leader(&targets)
    }
}

/// What came of putting outcomes into a buffer.
struct Kept {
    /// How many were put there.
    count: usize,
    /// How many of those are decode failures.
    bad: usize,
    /// The last offset that the last of them covers.
    last: i64,
    /// Whether some had no room.
    more: bool,
}

/// Puts the outcomes that a scan keeps at the end of a buffer, as long as there
/// is room.
fn keep(
    buffered: &mut VecDeque<RecordOutcome>,
    from: i64,
    to: Option<i64>,
    outcomes: Vec<RecordOutcome>,
    most: usize,
) -> (result: Kept)
    ensures
        ({
            let found = kept(from, to, outcome_views(outcomes@));
            let first = if found.len() <= most {
                found
            } else {
                found.take(most as int)
            };
            &&& outcome_views(final(buffered)@) == outcome_views(old(buffered)@) + first
            &&& result.count == first.len()
            &&& result.bad == malformed_count(first)
            &&& first.len() > 0 ==> result.last == first.last().last_offset()
            &&& result.more == (found.len() > most)
        }),
        final(buffered)@.len() <= usize::MAX,
{
    let ghost views = outcome_views(outcomes@);
    let ghost before = outcome_views(buffered@);
    let ghost mut first: Seq<OutcomeView> = seq![];
    let mut result = Kept { count: 0, bad: 0, last: from, more: false };
    assert(views.take(0) =~= seq![]);
    assert(before + first =~= before);
    for outcome in iter: outcomes
        invariant
            iter.seq() == outcomes@,
            views == outcome_views(outcomes@),
            first == if kept(from, to, views.take(iter.index())).len() <= most {
                kept(from, to, views.take(iter.index()))
            } else {
                kept(from, to, views.take(iter.index())).take(most as int)
            },
            result.bad <= result.count <= most,
            result.count == first.len(),
            result.bad == malformed_count(first),
            first.len() > 0 ==> result.last == first.last().last_offset(),
            result.more == (kept(from, to, views.take(iter.index())).len() > most),
            outcome_views(buffered@) == before + first,
    {
        let ghost earlier = kept(from, to, views.take(iter.index()));
        let ghost found = kept(from, to, views.take(iter.index() + 1));
        proof {
            assert(views[iter.index()] == outcome@);
            assert(views.take(iter.index() + 1).drop_last() =~= views.take(iter.index()));
            assert(views.take(iter.index() + 1).last() == views[iter.index()]);
        }
        let wanted_one = match &outcome {
            RecordOutcome::Decoded(record) => from <= record.offset && match to {
                Some(to) => record.offset < to,
                None => true,
            },
            RecordOutcome::Malformed { offset, last_offset, .. } => match to {
                Some(to) => last_offset.is_none() || *offset < to,
                None => true,
            },
        };
        let ghost held = buffered@;
        if wanted_one {
            assert(found == earlier.push(outcome@));
            if result.count < most {
                proof {
                    assert(earlier.len() <= most ==> earlier.len() < most);
                    assert(first == earlier);
                    assert(first.push(outcome@).drop_last() =~= first);
                    first = first.push(outcome@);
                }
                if outcome.is_malformed() {
                    result.bad = result.bad + 1;
                }
                result.last = outcome.last_offset();
                result.count = result.count + 1;
                buffered.push_back(outcome);
                assert(outcome_views(buffered@) =~= outcome_views(held).push(outcome@));
                assert(outcome_views(buffered@) =~= before + first);
            } else {
                result.more = true;
                assert(found.take(most as int) =~= first);
            }
        } else {
            assert(found == earlier);
        }
    }
    assert(views.take(views.len() as int) =~= views);
    let length: usize = buffered.len();
    result
}

/// What a partition whose first batch does not fit its budget is answered.
fn oversized_error(spec: &ScanSpec, partition: i32) -> (error: Error)
    ensures
        error@ == oversized(*spec, partition),
{
    let mut text = place_text(spec.topic.as_str(), partition);
    text.append(" has a batch larger than partition_max_bytes (");
    text.append(signed(spec.partition_max_bytes as i64).as_str());
    text.append(" bytes); raise ScanSpec::partition_max_bytes");
    Error {
        kind: ErrorKind::Unsupported(text),
        retriable: false,
        needs_metadata_refresh: false,
    }
}

/// Takes in an answer's own offsets.
fn move_cursor(cursor: &mut PartitionCursor, fetched: &FetchedPartition, spec: &ScanSpec)
    ensures
        final(cursor)@ == moved(old(cursor)@, fetched@, *spec),
{
    // Under `read_committed` the log's usable end is the last stable offset:
    // everything past it is inside a transaction whose outcome is not decided.
    let end: i64 = match spec.visibility {
        Visibility::All => fetched.high_watermark,
        Visibility::CommittedOnly => fetched.last_stable_offset,
    };
    if spec.follow && end >= 0 && end > cursor.end_offset {
        cursor.end_offset = end;
    }
    // A partition whose start was deleted out from under the scan.
    if fetched.log_start_offset > cursor.next_offset {
        cursor.next_offset = fetched.log_start_offset;
    }
}

/// Takes in what an answer to a fetch from `from` decoded to, and counts what
/// was kept of it and the decode failures among that.
fn fill(
    from: i64,
    cursor: &mut PartitionCursor,
    decoded: DecodedPartition,
    spec: &ScanSpec,
    most: usize,
    Ghost(outcome): Ghost<DecodedView>,
) -> (counts: Result<(usize, usize), Error>)
    requires
        decoded.is(outcome),
        old(cursor)@.buffered.len() <= usize::MAX,
    ensures
        match filled(from, old(cursor)@, outcome, *spec, most as nat) {
            Ok(after) => {
                &&& final(cursor)@ == after
                &&& counts matches Ok((count, bad)) && count == after.buffered.len() - old(
                    cursor,
                )@.buffered.len() && bad == malformed_count(
                    after.buffered.skip(old(cursor)@.buffered.len() as int),
                ) && count <= most
            },
            Err(failure) => {
                &&& *final(cursor) == *old(cursor)
                &&& counts matches Err(error) && error@ == failure
            },
        },
        final(cursor)@.buffered.len() <= usize::MAX,
{
    let last: i64 = match decoded.last_offset {
        Some(last) => last,
        None => {
            if !decoded.truncated_tail {
                // For a browse that is the end of the partition; for a tail it
                // is an idle moment.
                cursor.finished = !spec.follow;
                proof {
                    let held = cursor@.buffered;
                    assert(held.skip(held.len() as int) =~= seq![]);
                }
                return Ok((0, 0));
            }
            return Err(oversized_error(spec, cursor.partition));
        },
    };
    let to: Option<i64> = if spec.follow {
        None
    } else {
        Some(cursor.end_offset)
    };
    let ghost held = outcome_views(cursor.buffered@);
    let ghost found = kept(from, to, outcome.outcomes);
    let result = keep(&mut cursor.buffered, from, to, decoded.outcomes, most);
    proof {
        let first = if found.len() <= most {
            found
        } else {
            found.take(most as int)
        };
        assert((held + first).skip(held.len() as int) =~= first);
        assert(most == 0 ==> held + first =~= held);
    }
    if result.count == 0 && result.more {
        return Ok((0, 0));
    }
    let at: i64 = cursor.next_offset;
    // Past the whole of what came, if that could be kept; and then never
    // standing still, for a header can be too damaged to say where its batch
    // ends.
    let after: i64 = saturating_sum(if result.more { result.last } else { last }, 1);
    let least: i64 = if result.more {
        at
    } else {
        saturating_sum(at, 1)
    };
    let next: i64 = if after > least {
        after
    } else {
        least
    };
    cursor.next_offset = if spec.follow || next <= cursor.end_offset {
        next
    } else if cursor.end_offset > at {
        cursor.end_offset
    } else {
        at
    };
    Ok((result.count, result.bad))
}

impl ScanState {
    /// The cursor of a partition.
    fn find_cursor(&self, partition: i32) -> (place: Option<usize>)
        ensures
            match place {
                Some(at) => cursor_at(self@.cursors, partition) == Some(at as int) && at
                    < self.cursors@.len(),
                None => cursor_at(self@.cursors, partition) is None,
            },
    {
        let ghost views = self@.cursors;
        proof {
            lemma_cursor_at(views, partition);
        }
        let mut at: usize = 0;
        while at < self.cursors.len()
            invariant
                at <= self.cursors.len(),
                views == self@.cursors,
                forall|i: int| 0 <= i < at ==> (#[trigger] views[i]).partition != partition,
                match cursor_at(views, partition) {
                    Some(at) => {
                        &&& 0 <= at < views.len()
                        &&& views[at].partition == partition
                        &&& forall|i: int|
                            0 <= i < at ==> (#[trigger] views[i]).partition != partition
                    },
                    None => forall|i: int|
                        0 <= i < views.len() ==> (#[trigger] views[i]).partition != partition,
                },
            decreases self.cursors.len() - at,
        {
            assert(views[at as int] == self.cursors@[at as int]@);
            if self.cursors[at].partition == partition {
                return Some(at);
            }
            at += 1;
        }
        None
    }

    /// How many outcomes one answer may add.
    fn share(&self) -> (most: usize)
        requires
            self@.wf(),
        ensures
            most == self@.share(),
    {
        let ceiling: usize = self.spec.max_buffered_records;
        let room: usize = ceiling - self.buffered_total as usize;
        let merging: usize = self.active();
        let even: usize = if merging <= 1 {
            ceiling
        } else {
            ceiling / merging
        };
        let least: usize = if even < 1 {
            1
        } else {
            even
        };
        if least < room {
            least
        } else {
            room
        }
    }

    /// Takes in one fetched partition, and says whether anything was read from
    /// it.
    fn absorb_partition(&mut self, fetched: FetchedPartition) -> (read: Result<bool, Error>)
        requires
            old(self)@.wf(),
        ensures
            final(self)@.wf(),
            final(self)@ == old(self)@.with_partition(fetched@).0,
            match read {
                Ok(read) => old(self)@.with_partition(fetched@).1 == Ok::<_, ErrorView>(read),
                Err(error) => old(self)@.with_partition(fetched@).1 == Err::<bool, _>(error@),
            },
    {
        let ghost before = self@;
        let at: usize = match self.find_cursor(fetched.partition) {
            Some(at) => at,
            None => {
                return Ok(false);
            },
        };
        let ghost place = at as int;
        let ghost first = before.cursors[place];
        proof {
            lemma_cursor_at(before.cursors, fetched.partition);
            lemma_total_update(before.cursors, place, first);
            assert(first == self.cursors@[place]@);
        }
        let ghost cursor = moved(first, fetched@, self.spec);
        let most: usize = self.share();
        let from: i64 = self.cursors[at].next_offset;
        move_cursor(&mut self.cursors[at], &fetched, &self.spec);
        let ghost outcome = decoded(
            self.spec.topic@,
            fetched.partition,
            fetched@.records,
            fetched@.aborted,
            self.spec.options(),
        );
        let options = self.spec.decode_options();
        let decoded = decode_partition(
            self.spec.topic.as_str(),
            fetched.partition,
            fetched.records,
            fetched.aborted.as_slice(),
            &options,
        );
        let read = decoded.outcomes.len() > 0;
        let filling = fill(
            from,
            &mut self.cursors[at],
            decoded,
            &self.spec,
            most,
            Ghost(outcome),
        );
        proof {
            let after = self.cursors@[place]@;
            assert(self@.cursors =~= before.cursors.update(place, after));
            lemma_total_update(before.cursors, place, after);
            assert forall|i: int| 0 <= i < self@.cursors.len() implies (#[trigger] self@.cursors[i]).buffered.len()
                <= usize::MAX by {
                if i != place {
                    assert(before.cursors[i].buffered.len() <= usize::MAX);
                }
            }
        }
        let (count, bad): (usize, usize) = match filling {
            Ok(counts) => counts,
            Err(error) => {
                return Err(error);
            },
        };
        self.progress.malformed_batches = self.progress.malformed_batches.saturating_add(
            bad as u64,
        );
        self.buffered_total = self.buffered_total + count as u128;
        Ok(read)
    }

    /// Takes in one leader's answer, and says whether anything was read from
    /// it.
    pub fn absorb(&mut self, fetched: Vec<FetchedPartition>) -> (read: Result<bool, Error>)
        requires
            old(self)@.wf(),
        ensures
            final(self)@.wf(),
            final(self)@ == old(self)@.absorbed(fetched_views(fetched@)).0,
            match read {
                Ok(read) => old(self)@.absorbed(fetched_views(fetched@)).1 == Ok::<_, ErrorView>(
                    read,
                ),
                Err(error) => old(self)@.absorbed(fetched_views(fetched@)).1 == Err::<bool, _>(
                    error@,
                ),
            },
    {
        let ghost before = self@;
        let ghost views = fetched_views(fetched@);
        let mut read = false;
        assert(views.take(0) =~= seq![]);
        for partition in iter: fetched
            invariant
                iter.seq() == fetched@,
                views == fetched_views(fetched@),
                self@.wf(),
                before == old(self)@,
                before.absorbed(views.take(iter.index())) == (self@, Ok::<bool, ErrorView>(read)),
        {
            proof {
                assert(views[iter.index()] == partition@);
                assert(views.take(iter.index() + 1).drop_last() =~= views.take(iter.index()));
                assert(views.take(iter.index() + 1).last() == views[iter.index()]);
            }
            match self.absorb_partition(partition) {
                Ok(more) => {
                    read = read || more;
                },
                Err(error) => {
                    proof {
                        lemma_absorbed_stops(before, views, iter.index() + 1);
                    }
                    return Err(error);
                },
            }
        }
        assert(views.take(views.len() as int) =~= views);
        Ok(read)
    }

    /// The first half of a turn: an event that is due, the end, or what to
    /// fetch.
    pub fn next_event(&mut self) -> (turn: Turn)
        requires
            old(self)@.wf(),
        ensures
            final(self)@.wf(),
            (final(self)@, turn@) == old(self)@.begun(),
    {
        if self.pending.len() > 0 {
            let event = self.hand_out();
            return Turn::Event(event.unwrap());
        }
        if self.done {
            return Turn::Over;
        }
        if self.limit_reached() {
            return Turn::Event(self.finish());
        }
        Turn::Fetch(self.refill())
    }

    /// The second half of a turn, once every leader's answer was taken in: an
    /// event, or none when another turn is needed to get to one.
    pub fn resume(&mut self) -> (event: Option<ScanEvent>)
        requires
            old(self)@.wf(),
        ensures
            final(self)@.wf(),
            exists|passes: bool|
                #![trigger old(self)@.resumed(passes)]
                old(self)@.may_judge(passes) && (final(self)@, event_of(event)) == old(self)@.resumed(passes),
    {
        let ghost before = self@;
        let event = self.emit_next();
        let ghost verdict = choose|passes: bool|
            #![trigger before.emitted(passes)]
            before.may_judge(passes) && (self@, event_of(event)) == before.emitted(passes);
        match event {
            Some(event) => {
                assert((self@, Some(event@)) == before.resumed(verdict));
                Some(event)
            },
            None => {
                if self.all_exhausted() {
                    let event = self.finish();
                    assert((self@, Some(event@)) == before.resumed(verdict));
                    Some(event)
                } else {
                    assert((self@, None::<EventView>) == before.resumed(verdict));
                    None
                }
            },
        }
    }
}

/// A failure in the first partitions of an answer ends the taking in.
proof fn lemma_absorbed_stops(state: ScanView, fetched: Seq<FetchedView>, n: int)
    requires
        0 <= n <= fetched.len(),
        state.absorbed(fetched.take(n)).1 is Err,
    ensures
        state.absorbed(fetched) == state.absorbed(fetched.take(n)),
    decreases fetched.len(),
{
    if n == fetched.len() {
        assert(fetched.take(n) =~= fetched);
    } else {
        assert(fetched.drop_last().take(n) =~= fetched.take(n));
        lemma_absorbed_stops(state, fetched.drop_last(), n);
    }
}

/// What a cursor sets out to consume.
pub open spec fn range_of(cursor: CursorView) -> nat {
    let range = saturating(cursor.end_offset - cursor.start_offset);
    if range > 0 {
        range as nat
    } else {
        0
    }
}

/// What cursors set out to consume together.
pub open spec fn ranges_of(cursors: Seq<CursorView>) -> nat
    decreases cursors.len(),
{
    if cursors.len() == 0 {
        0
    } else {
        ranges_of(cursors.drop_last()) + range_of(cursors.last())
    }
}

/// What announces where a cursor starts.
pub open spec fn start_event(cursor: CursorView) -> EventView {
    EventView::PartitionStarted {
        partition: cursor.partition,
        start_offset: cursor.start_offset,
        substituted: cursor.substituted,
    }
}

/// The state a scan starts out in, from where its partitions start. Every
/// partition announces that first.
pub open spec fn started(spec: ScanSpec, cursors: Seq<CursorView>) -> ScanView {
    ScanView {
        spec,
        cursors: cursors.map_values(
            |cursor: CursorView| CursorView { substituted: None, ..cursor },
        ),
        progress: ScanProgress {
            records_emitted: 0,
            records_scanned: 0,
            malformed_batches: 0,
            offsets_consumed: 0,
            offsets_total: saturating(ranges_of(cursors) as int),
            partitions_active: cursors.len() as usize,
            partitions_planned: cursors.len() as usize,
            reorder_window: 0,
        },
        pending: cursors.map_values(|cursor: CursorView| start_event(cursor)),
        buffered_total: 0,
        done: false,
        next_progress_at: PROGRESS_EVERY,
    }
}

/// Cursors without outcomes hold none together.
pub proof fn lemma_total_empty(cursors: Seq<CursorView>)
    requires
        forall|i: int| 0 <= i < cursors.len() ==> (#[trigger] cursors[i]).buffered.len() == 0,
    ensures
        total_buffered(cursors) == 0,
    decreases cursors.len(),
{
    if cursors.len() > 0 {
        let before = cursors.drop_last();
        assert forall|i: int| 0 <= i < before.len() implies (#[trigger] before[i]).buffered.len()
            == 0 by {
            assert(before[i] == cursors[i]);
        }
        lemma_total_empty(before);
        assert(cursors.last() == cursors[cursors.len() - 1]);
    }
}

/// Starts a forward scan from what [`plan`](crate::read::scan::plan) worked
/// out.
pub fn scan(spec: ScanSpec, planned: Vec<PartitionCursor>) -> (state: ScanState)
    requires
        forall|i: int|
            0 <= i < planned@.len() ==> (#[trigger] cursor_views(planned@)[i]).buffered.len() == 0,
    ensures
        state@ == started(spec, cursor_views(planned@)),
        state@.wf(),
{
    let ghost views = cursor_views(planned@);
    let width: usize = planned.len();
    let mut cursors: Vec<PartitionCursor> = Vec::new();
    let mut pending: VecDeque<ScanEvent> = VecDeque::new();
    let mut offsets_total: i64 = 0;
    assert(views.take(0) =~= seq![]);
    assert(event_views(pending@) =~= seq![]);
    assert(cursor_views(cursors@) =~= seq![]);
    for cursor in iter: planned
        invariant
            iter.seq() == planned@,
            views == cursor_views(planned@),
            offsets_total == saturating(ranges_of(views.take(iter.index())) as int),
            cursors@.len() == iter.index(),
            pending@.len() == iter.index(),
            forall|i: int|
                0 <= i < iter.index() ==> (#[trigger] cursors@[i])@ == (CursorView {
                    substituted: None,
                    ..views[i]
                }),
            forall|i: int| 0 <= i < iter.index() ==> (#[trigger] pending@[i])@ == start_event(views[i]),
    {
        let ghost view = cursor@;
        proof {
            assert(views[iter.index()] == view);
            assert(views.take(iter.index() + 1).drop_last() =~= views.take(iter.index()));
            assert(views.take(iter.index() + 1).last() == view);
        }
        pending.push_back(
            ScanEvent::PartitionStarted {
                partition: cursor.partition,
                start_offset: cursor.start_offset,
                substituted: cursor.substituted,
            },
        );
        let range: i64 = saturating_difference(cursor.end_offset, cursor.start_offset);
        if range > 0 {
            offsets_total = saturating_sum(offsets_total, range);
        }
        let moved = PartitionCursor { substituted: None, ..cursor };
        cursors.push(moved);
    }
    proof {
        assert(views.take(views.len() as int) =~= views);
        let start = started(spec, views);
        assert(cursor_views(cursors@) =~= start.cursors);
        assert(event_views(pending@) =~= start.pending);
        assert forall|i: int| 0 <= i < start.cursors.len() implies (#[trigger] start.cursors[i]).buffered.len()
            == 0 by {
            assert(views[i].buffered.len() == 0);
        }
        lemma_total_empty(start.cursors);
    }
    ScanState {
        spec,
        cursors,
        progress: ScanProgress {
            records_emitted: 0,
            records_scanned: 0,
            malformed_batches: 0,
            offsets_consumed: 0,
            offsets_total,
            partitions_active: width,
            partitions_planned: width,
            reorder_window: 0,
        },
        pending,
        buffered_total: 0,
        done: false,
        next_progress_at: PROGRESS_EVERY,
    }
}

} // verus!
