//! The forward scan: what to read, where each partition starts, and what comes
//! out.
//!
//! Within a partition records come out in exact log order, always. Across
//! partitions they come out in timestamp order whenever the buffer holds a
//! record of every partition still being read; when the buffer's ceiling forces
//! one out before that, it is the earliest among those buffered, and
//! [`ScanProgress::reorder_window`] says how far the order may have stretched.
//!
//! Memory is bounded by [`ScanSpec::max_buffered_records`], whatever the number
//! of partitions: none keeps more than its share of an answer.

use std::collections::VecDeque;
use vstd::prelude::*;
use vstd::string::*;
use crate::error::{broker_error, Error, ErrorCode};
use crate::read::batch::{DecodeOptions, Visibility};
use crate::read::filter::RecordFilter;
use crate::read::record::{
    outcome_views, DecodeError, OutcomeView, Record, RecordOutcome, RecordView,
};

verus! {

/// Where a scan starts.
#[derive(Debug, Clone, Copy, PartialEq, Eq, Structural)]
pub enum StartPosition {
    /// The first offset the log still holds.
    Earliest,
    /// The end of the log: a scan that will only see new records.
    Latest,
    /// An explicit offset, the same one in every partition.
    Offset(i64),
    /// The first record at or after a wall-clock timestamp, in epoch
    /// milliseconds.
    Timestamp(i64),
}

/// What to scan.
pub struct ScanSpec {
    /// Topic.
    pub topic: String,
    /// Partitions, or `None` for every partition.
    pub partitions: Option<Vec<i32>>,
    /// Where to start.
    pub from: StartPosition,
    /// Stop after this many emitted records, or `None` to reach the end.
    pub limit: Option<usize>,
    /// Whether to keep waiting at the end of the log instead of finishing.
    ///
    /// `false`, the default, is a browse: the scan plans against the log end as
    /// it stood when it started, and [`ScanEvent::Done`] means the window is
    /// read. `true` is a tail: reaching the end is not an ending, and the scan
    /// only finishes when it is dropped or a `limit` is reached.
    pub follow: bool,
    /// Filter applied after decoding.
    pub filter: Option<RecordFilter>,
    /// Whether aborted-transaction records are visible.
    pub visibility: Visibility,
    /// Per-partition byte budget for a single fetch.
    pub partition_max_bytes: i32,
    /// Whole-response byte budget for a single fetch.
    pub fetch_max_bytes: i32,
    /// How long a fetch may wait for data.
    pub max_wait_ms: i32,
    /// The scan's memory ceiling, in decoded records held at once, whatever the
    /// number of partitions. What an answer brings past a partition's even share
    /// of it is fetched again when there is room.
    pub max_buffered_records: usize,
    /// Ceiling on a single batch's decompressed size.
    pub max_decompressed_bytes: usize,
}

impl ScanSpec {
    /// Scan a whole topic from the beginning.
    pub fn new(topic: &str) -> (spec: Self)
        ensures
            spec.topic@ == topic@,
            spec.partitions is None,
            spec.from == StartPosition::Earliest,
            spec.limit is None,
            !spec.follow,
            spec.filter is None,
            spec.visibility == Visibility::All,
            spec.partition_max_bytes == 1_048_576,
            spec.fetch_max_bytes == 8_388_608,
            spec.max_wait_ms == 500,
            spec.max_buffered_records == 10_000,
            spec.max_decompressed_bytes == 67_108_864,
    {
        ScanSpec {
            topic: topic.to_owned(),
            partitions: None,
            from: StartPosition::Earliest,
            limit: None,
            follow: false,
            filter: None,
            visibility: Visibility::All,
            partition_max_bytes: 1024 * 1024,
            fetch_max_bytes: 8 * 1024 * 1024,
            max_wait_ms: 500,
            max_buffered_records: 10_000,
            max_decompressed_bytes: 64 * 1024 * 1024,
        }
    }

    /// Restrict to specific partitions.
    #[must_use]
    pub fn partitions(self, partitions: Vec<i32>) -> (spec: Self)
        ensures
            spec == (ScanSpec { partitions: Some(partitions), ..self }),
    {
        ScanSpec { partitions: Some(partitions), ..self }
    }

    /// Start somewhere other than the beginning.
    #[must_use]
    pub fn from(self, from: StartPosition) -> (spec: Self)
        ensures
            spec == (ScanSpec { from, ..self }),
    {
        ScanSpec { from, ..self }
    }

    /// Stop after `limit` records.
    #[must_use]
    pub fn limit(self, limit: usize) -> (spec: Self)
        ensures
            spec == (ScanSpec { limit: Some(limit), ..self }),
    {
        ScanSpec { limit: Some(limit), ..self }
    }

    /// Keep the scan open at the end of the log, waiting for new records.
    ///
    /// Turns [`StartPosition::Latest`] from a scan of nothing into a tail. It
    /// is still not a consumer: there is no group, no membership and no commit.
    #[must_use]
    pub fn following(self) -> (spec: Self)
        ensures
            spec == (ScanSpec { follow: true, ..self }),
    {
        ScanSpec { follow: true, ..self }
    }

    /// Filter records after decoding.
    #[must_use]
    pub fn filter(self, filter: RecordFilter) -> (spec: Self)
        ensures
            spec == (ScanSpec { filter: Some(filter), ..self }),
    {
        ScanSpec { filter: Some(filter), ..self }
    }

    /// Show or hide aborted-transaction records.
    #[must_use]
    pub fn visibility(self, visibility: Visibility) -> (spec: Self)
        ensures
            spec == (ScanSpec { visibility, ..self }),
    {
        ScanSpec { visibility, ..self }
    }

    /// How this scan decodes.
    pub open spec fn options(self) -> DecodeOptions {
        DecodeOptions {
            max_decompressed_bytes: self.max_decompressed_bytes,
            visibility: self.visibility,
        }
    }

    /// How this scan decodes.
    pub fn decode_options(&self) -> (options: DecodeOptions)
        ensures
            options == self.options(),
    {
        DecodeOptions {
            max_decompressed_bytes: self.max_decompressed_bytes,
            visibility: self.visibility,
        }
    }
}

/// How far a scan has got. The counts stop at their type's largest number.
#[derive(Debug, Clone, Copy, PartialEq, Eq, Structural)]
pub struct ScanProgress {
    /// Records emitted so far, after filtering.
    pub records_emitted: u64,
    /// Records decoded so far, before filtering.
    pub records_scanned: u64,
    /// Batches that would not decode.
    pub malformed_batches: u64,
    /// Offsets consumed across every partition.
    pub offsets_consumed: i64,
    /// Offsets the scan set out to consume, from the initial offset ranges.
    ///
    /// Compaction and retention mean this is an upper bound, not an exact
    /// count, so it is best shown as a proportion.
    pub offsets_total: i64,
    /// Partitions still being read. Zero on the final event: it counts what is
    /// left. For the merge's width see [`ScanProgress::partitions_planned`].
    pub partitions_active: usize,
    /// Partitions the scan set out to read: the widest the merge has been.
    /// Never changes over the life of the scan.
    pub partitions_planned: usize,
    /// Roughly how far apart, in records, two records from different
    /// partitions may have been emitted relative to timestamp order.
    ///
    /// `0` means cross-partition timestamp order held throughout, including,
    /// always, when the merge is one partition wide.
    pub reorder_window: usize,
}

/// A count of offsets as a `u32`, held at its ends.
pub open spec fn narrowed(n: i64) -> u32 {
    if n < 0 {
        0
    } else if n > u32::MAX {
        u32::MAX
    } else {
        n as u32
    }
}

impl ScanProgress {
    /// Completion as a numerator and a denominator, never more than whole, or
    /// `None` when the total is not yet known.
    pub fn fraction(&self) -> (fraction: Option<(u32, u32)>)
        ensures
            match fraction {
                None => self.offsets_total <= 0,
                Some((consumed, total)) => {
                    &&& self.offsets_total > 0
                    &&& total == narrowed(self.offsets_total)
                    &&& consumed == if narrowed(self.offsets_consumed) < total {
                        narrowed(self.offsets_consumed)
                    } else {
                        total
                    }
                },
            },
    {
        if self.offsets_total <= 0 {
            return None;
        }
        let consumed: u32 = narrow(self.offsets_consumed);
        let total: u32 = narrow(self.offsets_total);
        Some(
            (
                if consumed < total {
                    consumed
                } else {
                    total
                },
                total,
            ),
        )
    }
}

/// A count of offsets as a `u32`, held at its ends.
fn narrow(n: i64) -> (count: u32)
    ensures
        count == narrowed(n),
{
    if n < 0 {
        0
    } else if n > u32::MAX as i64 {
        u32::MAX
    } else {
        n as u32
    }
}

/// Why a partition's scan starts somewhere other than where it was asked to.
///
/// The scan substitutes, because a partial browse beats an error; this says so,
/// per partition, so that the caller can tell "read from where you asked" apart
/// from "read from somewhere else".
#[derive(Debug, Clone, Copy, PartialEq, Eq, Structural)]
pub enum StartSubstitution {
    /// [`StartPosition::Offset`] named an offset the partition no longer
    /// retains; the scan starts at the log start instead.
    OffsetBelowLogStart {
        /// The offset that was asked for.
        requested: i64,
        /// The first offset the partition still holds, where the scan starts.
        log_start: i64,
    },
    /// [`StartPosition::Offset`] named an offset the partition has not
    /// reached; the scan starts at the log end instead.
    OffsetBeyondLogEnd {
        /// The offset that was asked for.
        requested: i64,
        /// The partition's log end, where the scan starts.
        log_end: i64,
    },
    /// [`StartPosition::Timestamp`] resolved to no offset on this partition,
    /// and the scan starts at the log end.
    TimestampUnresolved {
        /// The instant that was asked about, in epoch milliseconds.
        requested: i64,
        /// The partition's log end, where the scan starts.
        log_end: i64,
    },
}

/// What a scan emits.
#[derive(Debug, Clone)]
pub enum ScanEvent {
    /// Where a partition's scan actually starts: one per partition, before any
    /// record. `substituted` is `None` when the requested [`StartPosition`] was
    /// honoured exactly.
    PartitionStarted {
        /// Partition.
        partition: i32,
        /// The first offset the scan will read.
        start_offset: i64,
        /// The substitution that was made, when the requested position could
        /// not be honoured.
        substituted: Option<StartSubstitution>,
    },
    /// A decoded record.
    Record(Record),
    /// A batch that would not decode. The scan continues.
    Malformed {
        /// Topic.
        topic: String,
        /// Partition.
        partition: i32,
        /// First offset the batch claimed.
        offset: i64,
        /// Last offset the batch claimed, when its header said.
        last_offset: Option<i64>,
        /// The raw batch.
        raw: Vec<u8>,
        /// Why.
        reason: DecodeError,
    },
    /// Periodic progress.
    Progress(ScanProgress),
    /// A partition reached its end offset.
    PartitionComplete {
        /// Partition.
        partition: i32,
        /// The last offset read.
        last_offset: i64,
    },
    /// The scan finished. Always the last event.
    Done(ScanProgress),
}

/// A [`ScanEvent`], as plain values.
pub enum EventView {
    PartitionStarted {
        partition: i32,
        start_offset: i64,
        substituted: Option<StartSubstitution>,
    },
    Record(RecordView),
    Malformed {
        topic: Seq<char>,
        partition: i32,
        offset: i64,
        last_offset: Option<i64>,
        raw: Seq<u8>,
        reason: Seq<char>,
    },
    Progress(ScanProgress),
    PartitionComplete { partition: i32, last_offset: i64 },
    Done(ScanProgress),
}

impl View for ScanEvent {
    type V = EventView;

    open spec fn view(&self) -> EventView {
        match self {
            ScanEvent::PartitionStarted { partition, start_offset, substituted } =>
                EventView::PartitionStarted {
                partition: *partition,
                start_offset: *start_offset,
                substituted: *substituted,
            },
            ScanEvent::Record(record) => EventView::Record(record@),
            ScanEvent::Malformed { topic, partition, offset, last_offset, raw, reason } =>
                EventView::Malformed {
                topic: topic@,
                partition: *partition,
                offset: *offset,
                last_offset: *last_offset,
                raw: raw@,
                reason: reason.reason@,
            },
            ScanEvent::Progress(progress) => EventView::Progress(*progress),
            ScanEvent::PartitionComplete { partition, last_offset } =>
                EventView::PartitionComplete { partition: *partition, last_offset: *last_offset },
            ScanEvent::Done(progress) => EventView::Done(*progress),
        }
    }
}

/// Events, as plain values.
pub open spec fn event_views(events: Seq<ScanEvent>) -> Seq<EventView> {
    events.map_values(|event: ScanEvent| event@)
}

/// Whether a partition with an empty buffer is worth fetching for right now.
///
/// One that is `behind` always is: it has offsets it has not read. One at its
/// log end is only when following with nothing at all buffered, since the only
/// way to make progress then is to wait there; polling it with records in hand
/// would cost one wait per record.
pub fn should_fetch(behind: bool, follow: bool, idle: bool) -> (fetch: bool)
    ensures
        fetch == (behind || (follow && idle)),
{
    behind || (follow && idle)
}

/// How far apart two records from different partitions may be when the buffer
/// ceiling forces an emit: the buffer budget spread over the merge's width. `0`
/// when the merge is one partition wide, for there is no cross-partition order
/// to degrade.
pub open spec fn window_of(budget: usize, merging: nat) -> usize {
    if merging <= 1 {
        0
    } else {
        (budget as nat / merging) as usize
    }
}

/// How far apart two records from different partitions may be when the buffer
/// ceiling forces an emit.
pub fn reorder_window(budget: usize, merging: usize) -> (window: usize)
    ensures
        window == window_of(budget, merging as nat),
{
    if merging <= 1 {
        0
    } else {
        budget / merging
    }
}

/// Where an explicit-offset start lands, and the substitution that was made.
pub open spec fn offset_start(requested: i64, earliest: i64, latest: i64) -> (
    i64,
    Option<StartSubstitution>,
) {
    if requested < earliest {
        (
            earliest,
            Some(StartSubstitution::OffsetBelowLogStart { requested, log_start: earliest }),
        )
    } else if requested > latest {
        (latest, Some(StartSubstitution::OffsetBeyondLogEnd { requested, log_end: latest }))
    } else {
        (requested, None)
    }
}

/// Where an explicit-offset start actually lands in `[earliest, latest]`, and
/// whether that is a substitution the caller should hear about.
pub fn resolve_offset_start(requested: i64, earliest: i64, latest: i64) -> (start: (
    i64,
    Option<StartSubstitution>,
))
    ensures
        start == offset_start(requested, earliest, latest),
{
    if requested < earliest {
        (
            earliest,
            Some(StartSubstitution::OffsetBelowLogStart { requested, log_start: earliest }),
        )
    } else if requested > latest {
        (latest, Some(StartSubstitution::OffsetBeyondLogEnd { requested, log_end: latest }))
    } else {
        (requested, None)
    }
}

/// One partition's position in a scan.
#[derive(Debug)]
pub struct PartitionCursor {
    /// Partition.
    pub partition: i32,
    /// Who leads it.
    pub leader: i32,
    /// The next offset to fetch.
    pub next_offset: i64,
    /// The offset past the last one to read.
    pub end_offset: i64,
    /// Where the scan started.
    pub start_offset: i64,
    /// How the start was substituted, when it was.
    pub substituted: Option<StartSubstitution>,
    /// What was fetched and not yet emitted.
    pub buffered: VecDeque<RecordOutcome>,
    /// Whether there is nothing more to read here.
    pub finished: bool,
}

/// A [`PartitionCursor`], as plain values.
pub struct CursorView {
    pub partition: i32,
    pub leader: i32,
    pub next_offset: i64,
    pub end_offset: i64,
    pub start_offset: i64,
    pub substituted: Option<StartSubstitution>,
    pub buffered: Seq<OutcomeView>,
    pub finished: bool,
}

impl View for PartitionCursor {
    type V = CursorView;

    open spec fn view(&self) -> CursorView {
        CursorView {
            partition: self.partition,
            leader: self.leader,
            next_offset: self.next_offset,
            end_offset: self.end_offset,
            start_offset: self.start_offset,
            substituted: self.substituted,
            buffered: outcome_views(self.buffered@),
            finished: self.finished,
        }
    }
}

/// Cursors, as plain values.
pub open spec fn cursor_views(cursors: Seq<PartitionCursor>) -> Seq<CursorView> {
    cursors.map_values(|cursor: PartitionCursor| cursor@)
}

/// When an outcome sorts among the heads of the partitions.
///
/// A batch that would not decode has no timestamp. It sorts before everything,
/// so that it comes out as soon as it is seen and a decode failure stays next
/// to where it happened.
pub open spec fn timestamp_of(outcome: OutcomeView) -> i64 {
    match outcome {
        OutcomeView::Decoded(record) => record.timestamp,
        OutcomeView::Malformed { .. } => i64::MIN,
    }
}

impl CursorView {
    /// Whether everything up to the end was fetched.
    pub open spec fn exhausted(self) -> bool {
        self.finished || self.next_offset >= self.end_offset
    }

    /// Whether everything up to the end was fetched and emitted.
    pub open spec fn drained(self) -> bool {
        self.exhausted() && self.buffered.len() == 0
    }

    /// When the next outcome of this partition sorts.
    pub open spec fn head_timestamp(self) -> Option<i64> {
        if self.buffered.len() == 0 {
            None
        } else {
            Some(timestamp_of(self.buffered[0]))
        }
    }
}

impl PartitionCursor {
    /// Whether everything up to the end was fetched.
    pub fn exhausted(&self) -> (exhausted: bool)
        ensures
            exhausted == self@.exhausted(),
    {
        self.finished || self.next_offset >= self.end_offset
    }

    /// Whether everything up to the end was fetched and emitted.
    pub fn drained(&self) -> (drained: bool)
        ensures
            drained == self@.drained(),
    {
        self.exhausted() && self.buffered.len() == 0
    }

    /// When the next outcome of this partition sorts.
    pub fn head_timestamp(&self) -> (timestamp: Option<i64>)
        ensures
            timestamp == self@.head_timestamp(),
    {
        if self.buffered.len() == 0 {
            return None;
        }
        assert(self@.buffered[0] == self.buffered@[0]@);
        match &self.buffered[0] {
            RecordOutcome::Decoded(record) => Some(record.timestamp),
            RecordOutcome::Malformed { .. } => Some(i64::MIN),
        }
    }
}

/// What metadata says of the topic to scan.
#[derive(Debug)]
pub struct TopicState {
    /// What is wrong with it.
    pub error: Option<ErrorCode>,
    /// Its partitions.
    pub partitions: Vec<i32>,
}

/// The partitions to scan: those that were asked for, or all that are listed.
pub open spec fn wanted(partitions: Option<Vec<i32>>, listed: Seq<i32>) -> Seq<i32> {
    match partitions {
        Some(partitions) => partitions@,
        None => listed,
    }
}

/// The partitions to scan: those the spec asks for, or every one of the topic.
pub fn partitions_to_scan(spec: &ScanSpec, topic: Option<TopicState>) -> (partitions: Result<
    Vec<i32>,
    Error,
>)
    ensures
        match topic {
            None => partitions matches Err(error) && error@ == broker_error(
                ErrorCode::UnknownTopicOrPartition,
                Some(spec.topic@),
            ),
            Some(topic) => match topic.error {
                Some(code) => partitions matches Err(error) && error@ == broker_error(
                    code,
                    Some(spec.topic@),
                ),
                None => partitions matches Ok(partitions) && partitions@ == wanted(
                    spec.partitions,
                    topic.partitions@,
                ),
            },
        },
{
    let topic = match topic {
        Some(topic) => topic,
        None => {
            return Err(
                Error::from_code(ErrorCode::UnknownTopicOrPartition, Some(spec.topic.clone())),
            );
        },
    };
    if let Some(code) = topic.error {
        return Err(Error::from_code(code, Some(spec.topic.clone())));
    }
    Ok(
        match &spec.partitions {
            Some(partitions) => vstd::slice::slice_to_vec(partitions.as_slice()),
            None => topic.partitions,
        },
    )
}

/// What is known of a partition before its scan starts.
#[derive(Debug, Clone, Copy, PartialEq, Eq, Structural)]
pub struct PartitionFacts {
    /// Partition.
    pub partition: i32,
    /// Who leads it.
    pub leader: i32,
    /// The first offset the log still holds.
    pub earliest: i64,
    /// The end of the log.
    pub latest: i64,
    /// The offset that the timestamp to start from resolved to, if there is
    /// such a timestamp and it resolved.
    pub at_timestamp: Option<i64>,
}

/// Where a partition's scan starts, and the substitution that was made.
pub open spec fn start_of(from: StartPosition, facts: PartitionFacts) -> (
    i64,
    Option<StartSubstitution>,
) {
    match from {
        StartPosition::Earliest => (facts.earliest, None),
        StartPosition::Latest => (facts.latest, None),
        StartPosition::Offset(offset) => offset_start(offset, facts.earliest, facts.latest),
        StartPosition::Timestamp(timestamp) => match facts.at_timestamp {
            Some(offset) => (offset, None),
            None => (
                facts.latest,
                Some(
                    StartSubstitution::TimestampUnresolved {
                        requested: timestamp,
                        log_end: facts.latest,
                    },
                ),
            ),
        },
    }
}

/// Where a partition's cursor starts out. One that starts at its own log end
/// has nothing to read, unless the scan follows: then that is where it waits.
pub open spec fn cursor_of(from: StartPosition, follow: bool, facts: PartitionFacts) -> CursorView {
    let (start, substituted) = start_of(from, facts);
    CursorView {
        partition: facts.partition,
        leader: facts.leader,
        next_offset: start,
        end_offset: facts.latest,
        start_offset: start,
        substituted,
        buffered: seq![],
        finished: start >= facts.latest && !follow,
    }
}

/// Works out where each partition starts and ends.
pub fn plan(spec: &ScanSpec, facts: &Vec<PartitionFacts>) -> (cursors: Vec<PartitionCursor>)
    ensures
        cursor_views(cursors@) == facts@.map_values(
            |facts: PartitionFacts| cursor_of(spec.from, spec.follow, facts),
        ),
{
    let mut cursors: Vec<PartitionCursor> = Vec::new();
    let mut at: usize = 0;
    while at < facts.len()
        invariant
            at <= facts.len(),
            cursors@.len() == at,
            forall|i: int|
                0 <= i < at ==> (#[trigger] cursors@[i])@ == cursor_of(
                    spec.from,
                    spec.follow,
                    facts@[i],
                ),
        decreases facts.len() - at,
    {
        let known: PartitionFacts = facts[at];
        let (start, substituted): (i64, Option<StartSubstitution>) = match spec.from {
            StartPosition::Earliest => (known.earliest, None),
            StartPosition::Latest => (known.latest, None),
            StartPosition::Offset(offset) => resolve_offset_start(
                offset,
                known.earliest,
                known.latest,
            ),
            StartPosition::Timestamp(timestamp) => match known.at_timestamp {
                Some(offset) => (offset, None),
                None => (
                    known.latest,
                    Some(
                        StartSubstitution::TimestampUnresolved {
                            requested: timestamp,
                            log_end: known.latest,
                        },
                    ),
                ),
            },
        };
        let cursor = PartitionCursor {
            partition: known.partition,
            leader: known.leader,
            next_offset: start,
            end_offset: known.latest,
            start_offset: start,
            substituted,
            buffered: VecDeque::new(),
            finished: start >= known.latest && !spec.follow,
        };
        assert(cursor@.buffered =~= seq![]);
        cursors.push(cursor);
        at += 1;
    }
    assert(cursor_views(cursors@) =~= facts@.map_values(
        |facts: PartitionFacts| cursor_of(spec.from, spec.follow, facts),
    ));
    cursors
}

} // verus!
