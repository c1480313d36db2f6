//! Batching: many records into one request, with bounded memory.
//!
//! Every piece of batching state lives in one [`Actor`]: the open batch per
//! partition, the closed ones queued behind it, and which partitions have a
//! request on the wire.
//!
//! At most one batch per partition is on the wire at a time. Different
//! partitions proceed concurrently, but within one partition the next batch is
//! not sent until the previous one has been answered, so the log's order is the
//! caller's.
//!
//! Times are milliseconds on one monotonic clock.

use std::collections::VecDeque;
use vstd::prelude::*;
use vstd::string::*;
use crate::error::{broker_error, Error, ErrorCode, ErrorKind, ErrorKindView, ErrorView};
use crate::keyed::{grouped, lemma_group_position, PartitionKey, PartitionMap};
use crate::produce::config::ProducerConfig;
use crate::produce::idempotence::{
    next_sequence, step, BatchIdentity, ProducerIdentity, Sequences,
};
use crate::produce::record::{ProducerRecord, ProducerRecordView};
use crate::produce::transactions::{key_views, missing, Transactions, TransactionsView};
use crate::read::batch::held;
use crate::read::record::len_of;
use crate::text::decimal;
use crate::wire::HeaderView;

verus! {

/// Bytes of v2 record framing to charge a record on top of its own payload.
///
/// An estimate used for accounting only, which errs high so a batch size is
/// never overshot by the estimate being optimistic.
pub const RECORD_OVERHEAD: usize = 32;

/// Per-header accounting overhead: two length varints.
pub const HEADER_OVERHEAD: usize = 8;

/// How long to wait before re-attempting a failed producer-id claim.
pub const IDENTITY_RETRY_MS: u64 = 500;

/// How many bytes a text is in UTF-8.
pub open spec fn utf8_len(text: Seq<char>) -> nat {
    vstd::utf8::encode_utf8(text).len()
}

/// What headers cost the buffer.
pub open spec fn headers_cost(headers: Seq<HeaderView>) -> nat
    decreases headers.len(),
{
    if headers.len() == 0 {
        0
    } else {
        headers_cost(headers.drop_last()) + utf8_len(headers.last().0) + len_of(headers.last().1)
            + HEADER_OVERHEAD as nat
    }
}

/// What one record costs the buffer.
pub open spec fn record_cost(record: ProducerRecordView) -> nat {
    RECORD_OVERHEAD as nat + len_of(record.key) + len_of(record.value) + headers_cost(
        record.headers,
    )
}

/// What one record costs the buffer, held at the machine's largest number.
///
/// Over-charging costs a slightly smaller batch while under-charging costs an
/// oversized request the broker rejects.
pub fn accounted_size(record: &ProducerRecord) -> (size: usize)
    ensures
        size == held(record_cost(record@)),
{
    let key: usize = match &record.key {
        Some(key) => key.len(),
        None => 0,
    };
    let value: usize = match &record.value {
        Some(value) => value.len(),
        None => 0,
    };
    let ghost headers = record@.headers;
    let mut cost: usize = 0;
    let mut i: usize = 0;
    while i < record.headers.len()
        invariant
            i <= record.headers.len(),
            headers == record@.headers,
            cost == held(headers_cost(headers.take(i as int))),
        decreases record.headers.len() - i,
    {
        proof {
            assert(headers.take(i + 1).drop_last() =~= headers.take(i as int));
            assert(headers.take(i + 1).last() == headers[i as int]);
        }
        let name: usize = record.headers[i].0.as_str().as_bytes().len();
        let value: usize = match &record.headers[i].1 {
            Some(value) => value.len(),
            None => 0,
        };
        cost = cost.saturating_add(name.saturating_add(value).saturating_add(HEADER_OVERHEAD));
        i += 1;
    }
    assert(headers.take(i as int) =~= headers);
    RECORD_OVERHEAD.saturating_add(key).saturating_add(value).saturating_add(cost)
}

/// Permits are counted in `u32`; a size past that is clamped rather than
/// wrapped, which would otherwise charge a huge record almost nothing.
pub fn permits_for(size: usize) -> (permits: u32)
    ensures
        permits == if size > u32::MAX {
            u32::MAX as int
        } else {
            size as int
        },
{
    if size as u64 > u32::MAX as u64 {
        u32::MAX
    } else {
        size as u32
    }
}

/// The wall clock in the milliseconds a record timestamp wants, from the time
/// since the epoch: zero when the clock is before it or past what fits.
pub fn now_millis(since_epoch: Option<u128>) -> (now: i64)
    ensures
        now == match since_epoch {
            Some(millis) => if millis <= i64::MAX {
                millis as int
            } else {
                0
            },
            None => 0,
        },
{
    match since_epoch {
        Some(millis) => if millis <= i64::MAX as u128 {
            millis as i64
        } else {
            0
        },
        None => 0,
    }
}

/// The error for a record whose producer is gone.
pub open spec fn gone_error() -> ErrorView {
    ErrorView {
        kind: ErrorKindView::ConnectionClosed { peer: "the producer"@ },
        retriable: true,
        needs_metadata_refresh: false,
    }
}

/// Every producer was dropped, or its task stopped, with the record still
/// outstanding.
///
/// The channel the answer was going to arrive on is gone, and whether the
/// record was written is unknowable.
pub fn producer_gone() -> (error: Error)
    ensures
        error@ == gone_error(),
{
    Error {
        kind: ErrorKind::ConnectionClosed { peer: "the producer".to_owned() },
        retriable: true,
        needs_metadata_refresh: false,
    }
}

/// The largest record a producer accepts: one that exceeds the whole buffer
/// could never be let in.
pub open spec fn record_limit(config: ProducerConfig) -> usize {
    if config.max_request_size < config.buffer_memory {
        config.max_request_size
    } else {
        config.buffer_memory
    }
}

/// What is said of a record that is too large.
pub open spec fn too_large(topic: Seq<char>, size: usize, limit: usize) -> ErrorView {
    broker_error(
        ErrorCode::MessageTooLarge,
        Some(
            topic + ": the record is "@ + crate::text::decimal_of(size as nat)
                + " bytes, over the "@ + crate::text::decimal_of(limit as nat) + " byte limit"@,
        ),
    )
}

/// What stands between a caller and the batches: the size of record that is
/// let in.
#[derive(Debug, Clone, Copy, PartialEq, Eq, Structural)]
pub struct Accumulator {
    /// The largest record that is accepted, in accounted bytes.
    pub record_limit: usize,
}

impl Accumulator {
    /// An accumulator for a configuration.
    pub fn spawn(config: &ProducerConfig) -> (accumulator: Self)
        ensures
            accumulator.record_limit == record_limit(*config),
    {
        Accumulator {
            record_limit: if config.max_request_size < config.buffer_memory {
                config.max_request_size
            } else {
                config.buffer_memory
            },
        }
    }

    /// How many permits a record takes to be buffered, or that it is too large.
    ///
    /// A record that cannot fit fails here, before it joins any batch, so the
    /// records it would have travelled with are never touched.
    pub fn append(&self, topic: &str, record: &ProducerRecord) -> (permits: Result<u32, Error>)
        ensures
            ({
                let size = held(record_cost(record@));
                match permits {
                    Ok(permits) => size <= self.record_limit && permits == if size > u32::MAX {
                        u32::MAX as int
                    } else {
                        size as int
                    },
                    Err(error) => size > self.record_limit && error@ == too_large(
                        topic@,
                        size,
                        self.record_limit,
                    ),
                }
            }),
    {
        let size: usize = accounted_size(record);
        if size > self.record_limit {
            let mut text = topic.to_owned();
            text.append(": the record is ");
            text.append(decimal(size as u64).as_str());
            text.append(" bytes, over the ");
            text.append(decimal(self.record_limit as u64).as_str());
            text.append(" byte limit");
            return Err(Error::from_code(ErrorCode::MessageTooLarge, Some(text)));
        }
        Ok(permits_for(size))
    }
}

/// The nearer of two moments.
pub open spec fn nearer(a: Option<u64>, b: Option<u64>) -> Option<u64> {
    match (a, b) {
        (Some(a), Some(b)) => if a <= b {
            Some(a)
        } else {
            Some(b)
        },
        (Some(a), None) => Some(a),
        (None, b) => b,
    }
}

/// A moment `by` later, held at the end of the clock.
pub open spec fn later(at: u64, by: u64) -> u64 {
    if at + by > u64::MAX {
        u64::MAX
    } else {
        (at + by) as u64
    }
}

/// Combines the linger deadline with the identity-retry one.
///
/// Work blocked on a missing identity yields a deadline even when no batch is
/// open, because that deadline is the only thing that ever wakes the actor
/// again.
pub fn earliest_wake(open: Option<u64>, blocked_on_identity: bool, now: u64) -> (wake: Option<u64>)
    ensures
        wake == nearer(
            open,
            if blocked_on_identity {
                Some(later(now, IDENTITY_RETRY_MS))
            } else {
                None
            },
        ),
{
    if !blocked_on_identity {
        return open;
    }
    let retry: u64 = now.saturating_add(IDENTITY_RETRY_MS);
    match open {
        Some(open) => if open <= retry {
            Some(open)
        } else {
            Some(retry)
        },
        None => Some(retry),
    }
}

/// A record waiting for the wire, with the ticket its caller waits on.
#[derive(Debug)]
pub struct Queued {
    /// The record.
    pub record: ProducerRecord,
    /// Names the caller.
    pub ticket: u64,
}

/// A [`Queued`] record, as plain values.
pub struct QueuedView {
    pub record: ProducerRecordView,
    pub ticket: u64,
}

impl View for Queued {
    type V = QueuedView;

    open spec fn view(&self) -> QueuedView {
        QueuedView { record: self.record@, ticket: self.ticket }
    }
}

/// Queued records, as plain values.
pub open spec fn queued_views(records: Seq<Queued>) -> Seq<QueuedView> {
    records.map_values(|queued: Queued| queued@)
}

/// One partition's batch, open or closed.
#[derive(Debug)]
pub struct Batch {
    /// Its records.
    pub records: Vec<Queued>,
    /// What they cost.
    pub bytes: usize,
    /// When it was opened.
    pub opened_at: u64,
}

/// A [`Batch`], as plain values.
pub struct BatchView {
    pub records: Seq<QueuedView>,
    pub bytes: usize,
    pub opened_at: u64,
}

impl View for Batch {
    type V = BatchView;

    open spec fn view(&self) -> BatchView {
        BatchView {
            records: queued_views(self.records@),
            bytes: self.bytes,
            opened_at: self.opened_at,
        }
    }
}

/// Batches, as plain values.
pub open spec fn batch_views(batches: Seq<Batch>) -> Seq<BatchView> {
    batches.map_values(|batch: Batch| batch@)
}

/// An empty batch.
pub open spec fn empty_batch(now: u64) -> BatchView {
    BatchView { records: seq![], bytes: 0, opened_at: now }
}

impl Batch {
    /// An empty batch, opened now.
    pub fn new(now: u64) -> (batch: Self)
        ensures
            batch@ == empty_batch(now),
    {
        let batch = Batch { records: Vec::new(), bytes: 0, opened_at: now };
        assert(batch@.records =~= seq![]);
        batch
    }
}

/// What is known about one partition.
#[derive(Debug)]
pub struct PartitionState {
    /// The batch currently accepting records.
    pub open: Option<Batch>,
    /// Batches closed and waiting for the wire, oldest first.
    pub pending: VecDeque<Batch>,
    /// Whether a request carrying this partition is on the wire.
    pub in_flight: bool,
}

/// A [`PartitionState`], as plain values.
pub struct StateView {
    pub open: Option<BatchView>,
    pub pending: Seq<BatchView>,
    pub in_flight: bool,
}

impl View for PartitionState {
    type V = StateView;

    open spec fn view(&self) -> StateView {
        StateView {
            open: match self.open {
                Some(batch) => Some(batch@),
                None => None,
            },
            pending: batch_views(self.pending@),
            in_flight: self.in_flight,
        }
    }
}

/// Nothing outstanding.
pub open spec fn fresh() -> StateView {
    StateView { open: None, pending: seq![], in_flight: false }
}

impl StateView {
    /// Whether nothing is outstanding.
    pub open spec fn idle(self) -> bool {
        self.open is None && self.pending.len() == 0 && !self.in_flight
    }

    /// With the open batch closed.
    pub open spec fn closed(self) -> Self {
        match self.open {
            Some(batch) => StateView { open: None, pending: self.pending.push(batch), ..self },
            None => self,
        }
    }

    /// Whether a record of `size` would push the open batch past a bound.
    pub open spec fn overflows(self, size: usize, batch_size: usize, max_request: usize) -> bool {
        self.open matches Some(open) && open.records.len() > 0 && (held(
            (open.bytes + size) as nat,
        ) > batch_size || held((open.bytes + size) as nat) > max_request)
    }

    /// With a record in the open batch, which is opened if there is none.
    pub open spec fn with_record(self, queued: QueuedView, size: usize, now: u64) -> Self {
        let open = match self.open {
            Some(open) => open,
            None => empty_batch(now),
        };
        StateView {
            open: Some(
                BatchView {
                    records: open.records.push(queued),
                    bytes: held((open.bytes + size) as nat),
                    ..open
                },
            ),
            ..self
        }
    }

    /// With a record appended: the open batch is closed first when the record
    /// would push it past a bound, and afterwards when it has reached the
    /// target size.
    pub open spec fn appended(
        self,
        queued: QueuedView,
        size: usize,
        batch_size: usize,
        max_request: usize,
        now: u64,
    ) -> Self {
        let room = if self.overflows(size, batch_size, max_request) {
            self.closed()
        } else {
            self
        };
        let filled = room.with_record(queued, size, now);
        if filled.open->Some_0.bytes >= batch_size {
            filled.closed()
        } else {
            filled
        }
    }

    /// Whether the open batch has waited long enough.
    pub open spec fn expired(self, linger: u64, now: u64) -> bool {
        self.open matches Some(open) && later(open.opened_at, linger) <= now
    }
}

impl PartitionState {
    /// Nothing outstanding.
    pub fn new() -> (state: Self)
        ensures
            state@ == fresh(),
    {
        let state = PartitionState { open: None, pending: VecDeque::new(), in_flight: false };
        assert(state@.pending =~= seq![]);
        state
    }

    /// Whether nothing is outstanding.
    pub fn idle(&self) -> (idle: bool)
        ensures
            idle == self@.idle(),
    {
        self.open.is_none() && self.pending.len() == 0 && !self.in_flight
    }

    /// Closes the open batch.
    fn close(&mut self)
        ensures
            final(self)@ == old(self)@.closed(),
    {
        let ghost before = self.pending@;
        if let Some(batch) = self.open.take() {
            self.pending.push_back(batch);
            assert(batch_views(self.pending@) =~= batch_views(before).push(batch@));
        }
    }

    /// Appends a record.
    fn append(
        &mut self,
        queued: Queued,
        size: usize,
        batch_size: usize,
        max_request: usize,
        now: u64,
    )
        ensures
            final(self)@ == old(self)@.appended(queued@, size, batch_size, max_request, now),
    {
        let overflows = match &self.open {
            Some(open) => {
                let would_be: usize = open.bytes.saturating_add(size);
                open.records.len() > 0 && (would_be > batch_size || would_be > max_request)
            },
            None => false,
        };
        if overflows {
            self.close();
        }
        let ghost room = self@;
        let mut open = match self.open.take() {
            Some(open) => open,
            None => Batch::new(now),
        };
        let ghost before = open.records@;
        open.bytes = open.bytes.saturating_add(size);
        open.records.push(queued);
        assert(queued_views(open.records@) =~= queued_views(before).push(queued@));
        let full = open.bytes >= batch_size;
        self.open = Some(open);
        assert(self@ == room.with_record(queued@, size, now));
        if full {
            self.close();
        }
    }
}

/// One partition and what is known about it.
#[derive(Debug)]
pub struct Entry {
    /// Topic.
    pub topic: String,
    /// Partition.
    pub partition: i32,
    /// What is known.
    pub state: PartitionState,
}

/// An [`Entry`], as plain values.
pub struct EntryView {
    pub key: PartitionKey,
    pub state: StateView,
}

impl View for Entry {
    type V = EntryView;

    open spec fn view(&self) -> EntryView {
        EntryView { key: (self.topic@, self.partition), state: self.state@ }
    }
}

/// Entries, as plain values.
pub open spec fn entry_views(entries: Seq<Entry>) -> Seq<EntryView> {
    entries.map_values(|entry: Entry| entry@)
}

/// Whether no partition has two entries.
pub open spec fn entries_distinct(entries: Seq<EntryView>) -> bool {
    forall|i: int, j: int|
        0 <= i < j < entries.len() ==> (#[trigger] entries[i]).key != (#[trigger] entries[j]).key
}

/// Where a partition's entry is.
pub open spec fn entry_position(entries: Seq<EntryView>, key: PartitionKey) -> Option<int>
    decreases entries.len(),
{
    if entries.len() == 0 {
        None
    } else {
        match entry_position(entries.drop_last(), key) {
            Some(at) => Some(at),
            None => if entries.last().key == key {
                Some(entries.len() - 1)
            } else {
                None
            },
        }
    }
}

/// What is known about a partition.
pub open spec fn state_of(entries: Seq<EntryView>, key: PartitionKey) -> StateView {
    match entry_position(entries, key) {
        Some(at) => entries[at].state,
        None => fresh(),
    }
}

/// Entries with another state for a partition.
pub open spec fn with_state(entries: Seq<EntryView>, key: PartitionKey, state: StateView) -> Seq<
    EntryView,
> {
    match entry_position(entries, key) {
        Some(at) => entries.update(at, EntryView { key, state }),
        None => entries.push(EntryView { key, state }),
    }
}

/// A first entry is an entry, and there is none before it; without one the
/// partition has no entry.
pub proof fn lemma_entry_position(entries: Seq<EntryView>, key: PartitionKey)
    ensures
        match entry_position(entries, key) {
            Some(at) => 0 <= at < entries.len() && entries[at].key == key && forall|k: int|
                0 <= k < at ==> (#[trigger] entries[k]).key != key,
            None => forall|k: int| 0 <= k < entries.len() ==> (#[trigger] entries[k]).key != key,
        },
    decreases entries.len(),
{
    if entries.len() > 0 {
        let shorter = entries.drop_last();
        lemma_entry_position(shorter, key);
        assert forall|k: int| 0 <= k < shorter.len() implies shorter[k] == #[trigger] entries[k] by {}
    }
}

/// What a caller asks of the actor.
#[derive(Debug)]
pub enum Command {
    /// Buffer a record.
    Append {
        /// Topic.
        topic: String,
        /// Partition.
        partition: i32,
        /// The record.
        queued: Queued,
    },
    /// Send everything, and say when it is done.
    Flush {
        /// Names the caller.
        ticket: u64,
    },
}

/// What a send finished with, and what the actor must do about it.
#[derive(Debug)]
pub struct Completed {
    /// Partitions whose next batch may now go.
    pub partitions: Vec<(String, i32)>,
    /// Reservations to give back, because the batch was never appended.
    pub released: Vec<(String, i32, i32)>,
    /// The broker no longer recognises our producer id: every partition's
    /// sequence restarts from zero under a new one.
    pub reset_identity: bool,
}

/// Reservations, as plain values.
pub open spec fn release_views(released: Seq<(String, i32, i32)>) -> Seq<(PartitionKey, i32)> {
    released.map_values(|release: (String, i32, i32)| ((release.0@, release.1), release.2))
}

/// Sequence numbers with reservations given back.
pub open spec fn given_back(
    next: Map<PartitionKey, i32>,
    released: Seq<(PartitionKey, i32)>,
) -> Map<PartitionKey, i32>
    decreases released.len(),
{
    if released.len() == 0 {
        next
    } else {
        given_back(next, released.drop_last()).insert(released.last().0, released.last().1)
    }
}

/// The end of one record: where it landed, or why it did not.
#[derive(Debug)]
pub struct Resolution {
    /// Names the caller.
    pub ticket: u64,
    /// Where the record landed.
    pub outcome: Result<crate::produce::record::RecordMetadata, Error>,
}

/// Where a record landed, as plain values.
pub struct MetadataView {
    pub topic: Seq<char>,
    pub partition: i32,
    pub offset: i64,
    pub timestamp: Option<i64>,
}

/// A [`Resolution`], as plain values.
pub struct ResolutionView {
    pub ticket: u64,
    pub outcome: Result<MetadataView, ErrorView>,
}

impl View for Resolution {
    type V = ResolutionView;

    open spec fn view(&self) -> ResolutionView {
        ResolutionView {
            ticket: self.ticket,
            outcome: match self.outcome {
                Ok(metadata) => Ok(
                    MetadataView {
                        topic: metadata.topic@,
                        partition: metadata.partition,
                        offset: metadata.offset,
                        timestamp: metadata.timestamp,
                    },
                ),
                Err(error) => Err(error@),
            },
        }
    }
}

/// Resolutions, as plain values.
pub open spec fn resolution_views(resolutions: Seq<Resolution>) -> Seq<ResolutionView> {
    resolutions.map_values(|resolution: Resolution| resolution@)
}

/// The tickets of queued records.
pub open spec fn tickets_of(records: Seq<QueuedView>) -> Seq<u64> {
    records.map_values(|queued: QueuedView| queued.ticket)
}

/// The same failure for every ticket.
pub open spec fn all_failed(tickets: Seq<u64>, error: ErrorView) -> Seq<ResolutionView> {
    tickets.map_values(|ticket: u64| ResolutionView { ticket, outcome: Err(error) })
}

/// The records of batches, oldest first.
pub open spec fn records_of(batches: Seq<BatchView>) -> Seq<QueuedView>
    decreases batches.len(),
{
    if batches.len() == 0 {
        seq![]
    } else {
        records_of(batches.drop_last()) + batches.last().records
    }
}

/// Every record that waits for the wire, in the order it was appended.
pub open spec fn outstanding(state: StateView) -> Seq<QueuedView> {
    records_of(state.pending) + match state.open {
        Some(open) => open.records,
        None => seq![],
    }
}

/// A batch on its way to the wire.
#[derive(Debug)]
pub struct Ready {
    /// Topic.
    pub topic: String,
    /// Partition.
    pub partition: i32,
    /// Its records.
    pub records: Vec<Queued>,
    /// The producer id, epoch and base sequence stamped onto these records.
    /// `None` for a non-idempotent producer.
    pub identity: Option<BatchIdentity>,
}

/// A [`Ready`] batch, as plain values.
pub struct ReadyView {
    pub key: PartitionKey,
    pub records: Seq<QueuedView>,
    pub identity: Option<BatchIdentity>,
}

impl View for Ready {
    type V = ReadyView;

    open spec fn view(&self) -> ReadyView {
        ReadyView {
            key: (self.topic@, self.partition),
            records: queued_views(self.records@),
            identity: self.identity,
        }
    }
}

/// Ready batches, as plain values.
pub open spec fn ready_views(batches: Seq<Ready>) -> Seq<ReadyView> {
    batches.map_values(|ready: Ready| ready@)
}

/// Ready batches by leader, as plain values.
pub open spec fn ready_groups(groups: Seq<(Option<i32>, Vec<Ready>)>) -> Seq<
    (Option<i32>, Seq<ReadyView>),
> {
    groups.map_values(|group: (Option<i32>, Vec<Ready>)| (group.0, ready_views(group.1@)))
}

/// What a dispatch goes by: the identity, the numbers, the open transaction and
/// the leaders the metadata names.
pub struct DispatchView {
    pub identity: Option<ProducerIdentity>,
    pub sequences: Map<PartitionKey, i32>,
    pub transaction: Option<TransactionsView>,
    pub leaders: Map<PartitionKey, i32>,
}

impl DispatchView {
    /// Whether a transaction is open.
    pub open spec fn transactional(self) -> bool {
        self.transaction matches Some(transaction) && transaction.open
    }

    /// Whether a partition's oldest closed batch may go: nothing of the
    /// partition is on the wire, and an open transaction knows of it.
    pub open spec fn lets_go(self, entry: EntryView) -> bool {
        &&& !entry.state.in_flight
        &&& entry.state.pending.len() > 0
        &&& self.transactional() ==> self.transaction->Some_0.enrolled.contains(entry.key)
    }

    /// The batch a partition sends.
    pub open spec fn sends(self, entry: EntryView) -> ReadyView {
        ReadyView {
            key: entry.key,
            records: entry.state.pending[0].records,
            identity: match self.identity {
                Some(issued) => Some(
                    BatchIdentity {
                        producer_id: issued.producer_id,
                        producer_epoch: issued.producer_epoch,
                        base_sequence: next_sequence(self.sequences, entry.key),
                        transactional: self.transactional(),
                    },
                ),
                None => None,
            },
        }
    }

    /// The leader the metadata names for a partition.
    pub open spec fn leader(self, key: PartitionKey) -> Option<i32> {
        if self.leaders.contains_key(key) {
            Some(self.leaders[key])
        } else {
            None
        }
    }

    /// Every batch that goes, with its leader.
    pub open spec fn going(self, entries: Seq<EntryView>) -> Seq<(Option<i32>, ReadyView)>
        decreases entries.len(),
    {
        if entries.len() == 0 {
            seq![]
        } else {
            let before = self.going(entries.drop_last());
            let entry = entries.last();
            if self.lets_go(entry) {
                before.push((self.leader(entry.key), self.sends(entry)))
            } else {
                before
            }
        }
    }

    /// The numbers once the batches that go have taken theirs.
    pub open spec fn spent(self, entries: Seq<EntryView>) -> Map<PartitionKey, i32>
        decreases entries.len(),
    {
        if entries.len() == 0 {
            self.sequences
        } else {
            let before = self.spent(entries.drop_last());
            let entry = entries.last();
            if self.lets_go(entry) && self.identity is Some {
                before.insert(
                    entry.key,
                    next_sequence(self.sequences, entry.key).wrapping_add(
                        step(entry.state.pending[0].records.len() as usize),
                    ),
                )
            } else {
                before
            }
        }
    }

    /// A partition once its batch has gone.
    pub open spec fn gone(self, entry: EntryView) -> EntryView {
        if self.lets_go(entry) {
            EntryView {
                state: StateView {
                    pending: entry.state.pending.skip(1),
                    in_flight: true,
                    ..entry.state
                },
                ..entry
            }
        } else {
            entry
        }
    }
}

/// The partitions that wait for the wire, in order.
pub open spec fn waiting(entries: Seq<EntryView>) -> Seq<PartitionKey>
    decreases entries.len(),
{
    if entries.len() == 0 {
        seq![]
    } else {
        let before = waiting(entries.drop_last());
        let entry = entries.last();
        if !entry.state.in_flight && entry.state.pending.len() > 0 {
            before.push(entry.key)
        } else {
            before
        }
    }
}

/// The entries with something outstanding, in order.
pub open spec fn busy(entries: Seq<EntryView>) -> Seq<EntryView>
    decreases entries.len(),
{
    if entries.len() == 0 {
        seq![]
    } else {
        let before = busy(entries.drop_last());
        if entries.last().state.idle() {
            before
        } else {
            before.push(entries.last())
        }
    }
}

/// The earliest moment an open batch has waited long enough.
pub open spec fn first_expiry(entries: Seq<EntryView>, linger: u64) -> Option<u64>
    decreases entries.len(),
{
    if entries.len() == 0 {
        None
    } else {
        nearer(
            first_expiry(entries.drop_last(), linger),
            match entries.last().state.open {
                Some(open) => Some(later(open.opened_at, linger)),
                None => None,
            },
        )
    }
}

/// The failures of the closed batches of some partitions.
pub open spec fn pending_failures(
    entries: Seq<EntryView>,
    keys: Set<PartitionKey>,
    error: ErrorView,
) -> Seq<ResolutionView>
    decreases entries.len(),
{
    if entries.len() == 0 {
        seq![]
    } else {
        let before = pending_failures(entries.drop_last(), keys, error);
        if keys.contains(entries.last().key) {
            before + all_failed(tickets_of(records_of(entries.last().state.pending)), error)
        } else {
            before
        }
    }
}

/// The state that owns every batch.
pub struct Actor {
    config: ProducerConfig,
    partitions: Vec<Entry>,
    flush_waiters: Vec<u64>,
    identity: Option<ProducerIdentity>,
    sequences: Sequences,
}

/// An [`Actor`], as plain values.
pub struct ActorView {
    pub config: ProducerConfig,
    pub partitions: Seq<EntryView>,
    pub flush_waiters: Seq<u64>,
    pub identity: Option<ProducerIdentity>,
    pub sequences: Map<PartitionKey, i32>,
}

impl View for Actor {
    type V = ActorView;

    closed spec fn view(&self) -> ActorView {
        ActorView {
            config: self.config,
            partitions: entry_views(self.partitions@),
            flush_waiters: self.flush_waiters@,
            identity: self.identity,
            sequences: self.sequences.next(),
        }
    }
}

impl ActorView {
    /// Whether nothing is outstanding.
    pub open spec fn idle(self) -> bool {
        forall|i: int| 0 <= i < self.partitions.len() ==> (#[trigger] self.partitions[i]).state.idle()
    }

    /// Whether any partition has a batch waiting for the wire.
    pub open spec fn has_work(self) -> bool {
        exists|i: int|
            0 <= i < self.partitions.len() && (#[trigger] self.partitions[i]).state.pending.len() > 0
    }

    /// Whether closed batches are held back for want of a producer id.
    pub open spec fn blocked(self) -> bool {
        self.config.idempotent && self.identity is None
    }

    /// With a record appended.
    pub open spec fn appended(self, key: PartitionKey, queued: QueuedView, now: u64) -> Self {
        ActorView {
            partitions: with_state(
                self.partitions,
                key,
                state_of(self.partitions, key).appended(
                    queued,
                    held(record_cost(queued.record)),
                    self.config.batch_size,
                    self.config.max_request_size,
                    now,
                ),
            ),
            ..self
        }
    }

    /// With every open batch closed.
    pub open spec fn all_closed(self) -> Self {
        ActorView {
            partitions: self.partitions.map_values(
                |entry: EntryView| EntryView { state: entry.state.closed(), ..entry },
            ),
            ..self
        }
    }

    /// With every open batch closed that has waited long enough.
    pub open spec fn expired_closed(self, now: u64) -> Self {
        ActorView {
            partitions: self.partitions.map_values(
                |entry: EntryView|
                    if entry.state.expired(self.config.linger, now) {
                        EntryView { state: entry.state.closed(), ..entry }
                    } else {
                        entry
                    },
            ),
            ..self
        }
    }

    /// With a finished send's bookkeeping applied.
    pub open spec fn settled(
        self,
        keys: Set<PartitionKey>,
        released: Seq<(PartitionKey, i32)>,
        reset: bool,
    ) -> Self {
        ActorView {
            partitions: self.partitions.map_values(
                |entry: EntryView|
                    if keys.contains(entry.key) {
                        EntryView {
                            state: StateView { in_flight: false, ..entry.state },
                            ..entry
                        }
                    } else {
                        entry
                    },
            ),
            identity: if reset {
                None
            } else {
                self.identity
            },
            sequences: if reset {
                Map::empty()
            } else {
                given_back(self.sequences, released)
            },
            ..self
        }
    }

    /// What a dispatch goes by.
    pub open spec fn dispatch(
        self,
        transaction: Option<TransactionsView>,
        leaders: Map<PartitionKey, i32>,
    ) -> DispatchView {
        DispatchView {
            identity: self.identity,
            sequences: self.sequences,
            transaction,
            leaders,
        }
    }
}

/// Whether a partition is among some.
fn is_among(keys: &Vec<(String, i32)>, topic: &String, partition: i32) -> (among: bool)
    ensures
        among == key_views(keys@).to_set().contains((topic@, partition)),
{
    let ghost views = key_views(keys@);
    let mut i: usize = 0;
    while i < keys.len()
        invariant
            i <= keys.len(),
            views == key_views(keys@),
            forall|k: int| 0 <= k < i ==> #[trigger] views[k] != (topic@, partition),
        decreases keys.len() - i,
    {
        assert(views[i as int] == (keys@[i as int].0@, keys@[i as int].1));
        if keys[i].1 == partition && keys[i].0 == *topic {
            assert(views.contains((topic@, partition)));
            return true;
        }
        i += 1;
    }
    false
}

impl Actor {
    /// Whether the state is kept soundly: no partition has two entries.
    pub closed spec fn wf(&self) -> bool {
        &&& entries_distinct(entry_views(self.partitions@))
        &&& self.sequences.wf()
    }

    /// Nothing buffered, no producer id claimed.
    pub fn new(config: ProducerConfig) -> (actor: Self)
        ensures
            actor.wf(),
            actor@ == (ActorView {
                config,
                partitions: seq![],
                flush_waiters: seq![],
                identity: None,
                sequences: Map::empty(),
            }),
    {
        let actor = Actor {
            config,
            partitions: Vec::new(),
            flush_waiters: Vec::new(),
            identity: None,
            sequences: Sequences::default(),
        };
        assert(actor@.partitions =~= seq![]);
        actor
    }

    /// Where a partition's entry is.
    fn position(&self, topic: &String, partition: i32) -> (position: Option<usize>)
        ensures
            match position {
                Some(at) => entry_position(self@.partitions, (topic@, partition)) == Some(
                    at as int,
                ) && at < self.partitions@.len(),
                None => entry_position(self@.partitions, (topic@, partition)) is None,
            },
    {
        let ghost entries = self@.partitions;
        let ghost key = (topic@, partition);
        proof {
            lemma_entry_position(entries, key);
        }
        let mut at: usize = 0;
        while at < self.partitions.len()
            invariant
                at <= self.partitions.len(),
                entries == entry_views(self.partitions@),
                key == (topic@, partition),
                forall|k: int| 0 <= k < at ==> (#[trigger] entries[k]).key != key,
                match entry_position(entries, key) {
                    Some(at) => 0 <= at < entries.len() && entries[at].key == key && forall|k: int|
                        0 <= k < at ==> (#[trigger] entries[k]).key != key,
                    None => forall|k: int|
                        0 <= k < entries.len() ==> (#[trigger] entries[k]).key != key,
                },
            decreases self.partitions.len() - at,
        {
            assert(entries[at as int] == self.partitions@[at as int]@);
            if self.partitions[at].partition == partition && self.partitions[at].topic == *topic {
                return Some(at);
            }
            at += 1;
        }
        None
    }

    /// Does what a caller asks.
    pub fn handle(&mut self, command: Command, now: u64)
        requires
            old(self).wf(),
        ensures
            final(self).wf(),
            match command {
                Command::Append { topic, partition, queued } => final(self)@ == old(self)@.appended(
                    (topic@, partition),
                    queued@,
                    now,
                ),
                // Everything open is closed, so the flush does not wait out a
                // linger that has nothing left to gain by expiring.
                Command::Flush { ticket } => final(self)@ == (ActorView {
                    flush_waiters: old(self)@.flush_waiters.push(ticket),
                    ..old(self)@.all_closed()
                }),
            },
    {
        match command {
            Command::Append { topic, partition, queued } => {
                self.append(topic, partition, queued, now);
            },
            Command::Flush { ticket } => {
                self.close_all();
                self.flush_waiters.push(ticket);
            },
        }
    }

    /// Appends a record to its partition's open batch.
    ///
    /// The open batch is closed first when the record would push it past either
    /// bound. A record that is itself over the batch size then lands in a batch
    /// of its own, which is the only way it can be sent at all.
    pub fn append(&mut self, topic: String, partition: i32, queued: Queued, now: u64)
        requires
            old(self).wf(),
        ensures
            final(self).wf(),
            final(self)@ == old(self)@.appended((topic@, partition), queued@, now),
    {
        let size: usize = accounted_size(&queued.record);
        let batch_size: usize = self.config.batch_size;
        let max_request: usize = self.config.max_request_size;
        let ghost key = (topic@, partition);
        let ghost before = self@.partitions;
        proof {
            lemma_entry_position(before, key);
        }
        match self.position(&topic, partition) {
            Some(at) => {
                let ghost entries = self.partitions@;
                let entry = &mut self.partitions[at];
                entry.state.append(queued, size, batch_size, max_request, now);
                proof {
                    let state = state_of(before, key).appended(
                        queued@,
                        size,
                        batch_size,
                        max_request,
                        now,
                    );
                    assert(self@.partitions =~= before.update(at as int, EntryView { key, state }));
                }
            },
            None => {
                let mut state = PartitionState::new();
                state.append(queued, size, batch_size, max_request, now);
                self.partitions.push(Entry { topic, partition, state });
                assert(self@.partitions =~= before.push(EntryView { key, state: state@ }));
            },
        }
    }

    /// Closes every open batch.
    pub fn close_all(&mut self)
        requires
            old(self).wf(),
        ensures
            final(self).wf(),
            final(self)@ == old(self)@.all_closed(),
    {
        let ghost before = *self;
        let mut at: usize = 0;
        while at < self.partitions.len()
            invariant
                at <= self.partitions.len(),
                before.wf(),
                self.sequences == before.sequences,
                self.identity == before.identity,
                self.flush_waiters == before.flush_waiters,
                self.config == before.config,
                self.partitions@.len() == before.partitions@.len(),
                forall|k: int|
                    0 <= k < at ==> (#[trigger] self.partitions@[k])@ == (EntryView {
                        state: before.partitions@[k]@.state.closed(),
                        ..before.partitions@[k]@
                    }),
                forall|k: int|
                    at <= k < self.partitions@.len() ==> #[trigger] self.partitions@[k]
                        == before.partitions@[k],
            decreases self.partitions.len() - at,
        {
            let entry = &mut self.partitions[at];
            entry.state.close();
            at += 1;
        }
        assert(self@.partitions =~= before@.all_closed().partitions);
        assert(entries_distinct(self@.partitions)) by {
            assert forall|i: int, k: int| 0 <= i < k < self@.partitions.len() implies (
            #[trigger] self@.partitions[i]).key != (#[trigger] self@.partitions[k]).key by {
                assert(before@.partitions[i].key != before@.partitions[k].key);
            }
        }
    }

    /// Closes every open batch that has waited long enough.
    pub fn close_expired(&mut self, now: u64)
        requires
            old(self).wf(),
        ensures
            final(self).wf(),
            final(self)@ == old(self)@.expired_closed(now),
    {
        let ghost before = *self;
        let linger: u64 = self.config.linger;
        let mut at: usize = 0;
        while at < self.partitions.len()
            invariant
                at <= self.partitions.len(),
                before.wf(),
                linger == before.config.linger,
                self.sequences == before.sequences,
                self.identity == before.identity,
                self.flush_waiters == before.flush_waiters,
                self.config == before.config,
                self.partitions@.len() == before.partitions@.len(),
                forall|k: int|
                    0 <= k < at ==> (#[trigger] self.partitions@[k])@
                        == if before.partitions@[k]@.state.expired(linger, now) {
                        EntryView {
                            state: before.partitions@[k]@.state.closed(),
                            ..before.partitions@[k]@
                        }
                    } else {
                        before.partitions@[k]@
                    },
                forall|k: int|
                    at <= k < self.partitions@.len() ==> #[trigger] self.partitions@[k]
                        == before.partitions@[k],
            decreases self.partitions.len() - at,
        {
            let expired = match &self.partitions[at].state.open {
                Some(open) => open.opened_at.saturating_add(linger) <= now,
                None => false,
            };
            if expired {
                let entry = &mut self.partitions[at];
                entry.state.close();
            }
            at += 1;
        }
        assert(self@.partitions =~= before@.expired_closed(now).partitions);
        assert(entries_distinct(self@.partitions)) by {
            assert forall|i: int, k: int| 0 <= i < k < self@.partitions.len() implies (
            #[trigger] self@.partitions[i]).key != (#[trigger] self@.partitions[k]).key by {
                assert(before@.partitions[i].key != before@.partitions[k].key);
            }
        }
    }

    /// Whether any partition has a batch waiting for the wire.
    pub fn has_work(&self) -> (work: bool)
        ensures
            work == self@.has_work(),
    {
        let ghost entries = self@.partitions;
        let mut at: usize = 0;
        while at < self.partitions.len()
            invariant
                at <= self.partitions.len(),
                entries == entry_views(self.partitions@),
                entries == self@.partitions,
                forall|k: int| 0 <= k < at ==> (#[trigger] entries[k]).state.pending.len() == 0,
            decreases self.partitions.len() - at,
        {
            assert(entries[at as int] == self.partitions@[at as int]@);
            if self.partitions[at].state.pending.len() > 0 {
                return true;
            }
            at += 1;
        }
        false
    }

    /// Whether nothing is outstanding.
    pub fn is_idle(&self) -> (idle: bool)
        ensures
            idle == self@.idle(),
    {
        let ghost entries = self@.partitions;
        let mut at: usize = 0;
        while at < self.partitions.len()
            invariant
                at <= self.partitions.len(),
                entries == entry_views(self.partitions@),
                entries == self@.partitions,
                forall|k: int| 0 <= k < at ==> (#[trigger] entries[k]).state.idle(),
            decreases self.partitions.len() - at,
        {
            assert(entries[at as int] == self.partitions@[at as int]@);
            if !self.partitions[at].state.idle() {
                return false;
            }
            at += 1;
        }
        true
    }

    /// The earliest moment the actor must wake on its own: the nearest open
    /// batch's linger expiry, or the retry of a failed producer-id claim that
    /// holds closed batches back.
    pub fn next_deadline(&self, now: u64) -> (deadline: Option<u64>)
        ensures
            deadline == nearer(
                first_expiry(self@.partitions, self@.config.linger),
                if self@.blocked() && self@.has_work() {
                    Some(later(now, IDENTITY_RETRY_MS))
                } else {
                    None
                },
            ),
    {
        let ghost entries = self@.partitions;
        let linger: u64 = self.config.linger;
        let mut open: Option<u64> = None;
        let mut at: usize = 0;
        while at < self.partitions.len()
            invariant
                at <= self.partitions.len(),
                linger == self.config.linger,
                entries == entry_views(self.partitions@),
                open == first_expiry(entries.take(at as int), linger),
            decreases self.partitions.len() - at,
        {
            proof {
                assert(entries.take(at + 1).drop_last() =~= entries.take(at as int));
                assert(entries.take(at + 1).last() == self.partitions@[at as int]@);
            }
            if let Some(batch) = &self.partitions[at].state.open {
                let expiry: u64 = batch.opened_at.saturating_add(linger);
                open = match open {
                    Some(nearest) => if nearest <= expiry {
                        Some(nearest)
                    } else {
                        Some(expiry)
                    },
                    None => Some(expiry),
                };
            }
            at += 1;
        }
        assert(entries.take(at as int) =~= entries);
        let blocked = self.config.idempotent && self.identity.is_none() && self.has_work();
        earliest_wake(open, blocked, now)
    }

    /// Applies a finished send's bookkeeping.
    ///
    /// A reset takes both halves together: a new producer id is only usable if
    /// every partition also restarts its numbering.
    pub fn settle(&mut self, completed: Completed)
        requires
            old(self).wf(),
        ensures
            final(self).wf(),
            final(self)@ == old(self)@.settled(
                key_views(completed.partitions@).to_set(),
                release_views(completed.released@),
                completed.reset_identity,
            ),
    {
        let ghost before = *self;
        let ghost keys = key_views(completed.partitions@).to_set();
        let mut at: usize = 0;
        while at < self.partitions.len()
            invariant
                at <= self.partitions.len(),
                before.wf(),
                keys == key_views(completed.partitions@).to_set(),
                self.sequences == before.sequences,
                self.identity == before.identity,
                self.flush_waiters == before.flush_waiters,
                self.config == before.config,
                self.partitions@.len() == before.partitions@.len(),
                forall|k: int|
                    0 <= k < at ==> (#[trigger] self.partitions@[k])@ == if keys.contains(
                        before.partitions@[k]@.key,
                    ) {
                        EntryView {
                            state: StateView {
                                in_flight: false,
                                ..before.partitions@[k]@.state
                            },
                            ..before.partitions@[k]@
                        }
                    } else {
                        before.partitions@[k]@
                    },
                forall|k: int|
                    at <= k < self.partitions@.len() ==> #[trigger] self.partitions@[k]
                        == before.partitions@[k],
            decreases self.partitions.len() - at,
        {
            let landed = is_among(
                &completed.partitions,
                &self.partitions[at].topic,
                self.partitions[at].partition,
            );
            if landed {
                let entry = &mut self.partitions[at];
                entry.state.in_flight = false;
            }
            at += 1;
        }
        let ghost releases = release_views(completed.released@);
        let ghost spent = self.sequences.next();
        assert(given_back(spent, releases.take(0)) == spent);
        let mut released: usize = 0;
        let ghost settled = *self;
        while released < completed.released.len()
            invariant
                released <= completed.released.len(),
                releases == release_views(completed.released@),
                self.sequences.wf(),
                self.sequences.next() == given_back(spent, releases.take(released as int)),
                self.partitions == settled.partitions,
                self.identity == settled.identity,
                self.flush_waiters == settled.flush_waiters,
                self.config == settled.config,
            decreases completed.released.len() - released,
        {
            proof {
                assert(releases.take(released + 1).drop_last() =~= releases.take(released as int));
                assert(releases.take(released + 1).last() == releases[released as int]);
            }
            let key = (completed.released[released].0.clone(), completed.released[released].1);
            self.sequences.release(key, completed.released[released].2);
            released += 1;
        }
        assert(releases.take(released as int) =~= releases);
        if completed.reset_identity {
            self.identity = None;
            self.sequences.reset();
        }
        assert(self@.partitions =~= before@.settled(
            keys,
            releases,
            completed.reset_identity,
        ).partitions);
        assert(entries_distinct(self@.partitions)) by {
            assert forall|i: int, k: int| 0 <= i < k < self@.partitions.len() implies (
            #[trigger] self@.partitions[i]).key != (#[trigger] self@.partitions[k]).key by {
                assert(before@.partitions[i].key != before@.partitions[k].key);
            }
        }
    }

    /// Adopts a transactional producer's identity, or says whether a producer
    /// id has to be claimed before the first idempotent batch goes out.
    ///
    /// A transactional producer's id is claimed by its caller; claiming one
    /// here would fence the producer against itself. A changed epoch means the
    /// coordinator issued a new identity, and sequences are numbered per
    /// identity.
    pub fn ensure_identity(&mut self, transactions: Option<&Transactions>) -> (claim: bool)
        requires
            old(self).wf(),
        ensures
            final(self).wf(),
            match transactions {
                Some(transactions) => !claim && final(self)@ == (ActorView {
                    identity: transactions@.identity,
                    sequences: if transactions@.identity == old(self)@.identity {
                        old(self)@.sequences
                    } else {
                        Map::empty()
                    },
                    ..old(self)@
                }),
                None => final(self)@ == old(self)@ && claim == (old(self)@.blocked() && old(self)@.has_work()),
            },
    {
        match transactions {
            Some(transactions) => {
                let current = transactions.identity();
                let same = match (current, self.identity) {
                    (Some(current), Some(own)) => current == own,
                    (None, None) => true,
                    (_, _) => false,
                };
                if !same {
                    self.sequences.reset();
                    self.identity = current;
                }
                false
            },
            None => self.config.idempotent && self.identity.is_none() && self.has_work(),
        }
    }

    /// Takes the producer id that was claimed.
    pub fn claimed(&mut self, identity: ProducerIdentity)
        requires
            old(self).wf(),
        ensures
            final(self).wf(),
            final(self)@ == (ActorView { identity: Some(identity), ..old(self)@ }),
    {
        self.identity = Some(identity);
    }

    /// The partitions an open transaction has to be told about before their
    /// next batch goes.
    pub fn ensure_enrolled(&self, transactions: &Transactions) -> (left: Vec<(String, i32)>)
        requires
            transactions.wf(),
        ensures
            key_views(left@) == if transactions@.open {
                missing(waiting(self@.partitions), transactions@.enrolled)
            } else {
                seq![]
            },
    {
        let ghost entries = self@.partitions;
        let mut keys: Vec<(String, i32)> = Vec::new();
        let mut at: usize = 0;
        assert(key_views(keys@) =~= waiting(entries.take(0)));
        while at < self.partitions.len()
            invariant
                at <= self.partitions.len(),
                entries == entry_views(self.partitions@),
                key_views(keys@) == waiting(entries.take(at as int)),
            decreases self.partitions.len() - at,
        {
            let ghost before = key_views(keys@);
            proof {
                assert(entries.take(at + 1).drop_last() =~= entries.take(at as int));
                assert(entries.take(at + 1).last() == self.partitions@[at as int]@);
            }
            if !self.partitions[at].state.in_flight && self.partitions[at].state.pending.len() > 0 {
                keys.push((self.partitions[at].topic.clone(), self.partitions[at].partition));
                assert(key_views(keys@) =~= before.push(entries[at as int].key));
            }
            at += 1;
        }
        assert(entries.take(at as int) =~= entries);
        transactions.unenrolled(&keys)
    }

    /// Drops the bookkeeping for partitions with nothing outstanding.
    pub fn forget_idle(&mut self)
        requires
            old(self).wf(),
        ensures
            final(self).wf(),
            final(self)@ == (ActorView {
                partitions: busy(old(self)@.partitions),
                ..old(self)@
            }),
    {
        let ghost before = *self;
        let ghost entries = self@.partitions;
        let mut all: Vec<Entry> = Vec::new();
        std::mem::swap(&mut all, &mut self.partitions);
        let mut kept: Vec<Entry> = Vec::new();
        assert(entry_views(kept@) =~= busy(entries.take(0)));
        for entry in iter: all
            invariant
                iter.seq() == before.partitions@,
                entries == entry_views(before.partitions@),
                entry_views(kept@) == busy(entries.take(iter.index())),
        {
            let ghost earlier = entry_views(kept@);
            proof {
                assert(entries.take(iter.index() + 1).drop_last() =~= entries.take(iter.index()));
                assert(entries.take(iter.index() + 1).last() == entry@);
            }
            if !entry.state.idle() {
                kept.push(entry);
                assert(entry_views(kept@) =~= earlier.push(entry@));
            }
        }
        assert(entries.take(entries.len() as int) =~= entries);
        self.partitions = kept;
        proof {
            lemma_busy_is_distinct(entries);
        }
    }

    /// The callers whose flush is done: all of them once nothing is
    /// outstanding.
    pub fn settle_flushes(&mut self) -> (done: Vec<u64>)
        requires
            old(self).wf(),
        ensures
            final(self).wf(),
            if old(self)@.idle() {
                done@ == old(self)@.flush_waiters && final(self)@ == (ActorView {
                    flush_waiters: seq![],
                    ..old(self)@
                })
            } else {
                done@.len() == 0 && final(self)@ == old(self)@
            },
    {
        let mut done: Vec<u64> = Vec::new();
        if self.is_idle() {
            std::mem::swap(&mut done, &mut self.flush_waiters);
            assert(self@.flush_waiters =~= seq![]);
        }
        done
    }
}

/// A key that is busy occurs among the entries.
proof fn lemma_busy_is_distinct(entries: Seq<EntryView>)
    requires
        entries_distinct(entries),
    ensures
        entries_distinct(busy(entries)),
        forall|i: int|
            0 <= i < busy(entries).len() ==> exists|k: int|
                0 <= k < entries.len() && (#[trigger] entries[k]).key == (
                #[trigger] busy(entries)[i]).key,
    decreases entries.len(),
{
    if entries.len() > 0 {
        let shorter = entries.drop_last();
        assert(entries_distinct(shorter)) by {
            assert forall|i: int, k: int| 0 <= i < k < shorter.len() implies (
            #[trigger] shorter[i]).key != (#[trigger] shorter[k]).key by {
                assert(entries[i].key != entries[k].key);
            }
        }
        lemma_busy_is_distinct(shorter);
        let last = entries.len() - 1;
        let kept = busy(entries);
        assert forall|i: int| 0 <= i < kept.len() implies exists|k: int|
            0 <= k < entries.len() && (#[trigger] entries[k]).key == (#[trigger] kept[i]).key by {
            if i < busy(shorter).len() {
                assert(kept[i] == busy(shorter)[i]);
                let k = choose|k: int|
                    0 <= k < shorter.len() && (#[trigger] shorter[k]).key == busy(shorter)[i].key;
                assert(entries[k].key == kept[i].key);
            } else {
                assert(entries[last].key == kept[i].key);
            }
        }
        assert forall|i: int, j: int| 0 <= i < j < kept.len() implies (#[trigger] kept[i]).key != (
        #[trigger] kept[j]).key by {
            assert(kept[i] == busy(shorter)[i]);
            if j < busy(shorter).len() {
                assert(kept[j] == busy(shorter)[j]);
            } else {
                let k = choose|k: int|
                    0 <= k < shorter.len() && (#[trigger] shorter[k]).key == busy(shorter)[i].key;
                assert(entries[k] == shorter[k]);
                assert(entries[last].key == kept[j].key);
            }
        }
    }
}

/// Fails every record of a batch alike, appending the failures.
fn fail_records(records: Vec<Queued>, error: &Error, resolutions: &mut Vec<Resolution>)
    ensures
        resolution_views(final(resolutions)@) == resolution_views(old(resolutions)@) + all_failed(
            tickets_of(queued_views(records@)),
            error@,
        ),
{
    let ghost before = resolutions@;
    for queued in iter: records
        invariant
            iter.seq() == records@,
            resolutions@.len() == before.len() + iter.index(),
            forall|k: int| 0 <= k < before.len() ==> #[trigger] resolutions@[k] == before[k],
            forall|k: int|
                before.len() <= k < resolutions@.len() ==> (#[trigger] resolutions@[k])@ == (
                ResolutionView {
                    ticket: records@[k - before.len()].ticket,
                    outcome: Err(error@),
                }),
    {
        resolutions.push(Resolution { ticket: queued.ticket, outcome: Err(error.duplicate()) });
    }
    assert(resolution_views(resolutions@) =~= resolution_views(before) + all_failed(
        tickets_of(queued_views(records@)),
        error@,
    ));
}

impl Actor {
    /// Fails the closed batches of partitions that could not be enrolled,
    /// rather than sending them unenrolled, which the broker would reject
    /// anyway and less legibly.
    pub fn fail_unenrolled(&mut self, keys: &Vec<(String, i32)>, error: &Error) -> (failed: Vec<
        Resolution,
    >)
        requires
            old(self).wf(),
        ensures
            final(self).wf(),
            resolution_views(failed@) == pending_failures(
                old(self)@.partitions,
                key_views(keys@).to_set(),
                error@,
            ),
            final(self)@ == (ActorView {
                partitions: old(self)@.partitions.map_values(
                    |entry: EntryView|
                        if key_views(keys@).to_set().contains(entry.key) {
                            EntryView {
                                state: StateView { pending: seq![], ..entry.state },
                                ..entry
                            }
                        } else {
                            entry
                        },
                ),
                ..old(self)@
            }),
    {
        let ghost before = *self;
        let ghost entries = self@.partitions;
        let ghost set = key_views(keys@).to_set();
        let mut failed: Vec<Resolution> = Vec::new();
        let mut at: usize = 0;
        assert(resolution_views(failed@) =~= pending_failures(entries.take(0), set, error@));
        while at < self.partitions.len()
            invariant
                at <= self.partitions.len(),
                before.wf(),
                set == key_views(keys@).to_set(),
                entries == entry_views(before.partitions@),
                self.sequences == before.sequences,
                self.identity == before.identity,
                self.flush_waiters == before.flush_waiters,
                self.config == before.config,
                self.partitions@.len() == before.partitions@.len(),
                resolution_views(failed@) == pending_failures(entries.take(at as int), set, error@),
                forall|k: int|
                    0 <= k < at ==> (#[trigger] self.partitions@[k])@ == if set.contains(
                        entries[k].key,
                    ) {
                        EntryView {
                            state: StateView { pending: seq![], ..entries[k].state },
                            ..entries[k]
                        }
                    } else {
                        entries[k]
                    },
                forall|k: int|
                    at <= k < self.partitions@.len() ==> #[trigger] self.partitions@[k]
                        == before.partitions@[k],
            decreases self.partitions.len() - at,
        {
            proof {
                assert(entries.take(at + 1).drop_last() =~= entries.take(at as int));
                assert(entries.take(at + 1).last() == entries[at as int]);
                assert(entries[at as int] == self.partitions@[at as int]@);
            }
            let hit = is_among(
                keys,
                &self.partitions[at].topic,
                self.partitions[at].partition,
            );
            if hit {
                let ghost earlier = resolution_views(failed@);
                let mut pending: VecDeque<Batch> = VecDeque::new();
                let entry = &mut self.partitions[at];
                std::mem::swap(&mut pending, &mut entry.state.pending);
                let ghost batches = batch_views(pending@);
                assert(batches =~= entries[at as int].state.pending);
                let ghost total = batches;
                let ghost mut done: int = 0;
                assert(total.take(0) =~= Seq::<BatchView>::empty());
                assert(earlier + all_failed(tickets_of(records_of(total.take(0))), error@)
                    =~= earlier);
                assert(total.skip(0) =~= total);
                while pending.len() > 0
                    invariant
                        0 <= done <= total.len(),
                        batch_views(pending@) == total.skip(done),
                        resolution_views(failed@) == earlier + all_failed(
                            tickets_of(records_of(total.take(done))),
                            error@,
                        ),
                    decreases pending.len(),
                {
                    let ghost left = pending@;
                    if let Some(batch) = pending.pop_front() {
                        proof {
                            assert(batch_views(left).len() == left.len());
                            assert(batch_views(left)[0] == batch@);
                            assert(total.skip(done)[0] == total[done]);
                            assert(total.take(done + 1).drop_last() =~= total.take(done));
                            assert(total.take(done + 1).last() == batch@);
                            assert forall|k: int| 0 <= k < pending@.len() implies batch_views(
                                pending@,
                            )[k] == total.skip(done + 1)[k] by {
                                assert(pending@[k] == left[k + 1]);
                                assert(batch_views(left)[k + 1] == total.skip(done)[k + 1]);
                            }
                            assert(batch_views(pending@) =~= total.skip(done + 1));
                        }
                        let ghost sofar = records_of(total.take(done));
                        fail_records(batch.records, error, &mut failed);
                        proof {
                            assert(tickets_of(sofar + batch@.records) =~= tickets_of(sofar)
                                + tickets_of(batch@.records));
                            assert(earlier + all_failed(
                                tickets_of(sofar + batch@.records),
                                error@,
                            ) =~= (earlier + all_failed(tickets_of(sofar), error@)) + all_failed(
                                tickets_of(batch@.records),
                                error@,
                            ));
                            done = done + 1;
                        }
                    }
                }
                assert(total.take(done) =~= total);
                assert(self.partitions@[at as int]@.state.pending =~= seq![]);
            }
            at += 1;
        }
        assert(entries.take(at as int) =~= entries);
        assert(self@.partitions =~= entries.map_values(
            |entry: EntryView|
                if set.contains(entry.key) {
                    EntryView { state: StateView { pending: seq![], ..entry.state }, ..entry }
                } else {
                    entry
                },
        ));
        assert(entries_distinct(self@.partitions)) by {
            assert forall|i: int, k: int| 0 <= i < k < self@.partitions.len() implies (
            #[trigger] self@.partitions[i]).key != (#[trigger] self@.partitions[k]).key by {
                assert(before@.partitions[i].key != before@.partitions[k].key);
            }
        }
        failed
    }

    /// Whether a partition's next batch may go, as far as a transaction is
    /// concerned.
    fn enrolled(topic: &String, partition: i32, transactions: &Transactions) -> (enrolled: bool)
        requires
            transactions.wf(),
        ensures
            enrolled == (transactions@.open ==> transactions@.enrolled.contains((topic@, partition))),
    {
        let mut keys: Vec<(String, i32)> = Vec::new();
        keys.push((topic.clone(), partition));
        let left = transactions.unenrolled(&keys);
        proof {
            let key = (topic@, partition);
            assert(key_views(keys@) =~= seq![key]);
            reveal_with_fuel(missing, 2);
            assert(seq![key].drop_last() =~= Seq::<PartitionKey>::empty());
            assert(key_views(left@).len() == left@.len());
        }
        left.len() == 0
    }

    /// Takes a batch from every partition that is free and has work, grouped by
    /// the leader the metadata names, so partitions sharing a broker travel in
    /// one request.
    ///
    /// An idempotent producer with no id yet holds everything back. Numbers are
    /// reserved here, not at append, so they are handed out in the order
    /// batches reach the wire.
    pub fn dispatch_ready(
        &mut self,
        transactions: Option<&Transactions>,
        leaders: &PartitionMap<i32>,
    ) -> (groups: Vec<(Option<i32>, Vec<Ready>)>)
        requires
            old(self).wf(),
            leaders.wf(),
            transactions matches Some(transactions) ==> transactions.wf(),
        ensures
            final(self).wf(),
            ({
                let by = old(self)@.dispatch(
                    match transactions {
                        Some(transactions) => Some(transactions@),
                        None => None,
                    },
                    leaders.map(),
                );
                if old(self)@.blocked() {
                    groups@.len() == 0 && final(self)@ == old(self)@
                } else {
                    ready_groups(groups@) == grouped(by.going(old(self)@.partitions)) && final(self)@ == (ActorView {
                        partitions: old(self)@.partitions.map_values(
                            |entry: EntryView| by.gone(entry),
                        ),
                        sequences: by.spent(old(self)@.partitions),
                        ..old(self)@
                    })
                }
            }),
    {
        let mut groups: Vec<(Option<i32>, Vec<Ready>)> = Vec::new();
        if self.config.idempotent && self.identity.is_none() {
            return groups;
        }
        let transactional = match transactions {
            Some(transactions) => transactions.is_open(),
            None => false,
        };
        let ghost before = *self;
        let ghost entries = self@.partitions;
        let ghost by = self@.dispatch(
            match transactions {
                Some(transactions) => Some(transactions@),
                None => None,
            },
            leaders.map(),
        );
        let mut at: usize = 0;
        assert(ready_groups(groups@) =~= grouped(by.going(entries.take(0))));
        while at < self.partitions.len()
            invariant
                at <= self.partitions.len(),
                before.wf(),
                self.sequences.wf(),
                leaders.wf(),
                transactions matches Some(transactions) ==> transactions.wf(),
                entries == entry_views(before.partitions@),
                entries_distinct(entries),
                by == before@.dispatch(
                    match transactions {
                        Some(transactions) => Some(transactions@),
                        None => None,
                    },
                    leaders.map(),
                ),
                transactional == by.transactional(),
                self.identity == before.identity,
                self.flush_waiters == before.flush_waiters,
                self.config == before.config,
                self.partitions@.len() == before.partitions@.len(),
                ready_groups(groups@) == grouped(by.going(entries.take(at as int))),
                self.sequences.next() == by.spent(entries.take(at as int)),
                forall|k: int|
                    0 <= k < at ==> (#[trigger] self.partitions@[k])@ == by.gone(entries[k]),
                forall|k: int|
                    at <= k < self.partitions@.len() ==> #[trigger] self.partitions@[k]
                        == before.partitions@[k],
            decreases self.partitions.len() - at,
        {
            let ghost entry_view = entries[at as int];
            let ghost taken = entries.take(at as int);
            proof {
                assert(entries.take(at + 1).drop_last() =~= taken);
                assert(entries.take(at + 1).last() == entry_view);
                assert(entry_view == self.partitions@[at as int]@);
            }
            let enrolled = match transactions {
                Some(transactions) => Actor::enrolled(
                    &self.partitions[at].topic,
                    self.partitions[at].partition,
                    transactions,
                ),
                None => true,
            };
            let free = !self.partitions[at].state.in_flight
                && self.partitions[at].state.pending.len() > 0 && (!transactional || enrolled);
            assert(free == by.lets_go(entry_view));
            if free {
                let topic = self.partitions[at].topic.clone();
                let partition: i32 = self.partitions[at].partition;
                let ghost pending = self.partitions@[at as int].state.pending@;
                let entry = &mut self.partitions[at];
                let popped = entry.state.pending.pop_front();
                entry.state.in_flight = true;
                proof {
                    assert(batch_views(self.partitions@[at as int].state.pending@) =~= batch_views(
                        pending,
                    ).skip(1));
                    assert(self.partitions@[at as int]@ == by.gone(entry_view));
                }
                if let Some(batch) = popped {
                    assert(batch@ == entry_view.state.pending[0]);
                    let leader: Option<i32> = match leaders.get(&topic, partition) {
                        Some(leader) => Some(*leader),
                        None => None,
                    };
                    let issued = self.identity;
                    let identity = match issued {
                        Some(issued) => {
                            proof {
                                lemma_spent_elsewhere(by, taken, entry_view.key);
                            }
                            let base: i32 = self.sequences.reserve(
                                (topic.clone(), partition),
                                batch.records.len(),
                            );
                            Some(
                                BatchIdentity {
                                    producer_id: issued.producer_id,
                                    producer_epoch: issued.producer_epoch,
                                    base_sequence: base,
                                    transactional,
                                },
                            )
                        },
                        None => None,
                    };
                    let ready = Ready { topic, partition, records: batch.records, identity };
                    assert(ready@ == by.sends(entry_view));
                    assert(leader == by.leader(entry_view.key));
                    join_group(&mut groups, leader, ready, Ghost(by.going(taken)));
                }
            }
            at += 1;
        }
        assert(entries.take(at as int) =~= entries);
        assert(self@.partitions =~= entries.map_values(|entry: EntryView| by.gone(entry)));
        assert(entries_distinct(self@.partitions)) by {
            assert forall|i: int, k: int| 0 <= i < k < self@.partitions.len() implies (
            #[trigger] self@.partitions[i]).key != (#[trigger] self@.partitions[k]).key by {
                assert(entries[i].key != entries[k].key);
            }
        }
        groups
    }
}

/// The batches of other partitions take none of a partition's numbers.
proof fn lemma_spent_elsewhere(by: DispatchView, entries: Seq<EntryView>, key: PartitionKey)
    requires
        forall|i: int| 0 <= i < entries.len() ==> (#[trigger] entries[i]).key != key,
    ensures
        next_sequence(by.spent(entries), key) == next_sequence(by.sequences, key),
    decreases entries.len(),
{
    if entries.len() > 0 {
        let shorter = entries.drop_last();
        assert forall|i: int| 0 <= i < shorter.len() implies (#[trigger] shorter[i]).key != key by {
            assert(shorter[i] == entries[i]);
        }
        lemma_spent_elsewhere(by, shorter, key);
        assert(entries[entries.len() - 1].key != key);
    }
}

/// Adds a batch to its leader's group.
fn join_group(
    groups: &mut Vec<(Option<i32>, Vec<Ready>)>,
    leader: Option<i32>,
    ready: Ready,
    Ghost(items): Ghost<Seq<(Option<i32>, ReadyView)>>,
)
    requires
        ready_groups(old(groups)@) == grouped(items),
    ensures
        ready_groups(final(groups)@) == grouped(items.push((leader, ready@))),
{
    let ghost before = ready_groups(groups@);
    proof {
        lemma_group_position(before, leader);
        assert(items.push((leader, ready@)).drop_last() =~= items);
    }
    let mut at: usize = 0;
    while at < groups.len() && !same_leader(groups[at].0, leader)
        invariant
            at <= groups.len(),
            before == ready_groups(groups@),
            forall|k: int| 0 <= k < at ==> (#[trigger] before[k]).0 != leader,
        decreases groups.len() - at,
    {
        assert(before[at as int].0 == groups@[at as int].0);
        at += 1;
    }
    if at < groups.len() {
        assert(before[at as int].0 == leader);
        let ghost own = groups@[at as int].1@;
        let ghost grown = before[at as int].1.push(ready@);
        let group = &mut groups[at];
        group.1.push(ready);
        proof {
            assert(ready_views(groups@[at as int].1@) =~= ready_views(own).push(ready@));
            assert(ready_groups(groups@) =~= before.update(at as int, (leader, grown)));
        }
    } else {
        let mut group: Vec<Ready> = Vec::new();
        group.push(ready);
        assert(ready_views(group@) =~= seq![ready@]);
        groups.push((leader, group));
        assert(ready_groups(groups@) =~= before.push((leader, seq![ready@])));
    }
}

/// Whether two leaders are the same.
fn same_leader(a: Option<i32>, b: Option<i32>) -> (same: bool)
    ensures
        same == (a == b),
{
    match (a, b) {
        (Some(a), Some(b)) => a == b,
        (None, None) => true,
        (_, _) => false,
    }
}

} // verus!
