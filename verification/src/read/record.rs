//! The owned record type, and what happens when one will not decode.

use vstd::prelude::*;

use crate::wire::{bytes_of, headers_of, HeaderView};
pub use crate::wire::TimestampType;

verus! {

/// A record read from a partition.
#[derive(Debug, Clone)]
pub struct Record {
    /// Topic.
    pub topic: String,
    /// Partition.
    pub partition: i32,
    /// Offset.
    pub offset: i64,
    /// Timestamp, in epoch milliseconds.
    pub timestamp: i64,
    /// Whether the timestamp is the producer's or the broker's.
    pub timestamp_type: TimestampType,
    /// Key, or `None` for a record written without one.
    pub key: Option<Vec<u8>>,
    /// Value, or `None` for a tombstone.
    ///
    /// The distinction matters: a tombstone is a deletion marker on a compacted
    /// topic, and rendering it as an empty value hides that.
    pub value: Option<Vec<u8>>,
    /// Headers, in the order the producer wrote them.
    ///
    /// A list rather than a map, because Kafka permits duplicate header keys
    /// and some producers rely on it.
    pub headers: Vec<(String, Option<Vec<u8>>)>,
    /// The producer id, when the record came from an idempotent or
    /// transactional producer.
    pub producer_id: Option<i64>,
    /// Whether the record was written inside a transaction.
    pub transactional: bool,
    /// Leader epoch of the batch this record came from.
    pub leader_epoch: Option<i32>,
}

/// A [`Record`], as plain sequences.
pub struct RecordView {
    pub topic: Seq<char>,
    pub partition: i32,
    pub offset: i64,
    pub timestamp: i64,
    pub timestamp_type: TimestampType,
    pub key: Option<Seq<u8>>,
    pub value: Option<Seq<u8>>,
    pub headers: Seq<HeaderView>,
    pub producer_id: Option<i64>,
    pub transactional: bool,
    pub leader_epoch: Option<i32>,
}

impl View for Record {
    type V = RecordView;

    open spec fn view(&self) -> RecordView {
        RecordView {
            topic: self.topic@,
            partition: self.partition,
            offset: self.offset,
            timestamp: self.timestamp,
            timestamp_type: self.timestamp_type,
            key: bytes_of(self.key),
            value: bytes_of(self.value),
            headers: headers_of(self.headers@),
            producer_id: self.producer_id,
            transactional: self.transactional,
            leader_epoch: self.leader_epoch,
        }
    }
}

/// How many bytes an optional byte string holds.
pub open spec fn len_of(bytes: Option<Seq<u8>>) -> nat {
    match bytes {
        Some(bytes) => bytes.len(),
        None => 0,
    }
}

impl Record {
    /// Whether this is a tombstone: a null value on a compacted topic.
    pub fn is_tombstone(&self) -> (tombstone: bool)
        ensures
            tombstone == (self@.value is None),
    {
        self.value.is_none()
    }

    /// Serialized size of the key and value, for progress accounting.
    pub fn payload_len(&self) -> (len: usize)
        requires
            len_of(self@.key) + len_of(self@.value) <= usize::MAX,
        ensures
            len == len_of(self@.key) + len_of(self@.value),
    {
        let key: usize = match &self.key {
            Some(key) => key.len(),
            None => 0,
        };
        let value: usize = match &self.value {
            Some(value) => value.len(),
            None => 0,
        };
        key + value
    }
}

/// Why a batch could not be decoded.
#[derive(Debug, Clone)]
pub struct DecodeError {
    /// A human-readable explanation.
    pub reason: String,
}

impl DecodeError {
    /// An error with the given explanation.
    pub fn new(reason: String) -> (error: Self)
        ensures
            error.reason@ == reason@,
    {
        DecodeError { reason }
    }
}

/// The outcome of decoding one unit of the log.
///
/// The outcome is batch-level, not per-record: a batch that will not decode is
/// reported once, with its raw bytes and offset range, and the batches around
/// it still yield their records.
#[derive(Debug, Clone)]
pub enum RecordOutcome {
    /// A decoded record.
    Decoded(Record),
    /// A batch that would not decode.
    Malformed {
        /// The first offset the batch claims to hold, from its header, which
        /// is readable even when the records inside are not.
        offset: i64,
        /// The last offset the batch claims, when the header was intact enough
        /// to say.
        last_offset: Option<i64>,
        /// The raw batch, so it can be dumped, hexed or reported.
        raw: Vec<u8>,
        /// Why.
        reason: DecodeError,
    },
}

/// A [`RecordOutcome`], as plain sequences.
pub enum OutcomeView {
    Decoded(RecordView),
    Malformed { offset: i64, last_offset: Option<i64>, raw: Seq<u8>, reason: Seq<char> },
}

impl View for RecordOutcome {
    type V = OutcomeView;

    open spec fn view(&self) -> OutcomeView {
        match self {
            RecordOutcome::Decoded(record) => OutcomeView::Decoded(record@),
            RecordOutcome::Malformed { offset, last_offset, raw, reason } => OutcomeView::Malformed {
                offset: *offset,
                last_offset: *last_offset,
                raw: raw@,
                reason: reason.reason@,
            },
        }
    }
}

impl OutcomeView {
    /// The offset an outcome is about.
    pub open spec fn offset(self) -> i64 {
        match self {
            OutcomeView::Decoded(record) => record.offset,
            OutcomeView::Malformed { offset, .. } => offset,
        }
    }

    /// The last offset an outcome covers.
    pub open spec fn last_offset(self) -> i64 {
        match self {
            OutcomeView::Decoded(record) => record.offset,
            OutcomeView::Malformed { offset, last_offset, .. } => match last_offset {
                Some(last) => last,
                None => offset,
            },
        }
    }
}

/// Outcomes, as plain sequences.
pub open spec fn outcome_views(outcomes: Seq<RecordOutcome>) -> Seq<OutcomeView> {
    outcomes.map_values(|outcome: RecordOutcome| outcome@)
}

impl RecordOutcome {
    /// The offset this outcome is about.
    pub fn offset(&self) -> (offset: i64)
        ensures
            offset == self@.offset(),
    {
        match self {
            RecordOutcome::Decoded(record) => record.offset,
            RecordOutcome::Malformed { offset, .. } => *offset,
        }
    }

    /// The last offset this outcome covers: its own for a record, the last one
    /// its header claims for a malformed batch.
    pub fn last_offset(&self) -> (offset: i64)
        ensures
            offset == self@.last_offset(),
    {
        match self {
            RecordOutcome::Decoded(record) => record.offset,
            RecordOutcome::Malformed { offset, last_offset, .. } => match last_offset {
                Some(last) => *last,
                None => *offset,
            },
        }
    }

    /// The record, if this outcome has one.
    pub fn record(&self) -> (record: Option<&Record>)
        ensures
            match self {
                RecordOutcome::Decoded(inner) => record == Some(inner),
                RecordOutcome::Malformed { .. } => record is None,
            },
    {
        match self {
            RecordOutcome::Decoded(record) => Some(record),
            RecordOutcome::Malformed { .. } => None,
        }
    }

    /// Whether this outcome is a decode failure.
    pub fn is_malformed(&self) -> (malformed: bool)
        ensures
            malformed == (self@ is Malformed),
    {
        match self {
            RecordOutcome::Decoded(_) => false,
            RecordOutcome::Malformed { .. } => true,
        }
    }
}

} // verus!
