//! What a caller hands over, and what comes back.

use vstd::prelude::*;
use vstd::string::*;

use crate::wire::{bytes_of, headers_of, HeaderView};

verus! {

/// A record to write.
///
/// `key` and `value` are both optional, and the distinction between `None` and
/// an empty value is load-bearing: a record with no value is a tombstone, and
/// on a compacted topic it deletes the key rather than storing nothing under
/// it.
#[derive(Debug, Clone, PartialEq, Eq)]
pub struct ProducerRecord {
    /// The topic to write to.
    pub topic: String,
    /// The partition, when the caller is choosing it.
    ///
    /// `None` hands the choice to the partitioner: by key when there is one,
    /// stickily when there is not.
    pub partition: Option<i32>,
    /// The record key.
    pub key: Option<Vec<u8>>,
    /// The record value. `None` is a tombstone.
    pub value: Option<Vec<u8>>,
    /// Headers, in the order they were given.
    ///
    /// A list rather than a map because Kafka headers are an ordered list and
    /// may repeat a name. A batch carries one value per name, so a repeated
    /// name is written once, with its last value.
    pub headers: Vec<(String, Option<Vec<u8>>)>,
    /// The record timestamp in milliseconds, when the caller is choosing it.
    ///
    /// `None` means now.
    pub timestamp: Option<i64>,
}

/// A [`ProducerRecord`], as plain sequences.
pub struct ProducerRecordView {
    pub topic: Seq<char>,
    pub partition: Option<i32>,
    pub key: Option<Seq<u8>>,
    pub value: Option<Seq<u8>>,
    pub headers: Seq<HeaderView>,
    pub timestamp: Option<i64>,
}

impl View for ProducerRecord {
    type V = ProducerRecordView;

    open spec fn view(&self) -> ProducerRecordView {
        ProducerRecordView {
            topic: self.topic@,
            partition: self.partition,
            key: bytes_of(self.key),
            value: bytes_of(self.value),
            headers: headers_of(self.headers@),
            timestamp: self.timestamp,
        }
    }
}

/// Records, as plain sequences.
pub open spec fn producer_views(records: Seq<ProducerRecord>) -> Seq<ProducerRecordView> {
    records.map_values(|record: ProducerRecord| record@)
}

impl ProducerRecord {
    /// A record destined for `topic`, with no key, value or headers.
    pub fn new(topic: &str) -> (record: Self)
        ensures
            record@ == (ProducerRecordView {
                topic: topic@,
                partition: None,
                key: None,
                value: None,
                headers: seq![],
                timestamp: None,
            }),
    {
        let record = ProducerRecord {
            topic: topic.to_owned(),
            partition: None,
            key: None,
            value: None,
            headers: Vec::new(),
            timestamp: None,
        };
        assert(record@.headers =~= seq![]);
        record
    }

    /// Writes to an explicit partition, bypassing the partitioner.
    #[must_use]
    pub fn with_partition(self, partition: i32) -> (record: Self)
        ensures
            record@ == (ProducerRecordView { partition: Some(partition), ..self@ }),
    {
        ProducerRecord { partition: Some(partition), ..self }
    }

    /// Sets the partition from an `Option`, leaving the choice to the
    /// partitioner when there is none.
    ///
    /// Assignment rather than a merge: `None` clears a partition set earlier
    /// in the chain.
    #[must_use]
    pub fn with_maybe_partition(self, partition: Option<i32>) -> (record: Self)
        ensures
            record@ == (ProducerRecordView { partition, ..self@ }),
    {
        ProducerRecord { partition, ..self }
    }

    /// Sets the key.
    #[must_use]
    pub fn with_key(self, key: Vec<u8>) -> (record: Self)
        ensures
            record@ == (ProducerRecordView { key: Some(key@), ..self@ }),
    {
        ProducerRecord { key: Some(key), ..self }
    }

    /// Sets the value.
    ///
    /// Leaving it unset is not the same as setting an empty one: a record with
    /// no value is a tombstone.
    #[must_use]
    pub fn with_value(self, value: Vec<u8>) -> (record: Self)
        ensures
            record@ == (ProducerRecordView { value: Some(value@), ..self@ }),
    {
        ProducerRecord { value: Some(value), ..self }
    }

    /// Appends a header.
    #[must_use]
    pub fn with_header(self, name: &str, value: Vec<u8>) -> (record: Self)
        ensures
            record@ == (ProducerRecordView {
                headers: self@.headers.push((name@, Some(value@))),
                ..self@
            }),
    {
        let ghost before = self@.headers;
        let mut headers = self.headers;
        headers.push((name.to_owned(), Some(value)));
        assert(headers_of(headers@) =~= before.push((name@, Some(value@))));
        ProducerRecord { headers, ..self }
    }

    /// Appends a header with a null value, which is distinct from an empty one.
    #[must_use]
    pub fn with_null_header(self, name: &str) -> (record: Self)
        ensures
            record@ == (ProducerRecordView {
                headers: self@.headers.push((name@, None)),
                ..self@
            }),
    {
        let ghost before = self@.headers;
        let mut headers = self.headers;
        headers.push((name.to_owned(), None));
        assert(headers_of(headers@) =~= before.push((name@, None)));
        ProducerRecord { headers, ..self }
    }

    /// Sets an explicit timestamp, in milliseconds since the epoch.
    #[must_use]
    pub fn with_timestamp(self, timestamp: i64) -> (record: Self)
        ensures
            record@ == (ProducerRecordView { timestamp: Some(timestamp), ..self@ }),
    {
        ProducerRecord { timestamp: Some(timestamp), ..self }
    }
}

/// Where a record landed.
#[derive(Debug, Clone, PartialEq, Eq)]
pub struct RecordMetadata {
    /// The topic written to.
    pub topic: String,
    /// The partition written to.
    pub partition: i32,
    /// The offset the record was assigned.
    pub offset: i64,
    /// The timestamp the broker recorded, when it reported one.
    ///
    /// `None` is the normal case on a `CreateTime` topic: there the timestamp
    /// the caller supplied is the one stored.
    pub timestamp: Option<i64>,
}

} // verus!
