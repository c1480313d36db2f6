//! Idempotence: a producer id, an epoch, and a sequence number per partition.
//!
//! With a producer id, every record carries a `(producer_id, epoch, sequence)`
//! the broker remembers. Re-sending a batch it already appended is detected
//! and answered with the original offsets rather than appended twice, so a
//! failure with an unknown outcome becomes safe to retry.

use vstd::prelude::*;
use vstd::string::*;

use crate::error::{broker_error, code_for, Error, ErrorCode};
use crate::keyed::{PartitionKey, PartitionMap};

verus! {

/// Sequence numbers start here for every partition, and after every reset.
pub const FIRST_SEQUENCE: i32 = 0;

/// The identity a broker issued this producer.
#[derive(Debug, Clone, Copy, PartialEq, Eq, Structural)]
pub struct ProducerIdentity {
    /// The producer id.
    pub producer_id: i64,
    /// Its epoch.
    pub producer_epoch: i16,
}

/// What one batch stamps onto its records.
#[derive(Debug, Clone, Copy, PartialEq, Eq, Structural)]
pub struct BatchIdentity {
    /// The producer id.
    pub producer_id: i64,
    /// Its epoch.
    pub producer_epoch: i16,
    /// The sequence of the batch's first record; the rest count up from it.
    pub base_sequence: i32,
    /// Whether the batch belongs to a transaction.
    pub transactional: bool,
}

/// What a broker answered when it was asked for a producer id.
#[derive(Debug, Clone, Copy, PartialEq, Eq, Structural)]
pub struct InitProducerIdAnswer {
    /// The error code, zero for success.
    pub error_code: i16,
    /// The id it issued.
    pub producer_id: i64,
    /// Its epoch.
    pub producer_epoch: i16,
}

/// Reads the identity out of the broker's answer.
pub fn claimed_identity(answer: InitProducerIdAnswer) -> (identity: Result<ProducerIdentity, Error>)
    ensures
        match identity {
            Ok(identity) => code_for(answer.error_code) is None && identity == (ProducerIdentity {
                producer_id: answer.producer_id,
                producer_epoch: answer.producer_epoch,
            }),
            Err(error) => code_for(answer.error_code) matches Some(code) && error@ == broker_error(
                code,
                None,
            ),
        },
{
    match ErrorCode::from_code(answer.error_code) {
        Some(code) => Err(Error::from_code(code, None)),
        None => Ok(
            ProducerIdentity {
                producer_id: answer.producer_id,
                producer_epoch: answer.producer_epoch,
            },
        ),
    }
}

/// Whether a broker error means our producer state is gone and has to be
/// re-established from scratch.
///
/// All three are recoverable: a producer id expires on a partition that has
/// been idle long enough, which is an ordinary thing.
pub fn invalidates_producer_state(code: ErrorCode) -> (invalid: bool)
    ensures
        invalid == (code == ErrorCode::UnknownProducerId || code
            == ErrorCode::OutOfOrderSequenceNumber || code == ErrorCode::InvalidProducerEpoch),
{
    match code {
        ErrorCode::UnknownProducerId => true,
        ErrorCode::OutOfOrderSequenceNumber => true,
        ErrorCode::InvalidProducerEpoch => true,
        _ => false,
    }
}

/// Per-partition sequence numbers.
///
/// The broker requires the sequence for a partition to advance by exactly the
/// record count of each accepted batch, so a batch that is not accepted must
/// give its numbers back rather than burning them.
pub struct Sequences {
    next: PartitionMap<i32>,
}

/// The number a partition's next batch starts from.
pub open spec fn next_sequence(next: Map<PartitionKey, i32>, key: PartitionKey) -> i32 {
    if next.contains_key(key) {
        next[key]
    } else {
        FIRST_SEQUENCE
    }
}

/// How far a batch of `count` records moves a sequence.
pub open spec fn step(count: usize) -> i32 {
    if count > i32::MAX {
        i32::MAX
    } else {
        count as i32
    }
}

impl Sequences {
    /// Whether the numbers are kept soundly.
    pub closed spec fn wf(&self) -> bool {
        self.next.wf()
    }

    /// The number each partition's next batch starts from, where it is known.
    pub closed spec fn next(&self) -> Map<PartitionKey, i32> {
        self.next.map()
    }

    /// Reserves `count` numbers for a partition and returns the base.
    ///
    /// Kafka sequences are `i32` and are defined to wrap.
    pub fn reserve(&mut self, key: (String, i32), count: usize) -> (base: i32)
        requires
            old(self).wf(),
        ensures
            final(self).wf(),
            base == next_sequence(old(self).next(), (key.0@, key.1)),
            final(self).next() == old(self).next().insert(
                (key.0@, key.1),
                base.wrapping_add(step(count)),
            ),
    {
        let base: i32 = match self.next.get(&key.0, key.1) {
            Some(base) => *base,
            None => FIRST_SEQUENCE,
        };
        let advance: i32 = if count > i32::MAX as usize {
            i32::MAX
        } else {
            count as i32
        };
        self.next.insert(key.0, key.1, base.wrapping_add(advance));
        base
    }

    /// Gives a reservation back, because the batch was never appended.
    ///
    /// Sound only because at most one batch per partition is in flight: with
    /// nothing sent after it, rolling back to its base leaves no gap.
    pub fn release(&mut self, key: (String, i32), base: i32)
        requires
            old(self).wf(),
        ensures
            final(self).wf(),
            final(self).next() == old(self).next().insert((key.0@, key.1), base),
    {
        self.next.insert(key.0, key.1, base);
    }

    /// Forgets everything. The broker no longer recognises our producer id, so
    /// every partition restarts from zero under the new one.
    pub fn reset(&mut self)
        ensures
            final(self).wf(),
            final(self).next() == Map::<PartitionKey, i32>::empty(),
    {
        self.next.clear();
    }
}

impl Default for Sequences {
    /// Every partition at the first number.
    fn default() -> (sequences: Self)
        ensures
            sequences.wf(),
            sequences.next() == Map::<PartitionKey, i32>::empty(),
    {
        Sequences { next: PartitionMap::new() }
    }
}

/// Two batches in a row are numbered without a gap or an overlap, and other
/// partitions keep their numbers.
pub proof fn sequences_are_contiguous(
    next: Map<PartitionKey, i32>,
    key: PartitionKey,
    other: PartitionKey,
    count: usize,
)
    requires
        other != key,
    ensures
        ({
            let base = next_sequence(next, key);
            let after = next.insert(key, base.wrapping_add(step(count)));
            &&& next_sequence(after, key) == base.wrapping_add(step(count))
            &&& next_sequence(after, other) == next_sequence(next, other)
        }),
{
}

/// A reservation that is given back is handed to the next batch, so the broker
/// sees no gap.
pub proof fn a_released_reservation_is_reused(
    next: Map<PartitionKey, i32>,
    key: PartitionKey,
    other: PartitionKey,
    count: usize,
)
    ensures
        ({
            let base = next_sequence(next, key);
            let reserved = next.insert(key, base.wrapping_add(step(count)));
            next_sequence(reserved.insert(key, base), other) == next_sequence(next, other)
        }),
{
}

/// After a reset every partition starts from the first number again.
pub proof fn a_reset_restarts_every_partition(key: PartitionKey)
    ensures
        next_sequence(Map::<PartitionKey, i32>::empty(), key) == FIRST_SEQUENCE,
{
}

} // verus!
