//! What a producer was asked to guarantee.

use vstd::prelude::*;
use vstd::string::*;

pub use crate::compression::Compression;

verus! {

/// How many acknowledgements the leader must collect before it answers.
///
/// There is deliberately no variant for none at all: that is a request the
/// broker never responds to.
#[derive(Debug, Clone, Copy, PartialEq, Eq, Structural)]
pub enum Acks {
    /// The leader has written the record to its own log.
    Leader,
    /// Every in-sync replica has written the record.
    All,
}

impl Default for Acks {
    /// A library that reports success should mean it.
    fn default() -> (acks: Self)
        ensures
            acks == Acks::All,
    {
        Acks::All
    }
}

/// The wire value of an acknowledgement setting.
pub open spec fn acks_number(acks: Acks) -> int {
    match acks {
        Acks::Leader => 1,
        Acks::All => -1,
    }
}

impl Acks {
    /// The wire value. `-1` is the protocol's spelling of "the full ISR".
    pub fn wire(self) -> (value: i16)
        ensures
            value == acks_number(self),
    {
        match self {
            Acks::Leader => 1,
            Acks::All => -1,
        }
    }
}

/// No setting asks for the request a broker never answers.
pub proof fn acks_are_never_zero(acks: Acks)
    ensures
        acks_number(acks) != 0,
{
}

/// How often to re-send what may be re-sent.
#[derive(Debug, Clone, Copy, PartialEq, Eq, Structural)]
pub struct RetryPolicy {
    /// Attempts in all, the first one included.
    pub max_attempts: u32,
}

impl Default for RetryPolicy {
    /// Five attempts.
    fn default() -> (policy: Self)
        ensures
            policy.max_attempts == 5,
    {
        RetryPolicy { max_attempts: 5 }
    }
}

impl RetryPolicy {
    /// Whether another attempt may follow attempt number `attempt`, counting
    /// from one.
    pub fn should_retry(&self, attempt: u32) -> (retry: bool)
        ensures
            retry == (attempt < self.max_attempts),
    {
        attempt < self.max_attempts
    }
}

/// How a producer behaves. Times are in milliseconds, sizes in bytes.
#[derive(Debug, Clone)]
pub struct ProducerConfig {
    /// How many acknowledgements to require.
    pub acks: Acks,
    /// The codec applied to each batch.
    pub compression: Compression,
    /// How long the broker may spend collecting acknowledgements.
    pub delivery_timeout: u128,
    /// How to re-send a batch the broker rejected.
    pub retry: RetryPolicy,
    /// Whether batches carry a producer id and sequence numbers.
    pub idempotent: bool,
    /// How long an open batch waits for company.
    pub linger: u64,
    /// The size at which an open batch is closed.
    pub batch_size: usize,
    /// The largest record that is accepted.
    pub max_request_size: usize,
    /// How much may be buffered.
    pub buffer_memory: usize,
    /// The transactional id, for a producer that writes transactions.
    pub transactional_id: Option<String>,
}

impl ProducerConfig {
    /// The defaults: acknowledged by the full ISR, uncompressed, idempotent.
    pub fn new() -> (config: Self)
        ensures
            config.acks == Acks::All,
            config.compression == Compression::Uncompressed,
            config.delivery_timeout == 30_000,
            config.retry.max_attempts == 5,
            config.idempotent,
            config.linger == 5,
            config.batch_size == 16 * 1024,
            config.max_request_size == 1024 * 1024,
            config.buffer_memory == 32 * 1024 * 1024,
            config.transactional_id is None,
    {
        ProducerConfig {
            acks: Acks::All,
            compression: Compression::Uncompressed,
            delivery_timeout: 30_000,
            retry: RetryPolicy { max_attempts: 5 },
            idempotent: true,
            linger: 5,
            batch_size: 16 * 1024,
            max_request_size: 1024 * 1024,
            buffer_memory: 32 * 1024 * 1024,
            transactional_id: None,
        }
    }

    /// How to re-send a batch the broker rejected.
    #[must_use]
    pub fn retry(self, retry: RetryPolicy) -> (config: Self)
        ensures
            config == (ProducerConfig { retry, ..self }),
    {
        ProducerConfig { retry, ..self }
    }

    /// Sets how many acknowledgements to require.
    #[must_use]
    pub fn acks(self, acks: Acks) -> (config: Self)
        ensures
            config == (ProducerConfig { acks, ..self }),
    {
        ProducerConfig { acks, ..self }
    }

    /// Compresses each batch with the given codec.
    #[must_use]
    pub fn compression(self, compression: Compression) -> (config: Self)
        ensures
            config == (ProducerConfig { compression, ..self }),
    {
        ProducerConfig { compression, ..self }
    }

    /// How long the broker may spend collecting acknowledgements.
    #[must_use]
    pub fn delivery_timeout(self, timeout: u128) -> (config: Self)
        ensures
            config == (ProducerConfig { delivery_timeout: timeout, ..self }),
    {
        ProducerConfig { delivery_timeout: timeout, ..self }
    }

    /// Whether batches carry a producer id and sequence numbers.
    #[must_use]
    pub fn idempotent(self, idempotent: bool) -> (config: Self)
        ensures
            config == (ProducerConfig { idempotent, ..self }),
    {
        ProducerConfig { idempotent, ..self }
    }

    /// How long an open batch waits for company.
    #[must_use]
    pub fn linger(self, linger: u64) -> (config: Self)
        ensures
            config == (ProducerConfig { linger, ..self }),
    {
        ProducerConfig { linger, ..self }
    }

    /// The largest record that is accepted.
    #[must_use]
    pub fn max_request_size(self, bytes: usize) -> (config: Self)
        ensures
            config == (ProducerConfig { max_request_size: bytes, ..self }),
    {
        ProducerConfig { max_request_size: bytes, ..self }
    }

    /// How much may be buffered.
    #[must_use]
    pub fn buffer_memory(self, bytes: usize) -> (config: Self)
        ensures
            config == (ProducerConfig { buffer_memory: bytes, ..self }),
    {
        ProducerConfig { buffer_memory: bytes, ..self }
    }

    /// Writes transactions under this id.
    #[must_use]
    pub fn transactional_id(self, id: String) -> (config: Self)
        ensures
            config == (ProducerConfig { transactional_id: Some(id), ..self }),
    {
        ProducerConfig { transactional_id: Some(id), ..self }
    }

    /// The delivery timeout in the milliseconds the request field wants, held
    /// at the field's largest value.
    pub fn delivery_timeout_ms(&self) -> (timeout: i32)
        ensures
            timeout == if self.delivery_timeout > i32::MAX {
                i32::MAX as int
            } else {
                self.delivery_timeout as int
            },
    {
        if self.delivery_timeout > i32::MAX as u128 {
            i32::MAX
        } else {
            self.delivery_timeout as i32
        }
    }

    /// How many requests a connection may have in flight: one without
    /// idempotence, five with it, which is how many sequence windows a broker
    /// tracks per partition.
    pub fn max_in_flight(&self) -> (most: usize)
        ensures
            most == if self.idempotent {
                5usize
            } else {
                1usize
            },
    {
        if self.idempotent {
            5
        } else {
            1
        }
    }
}

impl Default for ProducerConfig {
    /// The same as [`ProducerConfig::new`].
    fn default() -> (config: Self)
        ensures
            config.acks == Acks::All,
            config.compression == Compression::Uncompressed,
            config.delivery_timeout == 30_000,
            config.retry.max_attempts == 5,
            config.idempotent,
            config.linger == 5,
            config.batch_size == 16 * 1024,
            config.max_request_size == 1024 * 1024,
            config.buffer_memory == 32 * 1024 * 1024,
            config.transactional_id is None,
    {
        ProducerConfig::new()
    }
}

} // verus!
