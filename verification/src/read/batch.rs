//! Tolerant batch decoding.
//!
//! Three things in a fetch response look like corruption and are not:
//!
//! 1. **A truncated trailing batch.** `max_bytes` cuts a fetch mid-batch by
//!    design.
//! 2. **Control batches.** Attribute bit 5 marks a transaction marker. It is
//!    not user data.
//! 3. **Aborted transaction records.** Under `read_committed` the broker sends
//!    them anyway and hands over a list for the client to filter with.
//!
//! Everything else that fails to decode becomes a
//! [`RecordOutcome::Malformed`] and the walk continues.

use std::collections::HashSet;

use anyhow::Error;
use bytes::Bytes;
use kafka_protocol::records::{Record as ProtocolRecord, RecordBatchDecoder};
use vstd::prelude::*;
use vstd::slice::*;
use vstd::string::*;

use crate::compression::{codec_of, Compression};
use crate::read::decompress::{unpack, unpacked, MIN_RECORD_BYTES};
use crate::read::record::{
    outcome_views, DecodeError, OutcomeView, Record, RecordOutcome, RecordView,
};
use crate::text::decimal;
use crate::wire::{from_wire, list_headers, wire_views, TimestampType, WireRecord, WireRecordView};

verus! {

broadcast use vstd::std_specs::hash::group_hash_axioms;

/// `baseOffset`, i64.
pub const BASE_OFFSET: usize = 0;

/// `batchLength`, i32: the byte count after this field.
pub const BATCH_LENGTH: usize = 8;

/// `magic`, i8.
pub const MAGIC: usize = 16;

/// `attributes`, i16.
pub const ATTRIBUTES: usize = 21;

/// `lastOffsetDelta`, i32.
pub const LAST_OFFSET_DELTA: usize = 23;

/// `baseTimestamp`, i64.
pub const BASE_TIMESTAMP: usize = 27;

/// `producerId`, i64.
pub const PRODUCER_ID: usize = 43;

/// `recordsCount`, i32: the last field of the header.
pub const RECORD_COUNT: usize = 57;

/// Bytes before `batchLength`'s coverage begins.
pub const PREFIX_LEN: usize = 12;

/// The smallest complete v2 batch header.
pub const MIN_LEN: usize = 61;

/// Attribute bit 5: this batch is a transaction marker, not user data.
pub const CONTROL_FLAG: i16 = 0x20;

/// Attribute bit 4: the records belong to a transaction.
pub const TRANSACTIONAL_FLAG: i16 = 0x10;

/// Attribute bits 0-2: the compression codec.
pub const COMPRESSION_MASK: i16 = 0x07;

/// A big-endian unsigned number.
pub open spec fn big_endian(bytes: Seq<u8>) -> nat
    decreases bytes.len(),
{
    if bytes.len() == 0 {
        0
    } else {
        256 * big_endian(bytes.drop_last()) + bytes.last() as nat
    }
}

/// The two's-complement reading of an unsigned number below `span`.
pub open spec fn twos_complement(n: nat, span: nat) -> int {
    if 2 * n < span {
        n as int
    } else {
        n - span
    }
}

/// The i16 at `at`.
pub open spec fn i16_at(buf: Seq<u8>, at: int) -> i16 {
    twos_complement(big_endian(buf.subrange(at, at + 2)), 0x1_0000) as i16
}

/// The i32 at `at`.
pub open spec fn i32_at(buf: Seq<u8>, at: int) -> i32 {
    twos_complement(big_endian(buf.subrange(at, at + 4)), 0x1_0000_0000) as i32
}

/// The i64 at `at`.
pub open spec fn i64_at(buf: Seq<u8>, at: int) -> i64 {
    twos_complement(big_endian(buf.subrange(at, at + 8)), 0x1_0000_0000_0000_0000) as i64
}

/// Accumulates the `count` big-endian bytes at `at`.
fn read_big_endian(buf: &[u8], at: usize, count: usize) -> (n: u64)
    requires
        at + count <= buf@.len(),
        count <= 8,
    ensures
        n == big_endian(buf@.subrange(at as int, at + count)),
        count == 2 ==> n < 0x1_0000,
        count == 4 ==> n < 0x1_0000_0000,
{
    let mut n: u64 = 0;
    let mut i: usize = 0;
    assert(buf@.subrange(at as int, at as int) =~= Seq::<u8>::empty());
    while i < count
        invariant
            at + count <= buf.len(),
            i <= count <= 8,
            n == big_endian(buf@.subrange(at as int, at + i)),
            i == 0 ==> n == 0,
            i <= 1 ==> n < 0x100,
            i <= 2 ==> n < 0x1_0000,
            i <= 3 ==> n < 0x100_0000,
            i <= 4 ==> n < 0x1_0000_0000,
            i <= 5 ==> n < 0x100_0000_0000,
            i <= 6 ==> n < 0x1_0000_0000_0000,
            i <= 7 ==> n < 0x100_0000_0000_0000,
        decreases count - i,
    {
        proof {
            let longer = buf@.subrange(at as int, at + i + 1);
            assert(longer.drop_last() =~= buf@.subrange(at as int, at + i));
        }
        n = n * 256 + buf[at + i] as u64;
        i += 1;
    }
    n
}

/// The i16 at `at`, if the buffer reaches that far.
pub fn read_i16(buf: &[u8], at: usize) -> (value: Option<i16>)
    ensures
        match value {
            Some(value) => at + 2 <= buf@.len() && value == i16_at(buf@, at as int),
            None => at + 2 > buf@.len(),
        },
{
    if buf.len() < 2 || at > buf.len() - 2 {
        return None;
    }
    let n: u64 = read_big_endian(buf, at, 2);
    if n < 0x8000 {
        Some(n as i16)
    } else {
        Some((n as i64 - 0x1_0000) as i16)
    }
}

/// The i32 at `at`, if the buffer reaches that far.
pub fn read_i32(buf: &[u8], at: usize) -> (value: Option<i32>)
    ensures
        match value {
            Some(value) => at + 4 <= buf@.len() && value == i32_at(buf@, at as int),
            None => at + 4 > buf@.len(),
        },
{
    if buf.len() < 4 || at > buf.len() - 4 {
        return None;
    }
    let n: u64 = read_big_endian(buf, at, 4);
    if n < 0x8000_0000 {
        Some(n as i32)
    } else {
        Some((n as i64 - 0x1_0000_0000) as i32)
    }
}

/// The i64 at `at`, if the buffer reaches that far.
pub fn read_i64(buf: &[u8], at: usize) -> (value: Option<i64>)
    ensures
        match value {
            Some(value) => at + 8 <= buf@.len() && value == i64_at(buf@, at as int),
            None => at + 8 > buf@.len(),
        },
{
    if buf.len() < 8 || at > buf.len() - 8 {
        return None;
    }
    let n: u64 = read_big_endian(buf, at, 8);
    if n < 0x8000_0000_0000_0000 {
        Some(n as i64)
    } else {
        let below: u64 = 0xffff_ffff_ffff_ffff - n;
        Some(-1 - (below as i64))
    }
}

/// What a batch header says, read without decoding the records.
#[derive(Debug, Clone, Copy, PartialEq, Eq, Structural)]
pub struct BatchHeader {
    /// First offset in the batch.
    pub base_offset: i64,
    /// Last offset in the batch.
    pub last_offset: i64,
    /// Total bytes this batch occupies, header included.
    pub total_len: usize,
    /// Whether this is a control batch.
    pub control: bool,
    /// Whether the records are transactional.
    pub transactional: bool,
    /// The producer that wrote it.
    pub producer_id: i64,
    /// The codec the records are compressed with.
    pub compression: Compression,
    /// How many records the header claims. Not to be trusted: see
    /// [`max_plausible_records`].
    pub record_count: usize,
    /// The timestamp that the records' own are relative to.
    pub base_timestamp: i64,
}

/// Why a batch could not even be looked at.
#[derive(Debug, Clone, Copy, PartialEq, Eq, Structural)]
pub enum HeaderProblem {
    /// The buffer holds less than a full batch.
    ///
    /// Normal, not corruption: it is what `max_bytes` looks like.
    Truncated,
    /// The header is present but says something impossible.
    Malformed,
}

/// The sum of two offsets, held at the ends of the i64 range.
pub open spec fn saturating(n: int) -> i64 {
    if n > i64::MAX {
        i64::MAX
    } else if n < i64::MIN {
        i64::MIN
    } else {
        n as i64
    }
}

/// `a + b`, held at the ends of the i64 range.
pub fn saturating_sum(a: i64, b: i64) -> (sum: i64)
    ensures
        sum == saturating(a + b),
{
    let sum: i128 = a as i128 + b as i128;
    if sum > i64::MAX as i128 {
        i64::MAX
    } else if sum < i64::MIN as i128 {
        i64::MIN
    } else {
        sum as i64
    }
}

/// The difference of two offsets, held at the ends of the range.
pub fn saturating_difference(a: i64, b: i64) -> (difference: i64)
    ensures
        difference == saturating(a - b),
{
    let exact: i128 = a as i128 - b as i128;
    if exact > i64::MAX as i128 {
        i64::MAX
    } else if exact < i64::MIN as i128 {
        i64::MIN
    } else {
        exact as i64
    }
}

/// What the header at the front of a buffer says.
pub open spec fn header_of(buf: Seq<u8>) -> Result<BatchHeader, HeaderProblem> {
    if buf.len() < MIN_LEN {
        Err(HeaderProblem::Truncated)
    } else {
        let batch_length = i32_at(buf, BATCH_LENGTH as int);
        let attributes = i16_at(buf, ATTRIBUTES as int);
        let base_offset = i64_at(buf, BASE_OFFSET as int);
        let record_count = i32_at(buf, RECORD_COUNT as int);
        if batch_length < 0 {
            Err(HeaderProblem::Malformed)
        } else if buf.len() < PREFIX_LEN + batch_length {
            Err(HeaderProblem::Truncated)
        } else if buf[MAGIC as int] != 2 || record_count < 0 {
            Err(HeaderProblem::Malformed)
        } else {
            Ok(
                BatchHeader {
                    base_offset,
                    last_offset: saturating(base_offset + i32_at(buf, LAST_OFFSET_DELTA as int)),
                    total_len: (PREFIX_LEN + batch_length) as usize,
                    control: attributes & CONTROL_FLAG != 0,
                    transactional: attributes & TRANSACTIONAL_FLAG != 0,
                    producer_id: i64_at(buf, PRODUCER_ID as int),
                    compression: codec_of((attributes & COMPRESSION_MASK) as int),
                    record_count: record_count as usize,
                    base_timestamp: i64_at(buf, BASE_TIMESTAMP as int),
                },
            )
        }
    }
}

/// Reads a batch header without consuming the buffer.
pub fn peek_header(buf: &[u8]) -> (header: Result<BatchHeader, HeaderProblem>)
    ensures
        header == header_of(buf@),
        header matches Ok(header) ==> PREFIX_LEN <= header.total_len <= buf@.len(),
{
    if buf.len() < MIN_LEN {
        return Err(HeaderProblem::Truncated);
    }
    let batch_length: i32 = read_i32(buf, BATCH_LENGTH).ok_or(HeaderProblem::Truncated)?;
    if batch_length < 0 {
        return Err(HeaderProblem::Malformed);
    }
    let total_len: usize = PREFIX_LEN + batch_length as usize;
    if buf.len() < total_len {
        // The broker cut us off at max_bytes. Expected.
        return Err(HeaderProblem::Truncated);
    }
    let magic: u8 = buf[MAGIC];
    // Magic 2 is the only batch format Kafka 4.x writes; 0 and 1 are the
    // pre-0.11 message sets, which a 4.x broker will not serve.
    if magic != 2 {
        return Err(HeaderProblem::Malformed);
    }
    let attributes: i16 = read_i16(buf, ATTRIBUTES).ok_or(HeaderProblem::Truncated)?;
    let base_offset: i64 = read_i64(buf, BASE_OFFSET).ok_or(HeaderProblem::Truncated)?;
    let last_offset_delta: i32 = read_i32(buf, LAST_OFFSET_DELTA).ok_or(HeaderProblem::Truncated)?;
    let base_timestamp: i64 = read_i64(buf, BASE_TIMESTAMP).ok_or(HeaderProblem::Truncated)?;
    let producer_id: i64 = read_i64(buf, PRODUCER_ID).ok_or(HeaderProblem::Truncated)?;
    let record_count: i32 = read_i32(buf, RECORD_COUNT).ok_or(HeaderProblem::Truncated)?;
    if record_count < 0 {
        return Err(HeaderProblem::Malformed);
    }
    let compression = match attributes & COMPRESSION_MASK {
        1 => Compression::Gzip,
        2 => Compression::Snappy,
        3 => Compression::Lz4,
        4 => Compression::Zstd,
        _ => Compression::Uncompressed,
    };
    Ok(
        BatchHeader {
            base_offset,
            last_offset: saturating_sum(base_offset, last_offset_delta as i64),
            total_len,
            control: attributes & CONTROL_FLAG != 0,
            transactional: attributes & TRANSACTIONAL_FLAG != 0,
            producer_id,
            compression,
            record_count: record_count as usize,
            base_timestamp,
        },
    )
}

/// A producer id whose records were rolled back, with the offset it started at.
#[derive(Debug, Clone, Copy, PartialEq, Eq, Structural)]
pub struct AbortedTransaction {
    /// The producer.
    pub producer_id: i64,
    /// The first offset of the aborted transaction.
    pub first_offset: i64,
}

/// Whether aborted-transaction records are visible.
#[derive(Debug, Clone, Copy, PartialEq, Eq, Structural)]
pub enum Visibility {
    /// Show every record the log holds, including records from transactions
    /// that were later aborted.
    All,
    /// Hide records from aborted transactions: what a `read_committed`
    /// consumer sees.
    CommittedOnly,
}

impl Default for Visibility {
    /// What is in the partition, rolled back or not.
    fn default() -> (visibility: Self)
        ensures
            visibility == Visibility::All,
    {
        Visibility::All
    }
}

/// How to decode a fetched partition.
#[derive(Debug, Clone, Copy)]
pub struct DecodeOptions {
    /// Ceiling on a single batch's decompressed size.
    pub max_decompressed_bytes: usize,
    /// Whether aborted records are visible.
    pub visibility: Visibility,
}

impl Default for DecodeOptions {
    /// Generously above Kafka's 1 MiB `max.message.bytes` default, and far
    /// below anything that threatens a process.
    fn default() -> (options: Self)
        ensures
            options.max_decompressed_bytes == 64 * 1024 * 1024,
            options.visibility == Visibility::All,
    {
        DecodeOptions { max_decompressed_bytes: 64 * 1024 * 1024, visibility: Visibility::All }
    }
}

/// What decoding one fetched partition produced.
#[derive(Debug)]
pub struct DecodedPartition {
    /// Records and decode failures, in log order.
    pub outcomes: Vec<RecordOutcome>,
    /// Control batches skipped.
    pub control_batches_skipped: usize,
    /// Records hidden because their transaction was aborted.
    pub aborted_records_skipped: usize,
    /// Whether the last batch was cut short by `max_bytes`.
    ///
    /// Reported as information, not as an error: a caller that fetched with a
    /// small budget uses it to know there is more to ask for.
    pub truncated_tail: bool,
    /// The last offset of the last batch that was all there, whatever became
    /// of it: `None` when there was no such batch. It may lie past the last
    /// record: compaction takes records out of a batch and leaves its bounds.
    pub last_offset: Option<i64>,
}

/// A [`DecodedPartition`], as plain sequences. The counts are exact here and
/// held at the machine's largest number there.
pub struct DecodedView {
    pub outcomes: Seq<OutcomeView>,
    pub control_batches_skipped: nat,
    pub aborted_records_skipped: nat,
    pub truncated_tail: bool,
    pub last_offset: Option<i64>,
}

/// A count, held at the machine's largest number.
pub open spec fn held(count: nat) -> usize {
    if count > usize::MAX {
        usize::MAX
    } else {
        count as usize
    }
}

impl DecodedPartition {
    /// Whether this is what `view` describes.
    pub open spec fn is(self, view: DecodedView) -> bool {
        &&& outcome_views(self.outcomes@) == view.outcomes
        &&& self.control_batches_skipped == held(view.control_batches_skipped)
        &&& self.aborted_records_skipped == held(view.aborted_records_skipped)
        &&& self.truncated_tail == view.truncated_tail
        &&& self.last_offset == view.last_offset
    }
}

/// The most records a batch could physically contain.
pub open spec fn plausible_records(header: BatchHeader, limit: usize) -> nat {
    if header.compression == Compression::Uncompressed {
        if header.total_len < MIN_LEN {
            0
        } else {
            ((header.total_len - MIN_LEN) / MIN_RECORD_BYTES as int) as nat
        }
    } else {
        (limit / MIN_RECORD_BYTES) as nat
    }
}

/// The most records a batch could physically contain.
///
/// The decoder reserves room for the header's record count before it has
/// parsed anything, so a count nothing else validates is an allocation the
/// sender chooses freely. The bound is what the batch could actually hold:
/// uncompressed, its own payload; compressed, the decompression ceiling.
pub fn max_plausible_records(header: &BatchHeader, options: &DecodeOptions) -> (most: usize)
    ensures
        most == plausible_records(*header, options.max_decompressed_bytes),
{
    let payload: usize = match header.compression {
        Compression::Uncompressed => header.total_len.saturating_sub(MIN_LEN),
        _ => options.max_decompressed_bytes,
    };
    payload / MIN_RECORD_BYTES
}

/// The variable-length number at the front of some bytes, seven bits a byte with
/// the least ones first, and how many bytes it takes: all up to the first that
/// does not announce another, and no more than five. `nth` bytes of it are
/// behind.
pub open spec fn varint(bytes: Seq<u8>, nth: nat) -> Option<(nat, nat)>
    decreases bytes.len(),
{
    if nth >= 5 {
        Some((0, 0))
    } else if bytes.len() == 0 {
        None
    } else if bytes[0] < 128 {
        Some((bytes[0] as nat, 1))
    } else {
        match varint(bytes.skip(1), nth + 1) {
            Some((rest, len)) => Some(((bytes[0] - 128 + 128 * rest) as nat, len + 1)),
            None => None,
        }
    }
}

/// The signed number that a 32-bit number stands for when signs alternate: 0,
/// -1, 1, -2 and so on.
pub open spec fn unzigzag(n: nat) -> int {
    if n % 2 == 0 {
        n as int / 2
    } else {
        -(n as int / 2) - 1
    }
}

/// The signed variable-length number at the front of some bytes, and how many
/// bytes it takes. Bits past the 32nd are dropped.
pub open spec fn step_at(bytes: Seq<u8>) -> Option<(int, nat)> {
    match varint(bytes, 0) {
        Some((n, len)) => Some((unzigzag(n % 0x1_0000_0000), len)),
        None => None,
    }
}

/// Whether a number is an i64.
pub open spec fn is_i64(n: int) -> bool {
    i64::MIN <= n <= i64::MAX
}

/// Whether a record's offset and timestamp, each a step from its batch's, are
/// i64s, as far as the record is long enough to say what they are.
pub open spec fn record_fits(record: Seq<u8>, base_offset: i64, base_timestamp: i64) -> bool {
    record.len() > 0 ==> match step_at(record.skip(1)) {
        Some((timestamp, len)) => is_i64(base_timestamp + timestamp) && match step_at(
            record.skip(1 + len as int),
        ) {
            Some((offset, _)) => is_i64(base_offset + offset),
            None => true,
        },
        None => true,
    }
}

/// Whether every record of a batch's payload has an offset and a timestamp that
/// are i64s, as far as the payload holds the records it should.
pub open spec fn payload_fits(
    payload: Seq<u8>,
    count: nat,
    base_offset: i64,
    base_timestamp: i64,
) -> bool
    decreases count,
{
    if count == 0 {
        true
    } else {
        match step_at(payload) {
            None => true,
            Some((size, len)) => if size < 0 || len + size > payload.len() {
                true
            } else {
                &&& record_fits(
                    payload.subrange(len as int, len + size),
                    base_offset,
                    base_timestamp,
                )
                &&& payload_fits(
                    payload.skip(len + size),
                    (count - 1) as nat,
                    base_offset,
                    base_timestamp,
                )
            },
        }
    }
}

/// Whether every record of a complete batch has an offset and a timestamp that
/// are i64s, as far as its payload can be unpacked.
pub open spec fn batch_fits(header: BatchHeader, batch: Seq<u8>, claimed: usize, limit: usize) -> bool {
    batch.len() >= MIN_LEN ==> match unpacked(
        batch.skip(MIN_LEN as int),
        header.compression,
        claimed,
        limit,
    ) {
        Ok(payload) => payload_fits(
            payload,
            header.record_count as nat,
            header.base_offset,
            header.base_timestamp,
        ),
        Err(_) => true,
    }
}

/// The variable-length number at `at`, and how many bytes it takes.
fn read_varint(buf: &[u8], at: usize, end: usize, nth: u8) -> (number: Option<(u64, usize)>)
    requires
        at <= end <= buf@.len(),
        nth <= 5,
    ensures
        match number {
            Some((n, len)) => varint(buf@.subrange(at as int, end as int), nth as nat) == Some(
                (n as nat, len as nat),
            ),
            None => varint(buf@.subrange(at as int, end as int), nth as nat) is None,
        },
        number matches Some((n, len)) ==> at + len <= end && match nth {
            0 => n < 0x8_0000_0000,
            1 => n < 0x1000_0000,
            2 => n < 0x20_0000,
            3 => n < 0x4000,
            4 => n < 0x80,
            _ => n == 0,
        },
    decreases 5 - nth,
{
    if nth >= 5 {
        return Some((0, 0));
    }
    if at == end {
        return None;
    }
    let byte: u8 = buf[at];
    assert(buf@.subrange(at as int, end as int)[0] == byte);
    assert(buf@.subrange(at as int, end as int).skip(1) =~= buf@.subrange(at + 1, end as int));
    if byte < 128 {
        return Some((byte as u64, 1));
    }
    match read_varint(buf, at + 1, end, nth + 1) {
        Some((rest, len)) => Some((byte as u64 - 128 + 128 * rest, len + 1)),
        None => None,
    }
}

/// The signed variable-length number at `at`, and how many bytes it takes.
fn read_step(buf: &[u8], at: usize, end: usize) -> (step: Option<(i64, usize)>)
    requires
        at <= end <= buf@.len(),
    ensures
        match step {
            Some((n, len)) => step_at(buf@.subrange(at as int, end as int)) == Some(
                (n as int, len as nat),
            ) && i32::MIN <= n <= i32::MAX && at + len <= end,
            None => step_at(buf@.subrange(at as int, end as int)) is None,
        },
{
    match read_varint(buf, at, end, 0) {
        Some((n, len)) => {
            let low: u64 = n % 0x1_0000_0000;
            let half: i64 = (low / 2) as i64;
            if low % 2 == 0 {
                Some((half, len))
            } else {
                Some((-half - 1, len))
            }
        },
        None => None,
    }
}

/// Whether the sum of two numbers is an i64.
fn sum_fits(a: i64, b: i64) -> (fits: bool)
    ensures
        fits == is_i64(a + b),
{
    let sum: i128 = a as i128 + b as i128;
    i64::MIN as i128 <= sum && sum <= i64::MAX as i128
}

/// Whether a record's offset and timestamp are i64s.
fn check_record(buf: &[u8], at: usize, end: usize, base_offset: i64, base_timestamp: i64) -> (fits:
    bool)
    requires
        at <= end <= buf@.len(),
    ensures
        fits == record_fits(buf@.subrange(at as int, end as int), base_offset, base_timestamp),
{
    if at == end {
        return true;
    }
    let ghost record = buf@.subrange(at as int, end as int);
    assert(record.skip(1) =~= buf@.subrange(at + 1, end as int));
    let (timestamp, len): (i64, usize) = match read_step(buf, at + 1, end) {
        Some(step) => step,
        None => {
            return true;
        },
    };
    assert(record.skip(1 + len as int) =~= buf@.subrange(at + 1 + len, end as int));
    if !sum_fits(base_timestamp, timestamp) {
        return false;
    }
    match read_step(buf, at + 1 + len, end) {
        Some((offset, _)) => sum_fits(base_offset, offset),
        None => true,
    }
}

/// Whether every record of a payload has an offset and a timestamp that are
/// i64s.
fn check_payload(payload: &[u8], count: usize, base_offset: i64, base_timestamp: i64) -> (fits: bool)
    ensures
        fits == payload_fits(payload@, count as nat, base_offset, base_timestamp),
{
    let mut at: usize = 0;
    let mut left: usize = count;
    assert(payload@.skip(0) =~= payload@);
    while left > 0
        invariant
            at <= payload@.len(),
            payload_fits(payload@, count as nat, base_offset, base_timestamp) == payload_fits(
                payload@.skip(at as int),
                left as nat,
                base_offset,
                base_timestamp,
            ),
        decreases left,
    {
        let ghost rest = payload@.skip(at as int);
        assert(rest =~= payload@.subrange(at as int, payload@.len() as int));
        let (size, len): (i64, usize) = match read_step(payload, at, payload.len()) {
            Some(step) => step,
            None => {
                return true;
            },
        };
        if size < 0 || size as u64 > (payload.len() - at - len) as u64 {
            return true;
        }
        let from: usize = at + len;
        let to: usize = from + size as usize;
        assert(rest.subrange(len as int, len + size) =~= payload@.subrange(from as int, to as int));
        assert(rest.skip(len + size) =~= payload@.skip(to as int));
        if !check_record(payload, from, to, base_offset, base_timestamp) {
            return false;
        }
        at = to;
        left -= 1;
    }
    true
}

/// Whether no 32-bit step from a batch's offset or timestamp can leave the i64
/// range.
pub open spec fn far_from_the_ends(header: BatchHeader) -> bool {
    &&& i64::MIN - i32::MIN <= header.base_offset <= i64::MAX - i32::MAX
    &&& i64::MIN - i32::MIN <= header.base_timestamp <= i64::MAX - i32::MAX
}

/// Where no step can leave the range, none does.
proof fn lemma_far_from_the_ends(
    header: BatchHeader,
    payload: Seq<u8>,
    count: nat,
)
    requires
        far_from_the_ends(header),
    ensures
        payload_fits(payload, count, header.base_offset, header.base_timestamp),
    decreases count,
{
    if count > 0 {
        if let Some((size, len)) = step_at(payload) {
            if size >= 0 && len + size <= payload.len() {
                lemma_far_from_the_ends(header, payload.skip(len + size), (count - 1) as nat);
            }
        }
    }
}

/// Whether every record of a complete batch has an offset and a timestamp that
/// are i64s. The payload is only looked at where it could make a difference.
fn check_batch(header: &BatchHeader, batch: &Vec<u8>, limit: usize) -> (fits: bool)
    ensures
        fits == batch_fits(*header, batch@, header.record_count, limit),
{
    let far = header.base_offset >= -0x7fff_ffff_8000_0000 && header.base_offset
        <= 0x7fff_ffff_8000_0000 && header.base_timestamp >= -0x7fff_ffff_8000_0000
        && header.base_timestamp <= 0x7fff_ffff_8000_0000;
    if far {
        proof {
            if let Ok(payload) = unpacked(
                batch@.skip(MIN_LEN as int),
                header.compression,
                header.record_count,
                limit,
            ) {
                lemma_far_from_the_ends(*header, payload, header.record_count as nat);
            }
        }
        return true;
    }
    if batch.len() < MIN_LEN {
        return true;
    }
    let packed = slice_to_vec(slice_subrange(batch.as_slice(), MIN_LEN, batch.len()));
    assert(packed@ =~= batch@.skip(MIN_LEN as int));
    match unpack(packed, header.compression, header.record_count, limit) {
        Ok(payload) => check_payload(
            payload.as_slice(),
            header.record_count,
            header.base_offset,
            header.base_timestamp,
        ),
        Err(_) => true,
    }
}

/// What `RecordBatchDecoder` makes of one complete batch when its records are
/// decompressed with [`unpack`] under the given claim and limit: the records,
/// or what went wrong.
pub uninterp spec fn batch_records(batch: Seq<u8>, claimed: usize, limit: usize) -> Result<
    Seq<WireRecordView>,
    Seq<char>,
>;

/// The plain form of what decoding a batch came back with.
pub open spec fn records_view(result: Result<Vec<WireRecord>, String>) -> Result<
    Seq<WireRecordView>,
    Seq<char>,
> {
    match result {
        Ok(records) => Ok(wire_views(records@)),
        Err(reason) => Err(reason@),
    }
}

/// Decompresses a batch's payload for the decoder, which knows the codec by
/// its number.
fn unpack_for_decoder(payload: Vec<u8>, code: u8, claimed: usize, limit: usize) -> (result: Result<
    Vec<u8>,
    String,
>)
    ensures
        crate::wire::outcome_of(result) == (match unpacked(
            payload@,
            codec_of(code as int),
            claimed,
            limit,
        ) {
            Ok(bytes) => Ok::<Seq<u8>, Seq<char>>(bytes),
            Err(error) => Err(error.message()),
        }),
{
    match unpack(payload, Compression::from_wire(code), claimed, limit) {
        Ok(bytes) => Ok(bytes),
        Err(error) => Err(error.message()),
    }
}

/// Decodes one complete batch with
/// `kafka_protocol::records::RecordBatchDecoder::decode_with_custom_compression`,
/// handing it [`unpack`] to decompress the records with.
///
/// The contract names the result after the batch, the claim and the limit. The
/// decoder adds each record's 32-bit steps to the header's offset and
/// timestamp, so the sums have to fit; it looks no further than the length that
/// the header gives, so nothing may follow that. What memory the decoder sets
/// aside is left unsaid: it reserves room for as many headers as a record claims
/// before it reads them.
#[verifier::external_body]
fn decode_batch(batch: &Vec<u8>, claimed: usize, limit: usize) -> (result: Result<
    Vec<WireRecord>,
    String,
>)
    requires
        header_of(batch@) matches Ok(header) ==> header.total_len == batch@.len() && batch_fits(
            header,
            batch@,
            claimed,
            limit,
        ),
    ensures
        records_view(result) == batch_records(batch@, claimed, limit),
{
    match RecordBatchDecoder::decode_with_custom_compression(
        &mut Bytes::from(batch.clone()),
        Some(|payload: &mut Bytes, codec| {
            let payload = Vec::from(payload.split_off(0));
            unpack_for_decoder(payload, codec as u8, claimed, limit).map(Bytes::from).map_err(Error::msg)
        }),
    ) {
        Ok(set) => Ok(set.records.into_iter().map(|ProtocolRecord { transactional, control, partition_leader_epoch, producer_id, producer_epoch, timestamp_type, offset, sequence, timestamp, key, value, headers }| WireRecord { transactional, control, partition_leader_epoch, producer_id, producer_epoch, timestamp_type: TimestampType::from_wire(timestamp_type as u8), offset, sequence, timestamp, key, value, headers }).collect()),
        Err(error) => Err(error.to_string()),
    }
}

/// An id that is only present when it is not negative.
pub open spec fn present<N>(n: N, non_negative: bool) -> Option<N> {
    if non_negative {
        Some(n)
    } else {
        None
    }
}

/// A decoded record, as its reader sees it.
pub open spec fn converted(topic: Seq<char>, partition: i32, record: WireRecordView) -> RecordView {
    RecordView {
        topic,
        partition,
        offset: record.offset,
        timestamp: record.timestamp,
        timestamp_type: record.timestamp_type,
        key: record.key,
        value: record.value,
        headers: record.headers,
        producer_id: present(record.producer_id, record.producer_id >= 0),
        transactional: record.transactional,
        leader_epoch: present(record.partition_leader_epoch, record.partition_leader_epoch >= 0),
    }
}

/// A decoded record, as its reader sees it.
pub fn convert(topic: &str, partition: i32, record: WireRecord) -> (converted_record: Record)
    ensures
        converted_record@ == converted(topic@, partition, record@),
{
    Record {
        topic: topic.to_owned(),
        partition,
        offset: record.offset,
        timestamp: record.timestamp,
        timestamp_type: record.timestamp_type,
        key: from_wire(&record.key),
        value: from_wire(&record.value),
        headers: list_headers(record.headers),
        producer_id: if record.producer_id >= 0 {
            Some(record.producer_id)
        } else {
            None
        },
        transactional: record.transactional,
        leader_epoch: if record.partition_leader_epoch >= 0 {
            Some(record.partition_leader_epoch)
        } else {
            None
        },
    }
}

/// The outcomes the records of a decoded batch become: each one that is user
/// data, in order.
pub open spec fn record_outcomes(
    topic: Seq<char>,
    partition: i32,
    records: Seq<WireRecordView>,
) -> Seq<OutcomeView>
    decreases records.len(),
{
    if records.len() == 0 {
        seq![]
    } else {
        let before = record_outcomes(topic, partition, records.drop_last());
        if records.last().control {
            before
        } else {
            before.push(OutcomeView::Decoded(converted(topic, partition, records.last())))
        }
    }
}

/// How many records of a decoded batch are transaction markers.
pub open spec fn marker_count(records: Seq<WireRecordView>) -> nat
    decreases records.len(),
{
    if records.len() == 0 {
        0
    } else {
        marker_count(records.drop_last()) + if records.last().control {
            1nat
        } else {
            0nat
        }
    }
}

/// Adds to a count without leaving the machine's range.
fn bump(count: usize, by: usize, Ghost(exact): Ghost<nat>) -> (sum: usize)
    requires
        count == held(exact),
    ensures
        sum == held(exact + by as nat),
{
    count.saturating_add(by)
}

/// Turns the records of a decoded batch into outcomes, appending them.
fn keep_records(
    topic: &str,
    partition: i32,
    records: Vec<WireRecord>,
    out: &mut DecodedPartition,
    Ghost(markers): Ghost<nat>,
)
    requires
        old(out).control_batches_skipped == held(markers),
    ensures
        outcome_views(final(out).outcomes@) == outcome_views(old(out).outcomes@) + record_outcomes(
            topic@,
            partition,
            wire_views(records@),
        ),
        final(out).control_batches_skipped == held(markers + marker_count(wire_views(records@))),
        final(out).aborted_records_skipped == old(out).aborted_records_skipped,
        final(out).truncated_tail == old(out).truncated_tail,
        final(out).last_offset == old(out).last_offset,
{
    let ghost views = wire_views(records@);
    let mut exact: Ghost<nat> = Ghost(markers);
    for record in iter: records
        invariant
            iter.seq() == records@,
            views == wire_views(records@),
            exact@ == markers + marker_count(views.take(iter.index())),
            outcome_views(out.outcomes@) == outcome_views(old(out).outcomes@) + record_outcomes(
                topic@,
                partition,
                views.take(iter.index()),
            ),
            out.control_batches_skipped == held(exact@),
            out.aborted_records_skipped == old(out).aborted_records_skipped,
            out.truncated_tail == old(out).truncated_tail,
            out.last_offset == old(out).last_offset,
    {
        proof {
            let taken = views.take(iter.index() + 1);
            assert(taken.drop_last() =~= views.take(iter.index()));
            assert(taken.last() == record@);
        }
        // Belt and braces: a control record inside an otherwise ordinary batch
        // is not something Kafka writes, but the flag is per record as well as
        // per batch.
        if record.control {
            out.control_batches_skipped = bump(out.control_batches_skipped, 1, exact);
            proof {
                exact@ = exact@ + 1;
            }
        } else {
            let ghost kept = out.outcomes@;
            out.outcomes.push(RecordOutcome::Decoded(convert(topic, partition, record)));
            assert(outcome_views(out.outcomes@) =~= outcome_views(kept).push(
                OutcomeView::Decoded(converted(topic@, partition, record@)),
            ));
        }
    }
    assert(views.take(views.len() as int) =~= views);
}

/// The outcomes of one complete batch of user data.
pub open spec fn batch_outcomes(
    topic: Seq<char>,
    partition: i32,
    header: BatchHeader,
    batch: Seq<u8>,
    limit: usize,
) -> Seq<OutcomeView> {
    if header.record_count > plausible_records(header, limit) {
        seq![
            OutcomeView::Malformed {
                offset: header.base_offset,
                last_offset: Some(header.last_offset),
                raw: batch,
                reason: too_many_records(header, plausible_records(header, limit)),
            },
        ]
    } else if !batch_fits(header, batch, header.record_count, limit) {
        seq![
            OutcomeView::Malformed {
                offset: header.base_offset,
                last_offset: Some(header.last_offset),
                raw: batch,
                reason: "record batch offsets or timestamps are out of range"@,
            },
        ]
    } else {
        match batch_records(batch, header.record_count, limit) {
            Ok(records) => record_outcomes(topic, partition, records),
            Err(reason) => seq![
                OutcomeView::Malformed {
                    offset: header.base_offset,
                    last_offset: Some(header.last_offset),
                    raw: batch,
                    reason,
                },
            ],
        }
    }
}

/// How many records of one complete batch of user data are markers.
pub open spec fn batch_markers(header: BatchHeader, batch: Seq<u8>, limit: usize) -> nat {
    if header.record_count > plausible_records(header, limit) || !batch_fits(
        header,
        batch,
        header.record_count,
        limit,
    ) {
        0
    } else {
        match batch_records(batch, header.record_count, limit) {
            Ok(records) => marker_count(records),
            Err(_) => 0,
        }
    }
}

/// What is said of a batch that claims more records than it can hold.
pub open spec fn too_many_records(header: BatchHeader, ceiling: nat) -> Seq<char> {
    "batch claims "@ + crate::text::decimal_of(header.record_count as nat) + " records; "@
        + crate::text::decimal_of(header.total_len as nat) + " bytes can hold at most "@
        + crate::text::decimal_of(ceiling)
}

/// How many offsets a batch's header spans.
pub open spec fn offset_span(header: BatchHeader) -> nat {
    let span = saturating(saturating(header.last_offset - header.base_offset) + 1);
    if 0 <= span <= usize::MAX {
        span as nat
    } else {
        0
    }
}

/// The producers hidden once the walk has come to a batch at `base_offset`:
/// those hidden before, and those with an aborted span that starts after
/// everything the walk had `reached` and no later than here.
pub open spec fn hiding(
    hidden: Set<i64>,
    aborted: Seq<AbortedTransaction>,
    reached: int,
    base_offset: int,
) -> Set<i64> {
    hidden.union(
        Set::new(
            |producer: i64|
                exists|i: int| #![trigger aborted[i]]
                    0 <= i < aborted.len() && aborted[i].producer_id == producer && reached
                        < aborted[i].first_offset <= base_offset,
        ),
    )
}

/// The further of two offsets.
pub open spec fn further(a: int, b: int) -> int {
    if a < b {
        b
    } else {
        a
    }
}

/// A later offset if there is one, or else an earlier one.
pub open spec fn or_else(later: Option<i64>, earlier: i64) -> Option<i64> {
    match later {
        Some(later) => Some(later),
        None => Some(earlier),
    }
}

/// What a partition's bytes decode to, from a walk that has `reached` an offset
/// with `hidden` producers inside an aborted span.
pub open spec fn walked(
    topic: Seq<char>,
    partition: i32,
    buf: Seq<u8>,
    aborted: Seq<AbortedTransaction>,
    limit: usize,
    reached: int,
    hidden: Set<i64>,
) -> DecodedView
    decreases buf.len(),
{
    let nothing = DecodedView {
        outcomes: seq![],
        control_batches_skipped: 0,
        aborted_records_skipped: 0,
        truncated_tail: false,
        last_offset: None,
    };
    if buf.len() == 0 {
        nothing
    } else {
        match header_of(buf) {
            Err(HeaderProblem::Truncated) => DecodedView { truncated_tail: true, ..nothing },
            Err(HeaderProblem::Malformed) => DecodedView {
                outcomes: seq![
                    OutcomeView::Malformed {
                        offset: i64_at(buf, BASE_OFFSET as int),
                        last_offset: None,
                        raw: buf,
                        reason: "record batch header is not a valid v2 batch"@,
                    },
                ],
                last_offset: Some(i64_at(buf, BASE_OFFSET as int)),
                ..nothing
            },
            Ok(header) => {
                if header.total_len == 0 || header.total_len > buf.len() {
                    // No header says this.
                    nothing
                } else {
                    let batch = buf.take(header.total_len as int);
                    let rest = buf.skip(header.total_len as int);
                    let now_hidden = hiding(hidden, aborted, reached, header.base_offset as int);
                    let now_reached = further(reached, header.base_offset as int);
                    if header.control {
                        // A transaction marker: not user data, and the end of
                        // its producer's aborted span, if one is open.
                        let after = walked(
                            topic,
                            partition,
                            rest,
                            aborted,
                            limit,
                            now_reached,
                            now_hidden.remove(header.producer_id),
                        );
                        DecodedView {
                            control_batches_skipped: after.control_batches_skipped + 1,
                            last_offset: or_else(after.last_offset, header.last_offset),
                            ..after
                        }
                    } else {
                        let after = walked(
                            topic,
                            partition,
                            rest,
                            aborted,
                            limit,
                            now_reached,
                            now_hidden,
                        );
                        if header.transactional && now_hidden.contains(header.producer_id) {
                            DecodedView {
                                aborted_records_skipped: after.aborted_records_skipped
                                    + offset_span(header),
                                last_offset: or_else(after.last_offset, header.last_offset),
                                ..after
                            }
                        } else {
                            DecodedView {
                                outcomes: batch_outcomes(topic, partition, header, batch, limit)
                                    + after.outcomes,
                                control_batches_skipped: after.control_batches_skipped
                                    + batch_markers(header, batch, limit),
                                last_offset: or_else(after.last_offset, header.last_offset),
                                ..after
                            }
                        }
                    }
                }
            },
        }
    }
}

/// The aborted list a walk filters by: nothing, when everything is visible.
pub open spec fn filtered_by(
    aborted: Seq<AbortedTransaction>,
    visibility: Visibility,
) -> Seq<AbortedTransaction> {
    match visibility {
        Visibility::All => seq![],
        Visibility::CommittedOnly => aborted,
    }
}

/// What a fetched partition decodes to.
pub open spec fn decoded(
    topic: Seq<char>,
    partition: i32,
    buf: Seq<u8>,
    aborted: Seq<AbortedTransaction>,
    options: DecodeOptions,
) -> DecodedView {
    walked(
        topic,
        partition,
        buf,
        filtered_by(aborted, options.visibility),
        options.max_decompressed_bytes,
        i64::MIN - 1,
        Set::empty(),
    )
}

/// Aborted spans in order of where they start.
fn sorted_spans(aborted: &[AbortedTransaction]) -> (spans: Vec<AbortedTransaction>)
    ensures
        forall|i: int, j: int|
            0 <= i <= j < spans@.len() ==> spans@[i].first_offset <= spans@[j].first_offset,
        forall|span: AbortedTransaction|
            #![trigger spans@.contains(span)]
            #![trigger aborted@.contains(span)]
            spans@.contains(span) <==> aborted@.contains(span),
{
    let mut spans: Vec<AbortedTransaction> = Vec::new();
    let mut taken: usize = 0;
    while taken < aborted.len()
        invariant
            taken <= aborted.len(),
            forall|i: int, j: int|
                0 <= i <= j < spans@.len() ==> spans@[i].first_offset <= spans@[j].first_offset,
            forall|span: AbortedTransaction|
                spans@.contains(span) <==> aborted@.take(taken as int).contains(span),
        decreases aborted.len() - taken,
    {
        let span = aborted[taken];
        let mut at: usize = spans.len();
        while at > 0 && spans[at - 1].first_offset > span.first_offset
            invariant
                at <= spans.len(),
                forall|i: int| at <= i < spans@.len() ==> spans@[i].first_offset > span.first_offset,
            decreases at,
        {
            at -= 1;
        }
        let ghost before = spans@;
        let ghost earlier = aborted@.take(taken as int);
        let ghost later = aborted@.take(taken + 1);
        spans.insert(at, span);
        proof {
            assert(later =~= earlier.push(span));
            assert forall|s: AbortedTransaction| spans@.contains(s) <==> later.contains(s) by {
                assert(spans@[at as int] == span);
                assert(later[taken as int] == span);
                if before.contains(s) {
                    let k = choose|k: int| 0 <= k < before.len() && before[k] == s;
                    assert(spans@[if k < at {
                        k
                    } else {
                        k + 1
                    }] == s);
                }
                if spans@.contains(s) && s != span {
                    let k = choose|k: int| 0 <= k < spans@.len() && spans@[k] == s;
                    assert(before[if k < at {
                        k
                    } else {
                        k - 1
                    }] == s);
                }
                if earlier.contains(s) {
                    let k = choose|k: int| 0 <= k < earlier.len() && earlier[k] == s;
                    assert(later[k] == s);
                }
                if later.contains(s) && s != span {
                    let k = choose|k: int| 0 <= k < later.len() && later[k] == s;
                    assert(earlier[k] == s);
                }
            }
        }
        taken += 1;
    }
    assert(aborted@.take(taken as int) =~= aborted@);
    spans
}

/// Whether one of the spans from `from` up to `to` is the producer's.
spec fn some_span_of(
    spans: Seq<AbortedTransaction>,
    from: int,
    to: int,
    producer: i64,
) -> bool {
    exists|i: int| #![trigger spans[i]] from <= i < to && spans[i].producer_id == producer
}

/// One more span adds its own producer and no other.
proof fn lemma_some_span_of_step(
    spans: Seq<AbortedTransaction>,
    from: int,
    to: int,
    producer: i64,
)
    requires
        0 <= from <= to < spans.len(),
    ensures
        some_span_of(spans, from, to + 1, producer) <==> (some_span_of(spans, from, to, producer)
            || spans[to].producer_id == producer),
{
    if some_span_of(spans, from, to, producer) {
        let i = choose|i: int| #![trigger spans[i]]
            from <= i < to && spans[i].producer_id == producer;
        assert(from <= i < to + 1 && spans[i].producer_id == producer);
    }
    if spans[to].producer_id == producer {
        assert(from <= to < to + 1 && spans[to].producer_id == producer);
    }
    if some_span_of(spans, from, to + 1, producer) {
        let i = choose|i: int| #![trigger spans[i]]
            from <= i < to + 1 && spans[i].producer_id == producer;
        if i < to {
            assert(from <= i < to && spans[i].producer_id == producer);
        }
    }
}

/// The spans a walk enters on its way from `reached` to `base_offset` are the
/// same ones whether they are taken from the list or from its sorted form.
proof fn lemma_entered_spans(
    spans: Seq<AbortedTransaction>,
    aborted: Seq<AbortedTransaction>,
    next: int,
    at: int,
    reached: int,
    base_offset: int,
    before: Set<i64>,
    producer: i64,
)
    requires
        0 <= next <= at <= spans.len(),
        forall|span: AbortedTransaction|
            #![trigger spans.contains(span)]
            #![trigger aborted.contains(span)]
            spans.contains(span) <==> aborted.contains(span),
        forall|i: int| 0 <= i < next ==> (#[trigger] spans[i]).first_offset <= reached,
        forall|i: int| next <= i < spans.len() ==> (#[trigger] spans[i]).first_offset > reached,
        forall|i: int| next <= i < at ==> (#[trigger] spans[i]).first_offset <= base_offset,
        forall|i: int| at <= i < spans.len() ==> (#[trigger] spans[i]).first_offset > base_offset,
    ensures
        hiding(before, aborted, reached, base_offset).contains(producer) <==> (before.contains(
            producer,
        ) || some_span_of(spans, next, at, producer)),
{
    if some_span_of(spans, next, at, producer) {
        let i = choose|i: int| #![trigger spans[i]]
            next <= i < at && spans[i].producer_id == producer;
        assert(spans.contains(spans[i]));
        assert(aborted.contains(spans[i]));
        let j = choose|j: int| 0 <= j < aborted.len() && aborted[j] == spans[i];
        assert(aborted[j].producer_id == producer);
    }
    if hiding(before, aborted, reached, base_offset).contains(producer) && !before.contains(
        producer,
    ) {
        let i = choose|i: int| #![trigger aborted[i]]
            0 <= i < aborted.len() && aborted[i].producer_id == producer && reached
                < aborted[i].first_offset <= base_offset;
        assert(aborted.contains(aborted[i]));
        assert(spans.contains(aborted[i]));
        let j = choose|j: int| 0 <= j < spans.len() && spans[j] == aborted[i];
        assert(next <= j < at && spans[j].producer_id == producer);
    }
}

/// Enters every aborted span whose start a batch has reached.
fn enter_spans(
    spans: &Vec<AbortedTransaction>,
    next: usize,
    hidden: &mut HashSet<i64>,
    base_offset: i64,
    Ghost(aborted): Ghost<Seq<AbortedTransaction>>,
    Ghost(reached): Ghost<int>,
) -> (entered: usize)
    requires
        next <= spans@.len(),
        forall|i: int, j: int|
            0 <= i <= j < spans@.len() ==> spans@[i].first_offset <= spans@[j].first_offset,
        forall|span: AbortedTransaction|
            #![trigger spans@.contains(span)]
            #![trigger aborted.contains(span)]
            spans@.contains(span) <==> aborted.contains(span),
        forall|i: int| 0 <= i < next ==> (#[trigger] spans@[i]).first_offset <= reached,
        forall|i: int| next <= i < spans@.len() ==> (#[trigger] spans@[i]).first_offset > reached,
    ensures
        next <= entered <= spans@.len(),
        final(hidden)@ == hiding(old(hidden)@, aborted, reached, base_offset as int),
        forall|i: int|
            0 <= i < entered ==> (#[trigger] spans@[i]).first_offset <= further(
                reached,
                base_offset as int,
            ),
        forall|i: int|
            entered <= i < spans@.len() ==> (#[trigger] spans@[i]).first_offset > further(
                reached,
                base_offset as int,
            ),
{
    let mut at: usize = next;
    let ghost before = hidden@;
    while at < spans.len() && spans[at].first_offset <= base_offset
        invariant
            next <= at <= spans@.len(),
            forall|i: int, j: int|
                0 <= i <= j < spans@.len() ==> spans@[i].first_offset <= spans@[j].first_offset,
            forall|i: int| next <= i < at ==> (#[trigger] spans@[i]).first_offset <= base_offset,
            forall|producer: i64|
                #![trigger hidden@.contains(producer)]
                hidden@.contains(producer) <==> (before.contains(producer) || some_span_of(
                    spans@,
                    next as int,
                    at as int,
                    producer,
                )),
        decreases spans.len() - at,
    {
        let ghost entering = hidden@;
        let producer_id: i64 = spans[at].producer_id;
        hidden.insert(producer_id);
        proof {
            assert forall|producer: i64|
                #![trigger hidden@.contains(producer)]
                hidden@.contains(producer) <==> (before.contains(producer) || some_span_of(
                    spans@,
                    next as int,
                    at + 1,
                    producer,
                )) by {
                lemma_some_span_of_step(spans@, next as int, at as int, producer);
                assert(hidden@.contains(producer) <==> (entering.contains(producer) || producer
                    == producer_id));
            }
        }
        at += 1;
    }
    proof {
        assert forall|producer: i64|
            hidden@.contains(producer) <==> hiding(
                before,
                aborted,
                reached,
                base_offset as int,
            ).contains(producer) by {
            lemma_entered_spans(
                spans@,
                aborted,
                next as int,
                at as int,
                reached,
                base_offset as int,
                before,
                producer,
            );
        }
        assert(hidden@ =~= hiding(before, aborted, reached, base_offset as int));
    }
    at
}

/// A complete batch, cut out of the buffer it leads, still has the header the
/// buffer shows, or is too short to have one.
proof fn lemma_cut_batch_keeps_its_header(buf: Seq<u8>)
    requires
        header_of(buf) is Ok,
    ensures
        ({
            let batch = buf.take(header_of(buf)->Ok_0.total_len as int);
            header_of(batch) is Ok ==> header_of(batch) == header_of(buf)
        }),
{
    let batch = buf.take(header_of(buf)->Ok_0.total_len as int);
    if batch.len() >= MIN_LEN {
        assert(batch.subrange(BATCH_LENGTH as int, BATCH_LENGTH + 4) =~= buf.subrange(
            BATCH_LENGTH as int,
            BATCH_LENGTH + 4,
        ));
        assert(batch.subrange(ATTRIBUTES as int, ATTRIBUTES + 2) =~= buf.subrange(
            ATTRIBUTES as int,
            ATTRIBUTES + 2,
        ));
        assert(batch.subrange(BASE_OFFSET as int, BASE_OFFSET + 8) =~= buf.subrange(
            BASE_OFFSET as int,
            BASE_OFFSET + 8,
        ));
        assert(batch.subrange(LAST_OFFSET_DELTA as int, LAST_OFFSET_DELTA + 4) =~= buf.subrange(
            LAST_OFFSET_DELTA as int,
            LAST_OFFSET_DELTA + 4,
        ));
        assert(batch.subrange(BASE_TIMESTAMP as int, BASE_TIMESTAMP + 8) =~= buf.subrange(
            BASE_TIMESTAMP as int,
            BASE_TIMESTAMP + 8,
        ));
        assert(batch.subrange(PRODUCER_ID as int, PRODUCER_ID + 8) =~= buf.subrange(
            PRODUCER_ID as int,
            PRODUCER_ID + 8,
        ));
        assert(batch.subrange(RECORD_COUNT as int, RECORD_COUNT + 4) =~= buf.subrange(
            RECORD_COUNT as int,
            RECORD_COUNT + 4,
        ));
    }
}

/// Decodes one complete batch of user data, appending its outcomes.
fn keep_batch(
    topic: &str,
    partition: i32,
    header: &BatchHeader,
    batch: Vec<u8>,
    options: &DecodeOptions,
    out: &mut DecodedPartition,
    Ghost(markers): Ghost<nat>,
)
    requires
        old(out).control_batches_skipped == held(markers),
        header_of(batch@) matches Ok(own) ==> own == *header,
        batch@.len() == header.total_len,
    ensures
        outcome_views(final(out).outcomes@) == outcome_views(old(out).outcomes@) + batch_outcomes(
            topic@,
            partition,
            *header,
            batch@,
            options.max_decompressed_bytes,
        ),
        final(out).control_batches_skipped == held(
            markers + batch_markers(*header, batch@, options.max_decompressed_bytes),
        ),
        final(out).aborted_records_skipped == old(out).aborted_records_skipped,
        final(out).truncated_tail == old(out).truncated_tail,
        final(out).last_offset == old(out).last_offset,
{
    let limit: usize = options.max_decompressed_bytes;
    let ghost before = out.outcomes@;
    // Refuse a record count the batch cannot possibly hold before handing it
    // over: the decoder reserves room for the claim up front.
    let ceiling: usize = max_plausible_records(header, options);
    if header.record_count > ceiling {
        let mut reason = "batch claims ".to_owned();
        reason.append(decimal(header.record_count as u64).as_str());
        reason.append(" records; ");
        reason.append(decimal(header.total_len as u64).as_str());
        reason.append(" bytes can hold at most ");
        reason.append(decimal(ceiling as u64).as_str());
        out.outcomes.push(
            RecordOutcome::Malformed {
                offset: header.base_offset,
                last_offset: Some(header.last_offset),
                raw: batch,
                reason: DecodeError::new(reason),
            },
        );
        assert(outcome_views(out.outcomes@) =~= outcome_views(before) + batch_outcomes(
            topic@,
            partition,
            *header,
            batch@,
            limit,
        ));
        return ;
    }
    if !check_batch(header, &batch, limit) {
        out.outcomes.push(
            RecordOutcome::Malformed {
                offset: header.base_offset,
                last_offset: Some(header.last_offset),
                raw: batch,
                reason: DecodeError::new(
                    "record batch offsets or timestamps are out of range".to_owned(),
                ),
            },
        );
        assert(outcome_views(out.outcomes@) =~= outcome_views(before) + batch_outcomes(
            topic@,
            partition,
            *header,
            batch@,
            limit,
        ));
        return ;
    }
    match decode_batch(&batch, header.record_count, limit) {
        Ok(records) => {
            keep_records(topic, partition, records, out, Ghost(markers));
        },
        Err(reason) => {
            // One bad batch, not one bad scan.
            out.outcomes.push(
                RecordOutcome::Malformed {
                    offset: header.base_offset,
                    last_offset: Some(header.last_offset),
                    raw: batch,
                    reason: DecodeError::new(reason),
                },
            );
            assert(outcome_views(out.outcomes@) =~= outcome_views(before) + batch_outcomes(
                topic@,
                partition,
                *header,
                batch@,
                limit,
            ));
        },
    }
}

/// How many offsets a batch's header spans.
fn hidden_records(header: &BatchHeader) -> (span: usize)
    ensures
        span == offset_span(*header),
{
    let apart: i128 = header.last_offset as i128 - header.base_offset as i128;
    let apart: i64 = if apart > i64::MAX as i128 {
        i64::MAX
    } else if apart < i64::MIN as i128 {
        i64::MIN
    } else {
        apart as i64
    };
    let span: i64 = saturating_sum(apart, 1);
    if span >= 0 && span as u64 <= usize::MAX as u64 {
        span as usize
    } else {
        0
    }
}

/// Decodes one partition's records tolerantly.
///
/// A batch with a record that could not be numbered or timed within an i64 is
/// reported as malformed: no input makes this fail.
pub fn decode_partition(
    topic: &str,
    partition: i32,
    records: Vec<u8>,
    aborted: &[AbortedTransaction],
    options: &DecodeOptions,
) -> (out: DecodedPartition)
    ensures
        out.is(decoded(topic@, partition, records@, aborted@, *options)),
{
    let mut out = DecodedPartition {
        outcomes: Vec::new(),
        control_batches_skipped: 0,
        aborted_records_skipped: 0,
        truncated_tail: false,
        last_offset: None,
    };
    let limit: usize = options.max_decompressed_bytes;
    let ghost filter = filtered_by(aborted@, options.visibility);
    let spans = match options.visibility {
        Visibility::CommittedOnly => sorted_spans(aborted),
        Visibility::All => Vec::new(),
    };
    let mut next: usize = 0;
    let mut hidden: HashSet<i64> = HashSet::new();
    let mut at: usize = 0;
    let ghost whole = decoded(topic@, partition, records@, aborted@, *options);
    let ghost mut reached = i64::MIN - 1;
    let ghost mut markers: nat = 0;
    let ghost mut skipped: nat = 0;
    proof {
        assert(records@.skip(0) =~= records@);
        assert(hidden@ =~= Set::empty());
        assert(outcome_views(out.outcomes@) + whole.outcomes =~= whole.outcomes);
    }
    while at < records.len()
        invariant
            at <= records.len(),
            limit == options.max_decompressed_bytes,
            whole == decoded(topic@, partition, records@, aborted@, *options),
            next <= spans@.len(),
            forall|i: int, j: int|
                0 <= i <= j < spans@.len() ==> spans@[i].first_offset <= spans@[j].first_offset,
            forall|span: AbortedTransaction|
                #![trigger spans@.contains(span)]
                #![trigger filter.contains(span)]
                spans@.contains(span) <==> filter.contains(span),
            forall|i: int| 0 <= i < next ==> (#[trigger] spans@[i]).first_offset <= reached,
            forall|i: int|
                next <= i < spans@.len() ==> (#[trigger] spans@[i]).first_offset > reached,
            out.control_batches_skipped == held(markers),
            out.aborted_records_skipped == held(skipped),
            !out.truncated_tail,
            ({
                let after = walked(
                    topic@,
                    partition,
                    records@.skip(at as int),
                    filter,
                    limit,
                    reached,
                    hidden@,
                );
                &&& whole.outcomes == outcome_views(out.outcomes@) + after.outcomes
                &&& whole.control_batches_skipped == markers + after.control_batches_skipped
                &&& whole.aborted_records_skipped == skipped + after.aborted_records_skipped
                &&& whole.truncated_tail == after.truncated_tail
                &&& whole.last_offset == match after.last_offset {
                    Some(last) => Some(last),
                    None => out.last_offset,
                }
            }),
        decreases records.len() - at,
    {
        let ghost rest = records@.skip(at as int);
        let ghost before = out.outcomes@;
        let ghost after = walked(topic@, partition, rest, filter, limit, reached, hidden@);
        let view = slice_subrange(records.as_slice(), at, records.len());
        assert(view@ =~= rest);
        let header = match peek_header(view) {
            Ok(header) => header,
            Err(HeaderProblem::Truncated) => {
                // The normal end of a size-capped fetch. Discard silently.
                out.truncated_tail = true;
                assert(outcome_views(out.outcomes@) =~= whole.outcomes);
                return out;
            },
            Err(HeaderProblem::Malformed) => {
                let offset: i64 = match read_i64(view, BASE_OFFSET) {
                    Some(offset) => offset,
                    None => -1,
                };
                out.outcomes.push(
                    RecordOutcome::Malformed {
                        offset,
                        last_offset: None,
                        raw: slice_to_vec(view),
                        reason: DecodeError::new(
                            "record batch header is not a valid v2 batch".to_owned(),
                        ),
                    },
                );
                out.last_offset = Some(offset);
                assert(outcome_views(out.outcomes@) =~= outcome_views(before) + after.outcomes);
                return out;
            },
        };
        let ghost remaining = rest.skip(header.total_len as int);
        assert(records@.skip(at + header.total_len) =~= remaining);
        next = enter_spans(
            &spans,
            next,
            &mut hidden,
            header.base_offset,
            Ghost(filter),
            Ghost(reached),
        );
        proof {
            reached = further(reached, header.base_offset as int);
        }
        let ghost batch_start = at;
        at += header.total_len;
        out.last_offset = Some(header.last_offset);
        if header.control {
            out.control_batches_skipped = bump(out.control_batches_skipped, 1, Ghost(markers));
            hidden.remove(&header.producer_id);
            proof {
                markers = markers + 1;
            }
        } else if header.transactional && hidden.contains(&header.producer_id) {
            let span: usize = hidden_records(&header);
            out.aborted_records_skipped = bump(out.aborted_records_skipped, span, Ghost(skipped));
            proof {
                skipped = skipped + span as nat;
            }
        } else {
            let batch = slice_to_vec(slice_subrange(view, 0, header.total_len));
            proof {
                lemma_cut_batch_keeps_its_header(rest);
                assert(batch@ =~= rest.take(header.total_len as int));
            }
            keep_batch(topic, partition, &header, batch, options, &mut out, Ghost(markers));
            proof {
                let own = batch_outcomes(topic@, partition, header, batch@, limit);
                let later = walked(topic@, partition, remaining, filter, limit, reached, hidden@);
                assert(outcome_views(before) + (own + later.outcomes) =~= (outcome_views(before)
                    + own) + later.outcomes);
                markers = markers + batch_markers(header, batch@, limit);
            }
        }
    }
    assert(records@.skip(at as int) =~= Seq::<u8>::empty());
    assert(outcome_views(out.outcomes@) =~= whole.outcomes);
    out
}

/// Decodes a partition's record bytes tolerantly.
///
/// For a caller that has no list of aborted transactions.
pub fn decode_records(topic: &str, partition: i32, records: Vec<u8>, options: &DecodeOptions) -> (out:
    DecodedPartition)
    ensures
        out.is(decoded(topic@, partition, records@, seq![], *options)),
{
    let aborted: [AbortedTransaction; 0] = [];
    assert(aborted@ =~= seq![]);
    decode_partition(topic, partition, records, aborted.as_slice(), options)
}

/// Decodes a partition's records with the fetch response's aborted-transaction
/// list applied.
///
/// A consumer has such a list, and passing it is what makes
/// [`Visibility::CommittedOnly`] mean anything.
pub fn decode_records_with_aborted(
    topic: &str,
    partition: i32,
    records: Vec<u8>,
    aborted: &[AbortedTransaction],
    options: &DecodeOptions,
) -> (out: DecodedPartition)
    ensures
        out.is(decoded(topic@, partition, records@, aborted@, *options)),
{
    decode_partition(topic, partition, records, aborted, options)
}

} // verus!
