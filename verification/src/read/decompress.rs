//! Size-bounded decompression.
//!
//! A record batch arrives compressed and expands on our heap. Gzip's maximum
//! expansion ratio is about 1032:1, so a producer that can write a 1 MiB batch
//! can make a client allocate a gigabyte. So decompression is bounded.
//!
//! Gzip, LZ4 and zstd are read through a limit, so the bound is enforced
//! during decompression. Framed snappy is bounded on its compressed input
//! instead, because its decoder has no streaming form; unframed snappy declares
//! its size up front.

use std::io::Read;

use kafka_protocol::compression::Decompressor;
use vstd::prelude::*;
use vstd::string::*;

use crate::compression::Compression;
use crate::text::decimal;
use crate::wire::outcome_of;

verus! {

/// Snappy's worst-case expansion, used to turn an output limit into an input
/// limit. Generous: the real figure is nearer 32.
pub const SNAPPY_MAX_RATIO: usize = 68;

/// The fewest bytes a record can possibly encode to.
///
/// A record is a length varint, a fixed attributes byte, then timestampDelta,
/// offsetDelta, keyLength, valueLen and headerCount, each a varint costing at
/// least one byte. Seven. Six is used deliberately, one below the true floor,
/// so that no batch a real producer writes is ever rejected by the ceiling
/// this feeds.
pub const MIN_RECORD_BYTES: usize = 6;

/// The sixteen bytes that open a xerial-framed snappy stream.
pub open spec fn xerial_magic() -> Seq<u8> {
    seq![
        0x82u8,
        0x53,
        0x4e,
        0x41,
        0x50,
        0x50,
        0x59,
        0x00,
        0x00,
        0x00,
        0x00,
        0x01,
        0x00,
        0x00,
        0x00,
        0x01,
    ]
}

/// Why a batch's records could not be decompressed.
#[derive(Debug, Clone)]
pub enum DecompressError {
    /// The codec itself gave up.
    Codec {
        /// What the codec says.
        reason: String,
    },
    /// A codec produced more than the limit.
    PastLimit {
        /// The codec.
        codec: Compression,
        /// The limit.
        limit: usize,
    },
    /// A framed snappy stream is long enough that it could expand past the limit.
    FrameTooLong {
        /// Compressed bytes.
        len: usize,
        /// The limit.
        limit: usize,
    },
    /// An unframed snappy block does not say how long it is.
    NoBlockLength {
        /// What the codec says.
        reason: String,
    },
    /// An unframed snappy block says it is longer than the limit.
    BlockTooLong {
        /// The length it declares.
        declared: usize,
        /// The limit.
        limit: usize,
    },
    /// The batch claims more records than its decompressed bytes can hold.
    TooManyRecords {
        /// The records it claims.
        claimed: usize,
        /// The bytes it decompressed to.
        len: usize,
    },
}

/// The name a codec goes by in a message.
pub open spec fn codec_name(codec: Compression) -> Seq<char> {
    match codec {
        Compression::Uncompressed => "none"@,
        Compression::Gzip => "gzip"@,
        Compression::Snappy => "snappy"@,
        Compression::Lz4 => "lz4"@,
        Compression::Zstd => "zstd"@,
    }
}

/// A [`DecompressError`], as plain sequences.
pub enum DecompressErrorView {
    Codec { reason: Seq<char> },
    PastLimit { codec: Compression, limit: usize },
    FrameTooLong { len: usize, limit: usize },
    NoBlockLength { reason: Seq<char> },
    BlockTooLong { declared: usize, limit: usize },
    TooManyRecords { claimed: usize, len: usize },
}

impl View for DecompressError {
    type V = DecompressErrorView;

    open spec fn view(&self) -> DecompressErrorView {
        match self {
            DecompressError::Codec { reason } => DecompressErrorView::Codec { reason: reason@ },
            DecompressError::PastLimit { codec, limit } => DecompressErrorView::PastLimit {
                codec: *codec,
                limit: *limit,
            },
            DecompressError::FrameTooLong { len, limit } => DecompressErrorView::FrameTooLong {
                len: *len,
                limit: *limit,
            },
            DecompressError::NoBlockLength { reason } => DecompressErrorView::NoBlockLength {
                reason: reason@,
            },
            DecompressError::BlockTooLong { declared, limit } => DecompressErrorView::BlockTooLong {
                declared: *declared,
                limit: *limit,
            },
            DecompressError::TooManyRecords { claimed, len } => DecompressErrorView::TooManyRecords {
                claimed: *claimed,
                len: *len,
            },
        }
    }
}

impl DecompressErrorView {
    /// The explanation a reader sees.
    pub open spec fn message(self) -> Seq<char> {
        match self {
            DecompressErrorView::Codec { reason } => reason,
            DecompressErrorView::PastLimit { codec, limit } => codec_name(codec)
                + " batch decompressed past the "@ + crate::text::decimal_of(limit as nat)
                + " byte limit"@,
            DecompressErrorView::FrameTooLong { len, limit } => "snappy batch of "@
                + crate::text::decimal_of(len as nat) + " compressed bytes could exceed the "@
                + crate::text::decimal_of(limit as nat) + " byte decompression limit"@,
            DecompressErrorView::NoBlockLength { reason } =>
                "failed to read the snappy block length: "@ + reason,
            DecompressErrorView::BlockTooLong { declared, limit } => "snappy batch declares "@
                + crate::text::decimal_of(declared as nat) + " bytes, past the "@
                + crate::text::decimal_of(limit as nat) + " byte limit"@,
            DecompressErrorView::TooManyRecords { claimed, len } => "batch claims "@
                + crate::text::decimal_of(claimed as nat) + " records; "@
                + crate::text::decimal_of(len as nat) + " decompressed bytes can hold at most "@
                + crate::text::decimal_of((len / MIN_RECORD_BYTES) as nat),
        }
    }
}

impl DecompressError {
    /// The explanation a reader sees.
    pub fn message(&self) -> (text: String)
        ensures
            text@ == self@.message(),
    {
        match self {
            DecompressError::Codec { reason } => reason.clone(),
            DecompressError::PastLimit { codec, limit } => {
                let mut text = match codec {
                    Compression::Uncompressed => "none".to_owned(),
                    Compression::Gzip => "gzip".to_owned(),
                    Compression::Snappy => "snappy".to_owned(),
                    Compression::Lz4 => "lz4".to_owned(),
                    Compression::Zstd => "zstd".to_owned(),
                };
                text.append(" batch decompressed past the ");
                text.append(decimal(*limit as u64).as_str());
                text.append(" byte limit");
                text
            },
            DecompressError::FrameTooLong { len, limit } => {
                let mut text = "snappy batch of ".to_owned();
                text.append(decimal(*len as u64).as_str());
                text.append(" compressed bytes could exceed the ");
                text.append(decimal(*limit as u64).as_str());
                text.append(" byte decompression limit");
                text
            },
            DecompressError::NoBlockLength { reason } => {
                let mut text = "failed to read the snappy block length: ".to_owned();
                text.append(reason.as_str());
                text
            },
            DecompressError::BlockTooLong { declared, limit } => {
                let mut text = "snappy batch declares ".to_owned();
                text.append(decimal(*declared as u64).as_str());
                text.append(" bytes, past the ");
                text.append(decimal(*limit as u64).as_str());
                text.append(" byte limit");
                text
            },
            DecompressError::TooManyRecords { claimed, len } => {
                let mut text = "batch claims ".to_owned();
                text.append(decimal(*claimed as u64).as_str());
                text.append(" records; ");
                text.append(decimal(*len as u64).as_str());
                text.append(" decompressed bytes can hold at most ");
                text.append(decimal((*len / MIN_RECORD_BYTES) as u64).as_str());
                text
            },
        }
    }
}

/// What `flate2::read::GzDecoder` yields of a gzip stream when no more than
/// `most` bytes are read from it, or what it says went wrong.
pub uninterp spec fn gunzipped(input: Seq<u8>, most: u64) -> Result<Seq<u8>, Seq<char>>;

/// What `lz4::Decoder` yields of an LZ4 frame when no more than `most` bytes
/// are read from it, or what it says went wrong.
pub uninterp spec fn unlz4(input: Seq<u8>, most: u64) -> Result<Seq<u8>, Seq<char>>;

/// What `zstd::stream::read::Decoder` yields of a zstd stream when no more than
/// `most` bytes are read from it, or what it says went wrong.
pub uninterp spec fn unzstd(input: Seq<u8>, most: u64) -> Result<Seq<u8>, Seq<char>>;

/// What `kafka_protocol::compression::Snappy` makes of a xerial-framed stream,
/// or what it says went wrong.
pub uninterp spec fn unframed(input: Seq<u8>) -> Result<Seq<u8>, Seq<char>>;

/// The decompressed length `snap::raw::decompress_len` reads off a raw snappy
/// block, or what it says went wrong.
pub uninterp spec fn block_length(input: Seq<u8>) -> Result<usize, Seq<char>>;

/// What `snap::raw::Decoder` writes into `space` bytes for a raw snappy block,
/// or what it says went wrong.
pub uninterp spec fn unblocked(input: Seq<u8>, space: usize) -> Result<Seq<u8>, Seq<char>>;

/// Reads a gzip stream through `flate2::read::GzDecoder`, stopping after `most`
/// bytes.
///
/// The contract names the result after its two arguments, and claims that a
/// successful read holds no more than `most` bytes. What the bytes are for a
/// given stream is left to the codec.
#[verifier::external_body]
fn gunzip(input: &Vec<u8>, most: u64) -> (result: Result<Vec<u8>, String>)
    ensures
        outcome_of(result) == gunzipped(input@, most),
        result matches Ok(out) ==> out@.len() <= most,
{
    let mut out = Vec::new();
    match flate2::read::GzDecoder::new(&input[..]).take(most).read_to_end(&mut out) {
        Ok(_) => Ok(out),
        Err(error) => Err(error.to_string()),
    }
}

/// Reads an LZ4 frame through `lz4::Decoder`, stopping after `most` bytes.
///
/// The contract names the result after its two arguments, and claims that a
/// successful read holds no more than `most` bytes. What the bytes are for a
/// given frame is left to the codec.
#[verifier::external_body]
fn read_lz4(input: &Vec<u8>, most: u64) -> (result: Result<Vec<u8>, String>)
    ensures
        outcome_of(result) == unlz4(input@, most),
        result matches Ok(out) ==> out@.len() <= most,
{
    let mut out = Vec::new();
    match lz4::Decoder::new(&input[..]).and_then(|r| r.take(most).read_to_end(&mut out)) {
        Ok(_) => Ok(out),
        Err(error) => Err(error.to_string()),
    }
}

/// Reads a zstd stream through `zstd::stream::read::Decoder`, stopping after
/// `most` bytes.
///
/// The contract names the result after its two arguments, and claims that a
/// successful read holds no more than `most` bytes. What the bytes are for a
/// given stream is left to the codec.
#[verifier::external_body]
fn read_zstd(input: &Vec<u8>, most: u64) -> (result: Result<Vec<u8>, String>)
    ensures
        outcome_of(result) == unzstd(input@, most),
        result matches Ok(out) ==> out@.len() <= most,
{
    let mut out = Vec::new();
    match zstd::stream::read::Decoder::new(&input[..]).and_then(|r| r.take(most).read_to_end(&mut out)) {
        Ok(_) => Ok(out),
        Err(error) => Err(error.to_string()),
    }
}

/// Decompresses a xerial-framed stream through
/// `kafka_protocol::compression::Snappy`.
///
/// The contract names the result after the stream; claims that success
/// consumes the whole stream; and claims that the output is at most
/// [`SNAPPY_MAX_RATIO`] times the input, which the format guarantees: a literal
/// is no longer than the bytes it takes, and a copy emits at most 64 bytes and
/// takes at least two. What is left of the stream after a failure is not
/// stated.
#[verifier::external_body]
fn unframe(input: &mut Vec<u8>) -> (result: Result<Vec<u8>, String>)
    requires
        xerial_magic().is_prefix_of(old(input)@),
    ensures
        outcome_of(result) == unframed(old(input)@),
        result matches Ok(out) ==> final(input)@.len() == 0 && out@.len() <= SNAPPY_MAX_RATIO * old(
            input,
        )@.len(),
{
    let mut stream = bytes::Bytes::from(std::mem::take(input));
    let result = kafka_protocol::compression::Snappy::decompress(&mut stream, |out| Ok(Vec::from(out.clone())));
    *input = Vec::from(stream);
    match result {
        Ok(out) => Ok(out),
        Err(error) => Err(error.to_string()),
    }
}

/// Reads the decompressed length of a raw snappy block with
/// `snap::raw::decompress_len`.
///
/// The contract names the result after the block.
#[verifier::external_body]
fn read_block_length(input: &Vec<u8>) -> (result: Result<usize, String>)
    ensures
        match result {
            Ok(len) => block_length(input@) == Ok::<usize, Seq<char>>(len),
            Err(reason) => block_length(input@) == Err::<usize, Seq<char>>(reason@),
        },
{
    match snap::raw::decompress_len(input) {
        Ok(len) => Ok(len),
        Err(error) => Err(error.to_string()),
    }
}

/// Decompresses a raw snappy block into `space` bytes with
/// `snap::raw::Decoder::decompress`.
///
/// The contract names the result after its two arguments, and claims that the
/// output fills exactly the space it was given.
#[verifier::external_body]
fn unblock(input: &Vec<u8>, space: usize) -> (result: Result<Vec<u8>, String>)
    ensures
        outcome_of(result) == unblocked(input@, space),
        result matches Ok(out) ==> out@.len() == space,
{
    let mut out = vec![0u8; space];
    match snap::raw::Decoder::new().decompress(input, &mut out) {
        Ok(_) => Ok(out),
        Err(error) => Err(error.to_string()),
    }
}

/// A limit, and one byte more, so that filling it proves the stream had more.
pub open spec fn one_past(limit: usize) -> u64 {
    if limit == u64::MAX {
        u64::MAX
    } else {
        (limit + 1) as u64
    }
}

/// What a codec's output comes to under a limit: all of it, or a
/// refusal. Truncating silently would be worse than refusing: a
/// half-decompressed batch decodes into records that look real and are not.
pub open spec fn within(
    output: Result<Seq<u8>, Seq<char>>,
    codec: Compression,
    limit: usize,
) -> Result<Seq<u8>, DecompressErrorView> {
    match output {
        Ok(bytes) => if bytes.len() > limit {
            Err(DecompressErrorView::PastLimit { codec, limit })
        } else {
            Ok(bytes)
        },
        Err(reason) => Err(DecompressErrorView::Codec { reason }),
    }
}

/// What a snappy batch comes to under a limit, in either framing Kafka clients
/// write.
pub open spec fn unsnapped(input: Seq<u8>, limit: usize) -> Result<Seq<u8>, DecompressErrorView> {
    if xerial_magic().is_prefix_of(input) {
        if input.len() > limit / SNAPPY_MAX_RATIO {
            Err(DecompressErrorView::FrameTooLong { len: input.len() as usize, limit })
        } else {
            match unframed(input) {
                Ok(bytes) => Ok(bytes),
                Err(reason) => Err(DecompressErrorView::Codec { reason }),
            }
        }
    } else {
        match block_length(input) {
            Err(reason) => Err(DecompressErrorView::NoBlockLength { reason }),
            Ok(declared) => if declared > limit {
                Err(DecompressErrorView::BlockTooLong { declared, limit })
            } else {
                match unblocked(input, declared) {
                    Ok(bytes) => Ok(bytes),
                    Err(reason) => Err(DecompressErrorView::Codec { reason }),
                }
            },
        }
    }
}

/// What a batch's records come to, decompressed under a limit.
pub open spec fn decompressed(
    input: Seq<u8>,
    codec: Compression,
    limit: usize,
) -> Result<Seq<u8>, DecompressErrorView> {
    match codec {
        Compression::Uncompressed => within(Ok(input), codec, limit),
        Compression::Gzip => within(gunzipped(input, one_past(limit)), codec, limit),
        Compression::Lz4 => within(unlz4(input, one_past(limit)), codec, limit),
        Compression::Zstd => within(unzstd(input, one_past(limit)), codec, limit),
        Compression::Snappy => unsnapped(input, limit),
    }
}

/// The plain form of a decompression's result.
pub open spec fn decompress_view(
    result: Result<Vec<u8>, DecompressError>,
) -> Result<Seq<u8>, DecompressErrorView> {
    match result {
        Ok(bytes) => Ok(bytes@),
        Err(error) => Err(error@),
    }
}

/// Fails rather than truncating a codec's output.
pub fn read_bounded(output: Result<Vec<u8>, String>, limit: usize, codec: Compression) -> (result:
    Result<Vec<u8>, DecompressError>)
    ensures
        decompress_view(result) == within(outcome_of(output), codec, limit),
        result matches Ok(bytes) ==> bytes@.len() <= limit,
{
    match output {
        Ok(bytes) => if bytes.len() > limit {
            Err(DecompressError::PastLimit { codec, limit })
        } else {
            Ok(bytes)
        },
        Err(reason) => Err(DecompressError::Codec { reason }),
    }
}

/// Whether a stream opens with the xerial magic.
fn is_framed(input: &Vec<u8>) -> (framed: bool)
    ensures
        framed == xerial_magic().is_prefix_of(input@),
{
    let magic: [u8; 16] = [
        0x82,
        0x53,
        0x4e,
        0x41,
        0x50,
        0x50,
        0x59,
        0x00,
        0x00,
        0x00,
        0x00,
        0x01,
        0x00,
        0x00,
        0x00,
        0x01,
    ];
    assert(magic@ =~= xerial_magic());
    if input.len() < 16 {
        return false;
    }
    let mut i: usize = 0;
    while i < 16
        invariant
            i <= 16,
            input@.len() >= 16,
            magic@ == xerial_magic(),
            forall|k: int| 0 <= k < i ==> input@[k] == xerial_magic()[k],
        decreases 16 - i,
    {
        if input[i] != magic[i] {
            assert(input@.subrange(0, 16)[i as int] != xerial_magic()[i as int]);
            return false;
        }
        i += 1;
    }
    assert(input@.subrange(0, 16) =~= xerial_magic());
    true
}

/// Decompresses a snappy batch in either framing Kafka clients write.
///
/// Kafka's snappy is not one format. The Java client frames it with
/// snappy-java's xerial header; `librdkafka`, and with it most of the non-Java
/// ecosystem, writes raw, unframed snappy. The framing is decided here, where
/// the buffer is still whole.
pub fn snappy(compressed: &mut Vec<u8>, limit: usize) -> (result: Result<Vec<u8>, DecompressError>)
    ensures
        decompress_view(result) == unsnapped(old(compressed)@, limit),
        match result {
            Ok(bytes) => bytes@.len() <= limit && final(compressed)@.len() == 0,
            Err(DecompressError::Codec { .. }) => true,
            Err(_) => final(compressed)@ == old(compressed)@,
        },
{
    if is_framed(compressed) {
        // Each block's declared length drives an allocation, so the bound has
        // to stay on the input.
        if compressed.len() > limit / SNAPPY_MAX_RATIO {
            return Err(DecompressError::FrameTooLong { len: compressed.len(), limit });
        }
        match unframe(compressed) {
            Ok(bytes) => Ok(bytes),
            Err(reason) => Err(DecompressError::Codec { reason }),
        }
    } else {
        // The block declares its own decompressed size, so this branch gets an
        // exact bound, checked before anything is consumed or allocated.
        let declared: usize = match read_block_length(compressed) {
            Ok(declared) => declared,
            Err(reason) => {
                return Err(DecompressError::NoBlockLength { reason });
            },
        };
        if declared > limit {
            return Err(DecompressError::BlockTooLong { declared, limit });
        }
        let mut input: Vec<u8> = Vec::new();
        std::mem::swap(&mut input, compressed);
        match unblock(&input, declared) {
            Ok(bytes) => Ok(bytes),
            Err(reason) => Err(DecompressError::Codec { reason }),
        }
    }
}

/// Decompresses a batch's records, refusing to exceed `limit` bytes.
///
/// Whatever is decompressed is consumed. A snappy batch refused on its length
/// is refused before anything is consumed.
pub fn bounded(compressed: &mut Vec<u8>, compression: Compression, limit: usize) -> (result: Result<
    Vec<u8>,
    DecompressError,
>)
    ensures
        decompress_view(result) == decompressed(old(compressed)@, compression, limit),
        result matches Ok(bytes) ==> bytes@.len() <= limit,
        compression != Compression::Snappy ==> final(compressed)@.len() == 0,
        compression == Compression::Snappy ==> match result {
            Ok(_) => final(compressed)@.len() == 0,
            Err(DecompressError::Codec { .. }) => true,
            Err(_) => final(compressed)@ == old(compressed)@,
        },
{
    match compression {
        Compression::Snappy => snappy(compressed, limit),
        _ => {
            let mut input: Vec<u8> = Vec::new();
            std::mem::swap(&mut input, compressed);
            let most: u64 = (limit as u64).saturating_add(1);
            match compression {
                Compression::Gzip => read_bounded(gunzip(&input, most), limit, compression),
                Compression::Lz4 => read_bounded(read_lz4(&input, most), limit, compression),
                Compression::Zstd => read_bounded(read_zstd(&input, most), limit, compression),
                _ => read_bounded(Ok(input), limit, compression),
            }
        },
    }
}

/// What the records of a batch that claims `claimed` of them come to:
/// decompressed under a limit, and refused when they cannot hold the claim.
pub open spec fn unpacked(input: Seq<u8>, codec: Compression, claimed: usize, limit: usize) -> Result<
    Seq<u8>,
    DecompressErrorView,
> {
    match decompressed(input, codec, limit) {
        Ok(bytes) => if claimed > bytes.len() / MIN_RECORD_BYTES as nat {
            Err(DecompressErrorView::TooManyRecords { claimed, len: bytes.len() as usize })
        } else {
            Ok(bytes)
        },
        Err(error) => Err(error),
    }
}

/// Decompresses the records of a batch that claims `claimed` of them.
///
/// A decoder reserves room for the claim before it parses anything, so a claim
/// the actual decompressed bytes cannot hold is refused here, where their
/// length is known.
pub fn unpack(payload: Vec<u8>, compression: Compression, claimed: usize, limit: usize) -> (result:
    Result<Vec<u8>, DecompressError>)
    ensures
        decompress_view(result) == unpacked(payload@, compression, claimed, limit),
{
    let mut compressed = payload;
    let bytes = bounded(&mut compressed, compression, limit)?;
    if claimed > bytes.len() / MIN_RECORD_BYTES {
        return Err(DecompressError::TooManyRecords { claimed, len: bytes.len() });
    }
    Ok(bytes)
}

} // verus!
