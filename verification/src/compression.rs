//! The codecs a record batch can be compressed with.

use vstd::prelude::*;

verus! {

/// How a batch's records are compressed.
#[derive(Debug, Clone, Copy, PartialEq, Eq, Structural)]
pub enum Compression {
    /// Not at all.
    Uncompressed,
    /// Gzip.
    Gzip,
    /// Snappy.
    Snappy,
    /// LZ4.
    Lz4,
    /// Zstandard.
    Zstd,
}

impl Default for Compression {
    /// Uncompressed.
    fn default() -> (compression: Self)
        ensures
            compression == Compression::Uncompressed,
    {
        Compression::Uncompressed
    }
}

/// The number a batch's attributes carry for a codec.
pub open spec fn code_of(compression: Compression) -> u8 {
    match compression {
        Compression::Uncompressed => 0,
        Compression::Gzip => 1,
        Compression::Snappy => 2,
        Compression::Lz4 => 3,
        Compression::Zstd => 4,
    }
}

/// The codec a number in a batch's attributes stands for. A number that
/// stands for none reads as uncompressed.
pub open spec fn codec_of(code: int) -> Compression {
    if code == 1 {
        Compression::Gzip
    } else if code == 2 {
        Compression::Snappy
    } else if code == 3 {
        Compression::Lz4
    } else if code == 4 {
        Compression::Zstd
    } else {
        Compression::Uncompressed
    }
}

impl Compression {
    /// The number a batch's attributes carry for this codec.
    pub fn wire(self) -> (code: u8)
        ensures
            code == code_of(self),
    {
        match self {
            Compression::Uncompressed => 0,
            Compression::Gzip => 1,
            Compression::Snappy => 2,
            Compression::Lz4 => 3,
            Compression::Zstd => 4,
        }
    }

    /// The codec that `code` stands for.
    pub fn from_wire(code: u8) -> (compression: Self)
        ensures
            compression == codec_of(code as int),
    {
        match code {
            1 => Compression::Gzip,
            2 => Compression::Snappy,
            3 => Compression::Lz4,
            4 => Compression::Zstd,
            _ => Compression::Uncompressed,
        }
    }
}

/// Every codec survives being written into a batch's attributes and read back.
pub proof fn codec_round_trips(compression: Compression)
    ensures
        codec_of(code_of(compression) as int) == compression,
{
}

/// The numbers are those of the Kafka protocol, no two codecs share one, and a
/// number that stands for none reads as uncompressed.
pub proof fn codec_numbers_are_the_protocols(code: int)
    ensures
        codec_of(code) == Compression::Gzip <==> code == 1,
        codec_of(code) == Compression::Snappy <==> code == 2,
        codec_of(code) == Compression::Lz4 <==> code == 3,
        codec_of(code) == Compression::Zstd <==> code == 4,
        code_of(Compression::Uncompressed) == 0,
{
}

} // verus!
