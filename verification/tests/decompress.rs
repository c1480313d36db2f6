//! Decompressing under a limit.

use std::io::Write;

use kaas_lib::compression::Compression;
use kaas_lib::read::decompress::{
    bounded, read_bounded, snappy, unpack, DecompressError, SNAPPY_MAX_RATIO,
};

const XERIAL_MAGIC: [u8; 16] = [
    0x82, 0x53, 0x4e, 0x41, 0x50, 0x50, 0x59, 0x00, 0x00, 0x00, 0x00, 0x01, 0x00, 0x00, 0x00, 0x01,
];

/// Compresses with a codec. Snappy is raw and unframed here.
fn compress_for_test(data: &[u8], compression: Compression) -> Vec<u8> {
    match compression {
        Compression::Uncompressed => data.to_vec(),
        Compression::Gzip => {
            let mut encoder =
                flate2::write::GzEncoder::new(Vec::new(), flate2::Compression::best());
            encoder.write_all(data).expect("gzip write");
            encoder.finish().expect("gzip finish")
        }
        Compression::Zstd => zstd::encode_all(data, 19).expect("zstd"),
        Compression::Lz4 => {
            let mut encoder =
                lz4::EncoderBuilder::new().level(9).build(Vec::new()).expect("lz4 encoder");
            encoder.write_all(data).expect("lz4 write");
            let (out, result) = encoder.finish();
            result.expect("lz4 finish");
            out
        }
        Compression::Snappy => {
            let mut out = vec![0u8; snap::raw::max_compress_len(data.len())];
            let written =
                snap::raw::Encoder::new().compress(data, &mut out).expect("snappy compress");
            out.truncate(written);
            out
        }
    }
}

/// Megabytes of zeros compress to a few kilobytes.
fn bomb(compression: Compression) -> Vec<u8> {
    let zeros = vec![0u8; 8 * 1024 * 1024];
    compress_for_test(&zeros, compression)
}

#[test]
fn a_decompression_bomb_is_refused_rather_than_allocated() {
    for compression in [Compression::Gzip, Compression::Zstd, Compression::Lz4] {
        let mut compressed = bomb(compression);
        let result = bounded(&mut compressed, compression, 64 * 1024);
        assert!(result.is_err(), "{compression:?} expanded past the limit without complaint");
        assert!(matches!(result, Err(DecompressError::PastLimit { .. })));
    }
}

#[test]
fn a_snappy_bomb_is_refused_before_it_is_decompressed() {
    let mut compressed = bomb(Compression::Snappy);
    let before = compressed.len();
    let error = bounded(&mut compressed, Compression::Snappy, 1024)
        .expect_err("a batch this large cannot fit in 1 KiB");
    assert!(error.message().contains("declares"), "{error:?}");
    assert_eq!(
        compressed.len(),
        before,
        "the input must not have been consumed: nothing was decompressed"
    );
}

#[test]
fn an_honest_batch_decompresses_unchanged() {
    let payload: Vec<u8> = (0..4096u32).map(|i| u8::try_from(i % 251).unwrap_or(0)).collect();
    for compression in [
        Compression::Uncompressed,
        Compression::Gzip,
        Compression::Zstd,
        Compression::Lz4,
    ] {
        let mut compressed = compress_for_test(&payload, compression);
        let out = bounded(&mut compressed, compression, 1024 * 1024)
            .unwrap_or_else(|e| panic!("{compression:?}: {e:?}"));
        assert_eq!(&out[..], &payload[..], "{compression:?}");
        assert!(compressed.is_empty(), "{compression:?} left its input behind");
    }
}

/// Raw, unframed snappy: what most non-Java producers in a cluster write.
#[test]
fn raw_unframed_snappy_round_trips() {
    let payload: Vec<u8> = (0..4096u32).map(|i| u8::try_from(i % 251).unwrap_or(0)).collect();
    let mut compressed = compress_for_test(&payload, Compression::Snappy);
    assert!(
        compressed.len() > 16,
        "the payload must exceed the magic header for this to be the interesting case"
    );
    let out = bounded(&mut compressed, Compression::Snappy, 1024 * 1024)
        .expect("raw snappy is a framing Kafka clients really write");
    assert_eq!(&out[..], &payload[..]);
}

/// The most expansion-dense snappy block that the format can express: one
/// literal byte, then nothing but maximum-length overlapping copies.
fn max_expansion_block() -> Vec<u8> {
    let mut block = vec![0x80, 0x80, 0x02]; // uvarint: 32768 uncompressed
    block.extend_from_slice(&[0x00, 0x5a]); // 1-byte literal 'Z'
    for _ in 0..511 {
        // Copy, 2-byte offset: tag ((64-1)<<2)|0b10, offset 1, emits 64.
        block.extend_from_slice(&[0xfe, 0x01, 0x00]);
    }
    block.extend_from_slice(&[0xfa, 0x01, 0x00]); // len 63 closes at 32768
    block
}

#[test]
fn the_framed_snappy_ratio_bound_survives_the_worst_expressible_blob() {
    let block = max_expansion_block();
    // The block must be real snappy, or the test proves nothing about what a
    // decoder would actually expand.
    let declared = snap::raw::decompress_len(&block).expect("valid preamble");
    assert_eq!(declared, 32 * 1024);
    let mut out = vec![0u8; declared];
    let written = snap::raw::Decoder::new()
        .decompress(&block, &mut out)
        .expect("the pathological block is legal snappy");
    assert_eq!(written, declared);

    // 64 such blocks in the xerial framing.
    let mut blob = Vec::from(&XERIAL_MAGIC[..]);
    for _ in 0..64 {
        blob.extend_from_slice(&u32::try_from(block.len()).unwrap().to_be_bytes());
        blob.extend_from_slice(&block);
    }
    let expanded = 64 * declared;
    let ratio = expanded / blob.len();
    assert!(
        ratio < SNAPPY_MAX_RATIO,
        "found a framed-snappy blob with ratio {ratio}, past the assumed {SNAPPY_MAX_RATIO}"
    );

    // Above the input bound: refused before a byte is decompressed.
    let mut input = blob.clone();
    let error = bounded(&mut input, Compression::Snappy, 64 * 1024)
        .expect_err("a 96 KiB blob cannot promise to fit 64 KiB");
    assert!(error.message().contains("could exceed"), "{error:?}");

    // Below it: decompresses fully and lands under the output limit.
    let limit = blob.len() * SNAPPY_MAX_RATIO;
    let mut input = blob;
    let out = bounded(&mut input, Compression::Snappy, limit).expect("within the bound");
    assert_eq!(out.len(), expanded);
    assert!(out.len() <= limit);
    assert!(out.iter().all(|byte| *byte == 0x5a));
}

#[test]
fn a_batch_exactly_at_the_limit_is_accepted() {
    let payload = vec![7u8; 1000];
    let mut compressed = compress_for_test(&payload, Compression::Gzip);
    let out = bounded(&mut compressed, Compression::Gzip, 1000).expect("fits exactly");
    assert_eq!(out.len(), 1000);
}

#[test]
fn one_byte_over_the_limit_is_refused() {
    let payload = vec![7u8; 1001];
    let mut compressed = compress_for_test(&payload, Compression::Gzip);
    assert!(bounded(&mut compressed, Compression::Gzip, 1000).is_err());
}

/// Data that needs no decompression is held to the limit all the same.
#[test]
fn uncompressed_data_past_the_limit_is_refused() {
    let mut plain = vec![7u8; 1000];
    assert_eq!(bounded(&mut plain, Compression::Uncompressed, 1000).unwrap(), vec![7u8; 1000]);
    assert!(plain.is_empty());
    let mut plain = vec![7u8; 1001];
    let error = bounded(&mut plain, Compression::Uncompressed, 1000).unwrap_err();
    assert_eq!(error.message(), "none batch decompressed past the 1000 byte limit");
    assert!(unpack(vec![7u8], Compression::Uncompressed, 0, 0).is_err());
}

#[test]
fn garbage_is_the_codecs_own_failure() {
    for compression in [Compression::Gzip, Compression::Zstd, Compression::Lz4] {
        let mut garbage = vec![0x5a; 64];
        assert!(matches!(
            bounded(&mut garbage, compression, 1024),
            Err(DecompressError::Codec { .. })
        ));
    }
    // A length that never ends.
    let mut endless = vec![0xff; 20];
    let error = snappy(&mut endless, 1024).unwrap_err();
    assert!(matches!(error, DecompressError::NoBlockLength { .. }));
    assert!(error.message().starts_with("failed to read the snappy block length: "));
    // A block that is shorter than it says.
    let mut short = vec![0x10, 0x00];
    assert!(matches!(snappy(&mut short, 1024), Err(DecompressError::Codec { .. })));
    // A frame that is cut off.
    let mut cut = XERIAL_MAGIC.to_vec();
    cut.extend_from_slice(&[0, 0, 0, 9, 1]);
    assert!(matches!(snappy(&mut cut, 4096), Err(DecompressError::Codec { .. })));
}

#[test]
fn a_refusal_says_by_how_much() {
    let past = read_bounded(Ok(vec![0; 11]), 10, Compression::Gzip).unwrap_err();
    assert_eq!(past.message(), "gzip batch decompressed past the 10 byte limit");
    assert_eq!(read_bounded(Ok(vec![0; 10]), 10, Compression::Gzip).unwrap().len(), 10);
    let codec = read_bounded(Err("broken".to_owned()), 10, Compression::Lz4).unwrap_err();
    assert_eq!(codec.message(), "broken");
}

/// Six bytes are the least a record takes.
#[test]
fn a_claim_must_fit_the_bytes() {
    let payload = vec![1u8; 60];
    assert_eq!(
        unpack(payload.clone(), Compression::Uncompressed, 10, 1024).unwrap(),
        payload
    );
    let refused = unpack(payload, Compression::Uncompressed, 11, 1024).unwrap_err();
    assert!(matches!(refused, DecompressError::TooManyRecords { claimed: 11, len: 60 }));
}
