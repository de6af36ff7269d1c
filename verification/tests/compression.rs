use oxihipo::compress::{compress, decompress, decompress_into_slice, inflate_stream, ScratchBuf};
use oxihipo::wire::constants::CompressionType;
use oxihipo::HipoError;

fn round_trip(kind: CompressionType, data: &[u8]) {
    let mut compressed = Vec::new();
    compress(kind, data, &mut compressed).unwrap();
    let mut out = Vec::with_capacity(data.len());
    decompress(kind, &compressed, &mut out, data.len()).unwrap();
    assert_eq!(&out[..], data);
}

#[test]
fn roundtrip_none_empty() {
    round_trip(CompressionType::Uncompressed, &[]);
}

#[test]
fn rejects_implausible_decompressed_size() {
    let src = vec![0u8; 64];
    for kind in [
        CompressionType::Lz4,
        CompressionType::Gzip,
        CompressionType::Uncompressed,
    ] {
        let mut dst = Vec::new();
        let huge = 3_000_000_000usize;
        let err = decompress(kind, &src, &mut dst, huge);
        assert!(err.is_err(), "{kind:?}: huge expected must Err");
        assert!(
            dst.capacity() < 16 * 1024 * 1024,
            "{kind:?}: must not allocate for an implausible size (cap = {})",
            dst.capacity()
        );
    }
}

#[test]
fn roundtrip_lz4_small() {
    round_trip(
        CompressionType::Lz4,
        b"hello, world. hello, world. hello, world.",
    );
}

#[test]
fn roundtrip_gzip_small() {
    round_trip(
        CompressionType::Gzip,
        b"hello, world. hello, world. hello, world.",
    );
}

#[test]
fn scratch_grows_geometrically() {
    let mut s = ScratchBuf::new();
    s.reset_with_capacity(100);
    assert!(s.capacity() >= 100);
    s.reset_with_capacity(1000);
    assert!(s.capacity() >= 1000);
}

#[test]
fn scratch_does_not_shrink() {
    let mut s = ScratchBuf::with_capacity(4096);
    s.reset_with_capacity(10);
    assert!(s.capacity() >= 4096);
}

#[test]
fn slice_decompress_lz4_round_trip() {
    let src_data = b"hello, world. hello, world. hello, world.".to_vec();
    let mut compressed = Vec::new();
    compress(CompressionType::Lz4, &src_data, &mut compressed).unwrap();

    let mut out = vec![0u8; src_data.len()];
    let produced = decompress_into_slice(CompressionType::Lz4, &compressed, &mut out).unwrap();
    assert_eq!(produced, src_data.len());
    assert_eq!(out, src_data);
}

#[test]
fn slice_decompress_none_round_trip() {
    let src_data = b"abc".to_vec();
    let mut out = vec![0u8; 3];
    let produced =
        decompress_into_slice(CompressionType::Uncompressed, &src_data, &mut out).unwrap();
    assert_eq!(produced, 3);
    assert_eq!(out, src_data);
}

#[test]
fn slice_decompress_lz4_empty() {
    let out: [u8; 0] = [];
    let mut buf: [u8; 0] = [];
    let produced = decompress_into_slice(CompressionType::Lz4, &out, &mut buf).unwrap();
    assert_eq!(produced, 0);
}

#[test]
fn every_codec_gives_back_what_it_was_given() {
    for kind in [
        CompressionType::Uncompressed,
        CompressionType::Lz4,
        CompressionType::Lz4Best,
        CompressionType::Gzip,
    ] {
        for n in [0usize, 1, 7, 64, 4096, 70_000] {
            let data: Vec<u8> = (0..n).map(|i| ((i * i) >> 3) as u8).collect();
            round_trip(kind, &data);
        }
    }
}

#[test]
fn compression_changes_the_bytes() {
    let data = vec![7u8; 1000];
    for kind in [CompressionType::Lz4, CompressionType::Gzip] {
        let mut packed = Vec::new();
        let n = compress(kind, &data, &mut packed).unwrap();
        assert_eq!(n, packed.len());
        assert!(packed.len() < 100);
        assert_eq!(inflate_stream(kind, &packed, 1000).unwrap(), data);
    }
}

#[test]
fn zstandard_is_not_supported() {
    let mut out = Vec::new();
    let err = compress(CompressionType::ZstdPerChunk, b"x", &mut out).unwrap_err();
    assert!(matches!(err, HipoError::Compression(_)));
    let err = decompress(CompressionType::ZstdPerChunk, b"x", &mut out, 1).unwrap_err();
    assert!(matches!(err, HipoError::Compression(_)));
}

#[test]
fn a_short_block_is_an_underflow() {
    let mut out = Vec::new();
    let mut packed = Vec::new();
    compress(CompressionType::Lz4, b"abc", &mut packed).unwrap();
    let err = decompress(CompressionType::Lz4, &packed, &mut out, 67_000).unwrap_err();
    assert!(matches!(
        err,
        HipoError::DecompressUnderflow { produced: 3, expected: 67_000 }
    ));
    let mut exact = [0u8; 9];
    let err = decompress_into_slice(CompressionType::Lz4, &packed, &mut exact).unwrap_err();
    assert!(matches!(
        err,
        HipoError::DecompressUnderflow { produced: 3, expected: 9 }
    ));
}

#[test]
fn damaged_blocks_are_errors() {
    let mut out = Vec::new();
    assert!(decompress(CompressionType::Gzip, b"not gzip", &mut out, 4).is_err());
    assert!(decompress(CompressionType::Lz4, &[0xff, 0xff, 0xff], &mut out, 40).is_err());
}

/// Bytes that follow no pattern, the same for the same seed.
fn noise(seed: u64, n: usize) -> Vec<u8> {
    let mut x = seed.wrapping_mul(0x9E37_79B9_7F4A_7C15) | 1;
    let mut out = Vec::with_capacity(n);
    for _ in 0..n {
        x ^= x << 13;
        x ^= x >> 7;
        x ^= x << 17;
        out.push((x >> 32) as u8);
    }
    out
}

#[test]
fn proptest_lz4_roundtrip() {
    for case in 0..64u64 {
        let n = (case as usize * 7919) % 16384;
        round_trip(CompressionType::Lz4, &noise(case + 1, n));
    }
}

#[test]
fn proptest_gzip_roundtrip() {
    for case in 0..64u64 {
        let n = (case as usize * 7919) % 16384;
        round_trip(CompressionType::Gzip, &noise(case + 1, n));
    }
}

#[test]
fn data_that_shrinks_most_comes_back() {
    let mut half = vec![7u8; 3 << 20];
    half.extend_from_slice(&noise(5, 1000));
    for kind in [CompressionType::Lz4, CompressionType::Lz4Best, CompressionType::Gzip] {
        round_trip(kind, &vec![0u8; 5 << 20]);
        round_trip(kind, &half);
    }
}

#[test]
fn a_refused_fill_leaves_the_destination_alone() {
    let mut dst = [9u8; 3];
    assert!(decompress_into_slice(CompressionType::Uncompressed, &[1, 2], &mut dst).is_err());
    assert_eq!(dst, [9, 9, 9]);
}
