//! Decompression and compression of record payloads, and the reusable scratch buffer.
//!
//! HIPO uses raw LZ4 blocks (not framed) and gzip. The decompressed size is known up front
//! from the record header.

use std::io::{Read, Write};

use vstd::prelude::*;
use crate::error::{HipoError, Result};
use crate::wire::constants::{Codec, CompressionType};

verus! {

/// How far a decoder may fall short of, or run past, the size that a header reports. Writers
/// sometimes put small amounts of padding inside the compressed payload.
pub const DECOMPRESS_SLACK: usize = 65536;

/// `lz4_flex`'s decoding error, carried through unopened.
#[verifier::external_type_specification]
#[verifier::external_body]
pub struct ExDecompressError(lz4_flex::block::DecompressError);

/// `lz4_flex`'s encoding error, carried through unopened.
#[verifier::external_type_specification]
#[verifier::external_body]
pub struct ExCompressError(lz4_flex::block::CompressError);

/// What decoding the LZ4 block `src` into `room` bytes produces; `None` where the block is
/// malformed or decodes to more than `room` bytes.
pub uninterp spec fn lz4_inflated(src: Seq<u8>, room: nat) -> Option<Seq<u8>>;

/// The first `limit` bytes that decoding the gzip member `src` produces (all of them where
/// there are fewer); `None` where the decoder meets a malformed member before that.
pub uninterp spec fn gunzipped(src: Seq<u8>, limit: nat) -> Option<Seq<u8>>;

/// `lz4_flex::block::decompress_into`: decodes the whole block to the front of `out` and
/// returns the number of bytes produced, or fails.
#[verifier::external_body]
fn lz4_decompress_into(src: &[u8], out: &mut [u8]) -> (r: core::result::Result<
    usize,
    lz4_flex::block::DecompressError,
>)
    ensures
        final(out).len() == old(out).len(),
        match r {
            Ok(n) => n <= final(out).len() && lz4_inflated(src@, old(out).len() as nat) == Some(
                final(out)@.subrange(0, n as int),
            ),
            Err(_) => lz4_inflated(src@, old(out).len() as nat) is None,
        },
{
    lz4_flex::block::decompress_into(src, out)
}

/// `lz4_flex::block::compress_into`: encodes `src` as one block at the front of `out` and
/// returns the block's length. It fails only where `out` is shorter than the bound that the
/// crate documents. Which block it picks depends on the machine's word; every block decodes
/// back to `src` wherever there is room for it. No byte of a block stands for more than 255
/// bytes: a length byte adds at most that many, and the fixed part of a match takes three bytes
/// for at most nineteen.
#[verifier::external_body]
fn lz4_compress_into(src: &[u8], out: &mut [u8]) -> (r: core::result::Result<
    usize,
    lz4_flex::block::CompressError,
>)
    requires
        src.len() * 110 <= u64::MAX,
        lz4_bound(src.len() as nat) <= usize::MAX,
    ensures
        final(out).len() == old(out).len(),
        match r {
            Ok(n) => n <= final(out).len() && src.len() <= 255 * n && (forall|room: nat|
                room >= src.len() ==> #[trigger] lz4_inflated(
                    final(out)@.subrange(0, n as int),
                    room,
                ) == Some(src@)),
            Err(_) => old(out).len() < lz4_bound(src.len() as nat),
        },
{
    lz4_flex::block::compress_into(src, out)
}

/// `flate2::read::GzDecoder` over `src`, read up to `limit` bytes: the bytes read, or the
/// decoder's error.
#[verifier::external_body]
fn gunzip(src: &[u8], limit: u64) -> (r: core::result::Result<Vec<u8>, std::io::Error>)
    ensures
        match r {
            Ok(v) => v.len() <= limit && gunzipped(src@, limit as nat) == Some(v@),
            Err(_) => gunzipped(src@, limit as nat) is None,
        },
{
    let mut out = Vec::new();
    flate2::read::GzDecoder::new(src).take(limit).read_to_end(&mut out)?;
    Ok(out)
}

/// `flate2::write::GzEncoder` at its default level: one gzip member that decodes back to
/// `src`. No byte of a member stands for more than 1032 bytes: a match is at most 258 bytes long,
/// and its length and its distance take at least one bit each. The encoder succeeds: it fails only
/// where its sink does, which here is a vector that grows, or where deflate reports a stream
/// error, which it does for missing buffers and for data behind the end. Nothing is said of which
/// member it is.
#[verifier::external_body]
fn gzip(src: &[u8]) -> (r: core::result::Result<Vec<u8>, std::io::Error>)
    ensures
        r is Ok,
        src.len() <= 1032 * r->Ok_0.len(),
        forall|limit: nat|
            limit >= src.len() ==> #[trigger] gunzipped(r->Ok_0@, limit) == Some(src@),
{
    let mut enc = flate2::write::GzEncoder::new(Vec::new(), flate2::Compression::default());
    enc.write_all(src)?;
    enc.finish()
}

/// The room that encoding `len` bytes as an LZ4 block may need.
pub open spec fn lz4_bound(len: nat) -> nat {
    20 + len * 110 / 100
}

/// `n`, or the largest `usize` where `n` is larger.
pub open spec fn capped(n: nat) -> nat {
    if n > usize::MAX {
        usize::MAX as nat
    } else {
        n
    }
}

/// The largest decompressed size that `len` bytes of input can plausibly have.
pub open spec fn plausible_size(codec: Codec, len: nat) -> nat {
    if codec == Codec::Uncompressed {
        len
    } else {
        capped(capped(len * 1056) + DECOMPRESS_SLACK as nat)
    }
}

/// The room that an LZ4 block of `len` bytes is decoded into: twice the expected size, and at
/// least 32 times the input.
pub open spec fn lz4_room(expected: nat, len: nat) -> nat {
    if capped(expected * 2) >= capped(len * 32) {
        capped(expected * 2)
    } else {
        capped(len * 32)
    }
}

/// How many bytes a gzip payload is read up to.
pub open spec fn gzip_limit(expected: nat) -> nat {
    if expected + DECOMPRESS_SLACK > u64::MAX {
        u64::MAX as nat
    } else {
        expected + DECOMPRESS_SLACK as nat
    }
}

/// `b` where it falls at most `slack` bytes short of `expected`.
pub open spec fn long_enough(b: Option<Seq<u8>>, expected: nat, slack: nat) -> Option<Seq<u8>> {
    match b {
        Some(bytes) => if bytes.len() + slack < expected {
            None
        } else {
            Some(bytes)
        },
        None => None,
    }
}

/// What `decompress` makes of `src`; `None` where it fails.
pub open spec fn decompressed(codec: Codec, src: Seq<u8>, expected: nat) -> Option<Seq<u8>> {
    if expected > plausible_size(codec, src.len()) {
        None
    } else {
        match codec {
            Codec::Uncompressed => Some(src.subrange(0, expected as int)),
            Codec::Lz4 | Codec::Lz4Hc => if expected == 0 {
                Some(Seq::empty())
            } else {
                long_enough(
                    lz4_inflated(src, lz4_room(expected, src.len())),
                    expected,
                    DECOMPRESS_SLACK as nat,
                )
            },
            Codec::Gzip => long_enough(
                gunzipped(src, gzip_limit(expected)),
                expected,
                DECOMPRESS_SLACK as nat,
            ),
            Codec::Zstd => None,
        }
    }
}

/// The error that `decompress` fails with on an input that `decompressed` maps to `None`.
pub open spec fn decompress_error(
    codec: Codec,
    src: Seq<u8>,
    expected: nat,
    err: HipoError,
) -> bool {
    if expected > plausible_size(codec, src.len()) {
        err == (HipoError::CorruptRecord {
            offset: 0,
            reason: "decompressed size implausibly large for compressed input",
        })
    } else {
        match codec {
            Codec::Uncompressed => false,
            Codec::Lz4 | Codec::Lz4Hc => match lz4_inflated(src, lz4_room(expected, src.len())) {
                None => err == HipoError::Compression("lz4 decompress failed"),
                Some(b) => err == (HipoError::DecompressUnderflow {
                    produced: b.len() as usize,
                    expected: expected as usize,
                }),
            },
            Codec::Gzip => match gunzipped(src, gzip_limit(expected)) {
                None => err is Io,
                Some(b) => err == (HipoError::DecompressUnderflow {
                    produced: b.len() as usize,
                    expected: expected as usize,
                }),
            },
            Codec::Zstd => err == HipoError::Compression("zstd is not available in this build"),
        }
    }
}

/// `a * k`, or the largest `usize` where that is larger.
fn times_capped(a: usize, k: usize) -> (r: usize)
    ensures
        r == capped((a * k) as nat),
{
    match a.checked_mul(k) {
        Some(x) => x,
        None => usize::MAX,
    }
}

/// Whether `produced` bytes are close enough to the `expected` ones: at most `slack` short.
pub fn check_produced(produced: usize, expected: usize, slack: usize) -> (r: Result<()>)
    ensures
        r == (if produced + slack < expected {
            Err(HipoError::DecompressUnderflow { produced, expected })
        } else {
            Ok(())
        }),
{
    if expected > slack && produced < expected - slack {
        Err(HipoError::DecompressUnderflow { produced, expected })
    } else {
        Ok(())
    }
}

/// Decompress `src` into `dst`. On success `dst` holds exactly the bytes produced.
///
/// An implausibly large size is refused before anything is allocated for it: LZ4 expands at
/// most about 255 times and DEFLATE about 1032 times, and an uncompressed payload cannot hold
/// more than its input.
pub fn decompress(
    kind: CompressionType,
    src: &[u8],
    dst: &mut Vec<u8>,
    expected: usize,
) -> (r: Result<()>)
    ensures
        match decompressed(kind.spec_codec(), src@, expected as nat) {
            Some(bytes) => r is Ok && final(dst)@ == bytes,
            None => r is Err && decompress_error(
                kind.spec_codec(),
                src@,
                expected as nat,
                r->Err_0,
            ) && final(dst).len() == 0,
        },
{
    dst.clear();
    let codec = kind.codec();
    let max_plausible: usize = match codec {
        Codec::Uncompressed => src.len(),
        _ => times_capped(src.len(), 1056).saturating_add(DECOMPRESS_SLACK),
    };
    if expected > max_plausible {
        return Err(
            HipoError::CorruptRecord {
                offset: 0,
                reason: "decompressed size implausibly large for compressed input",
            },
        );
    }
    match codec {
        Codec::Uncompressed => {
            let bytes = vstd::slice::slice_subrange(src, 0, expected);
            dst.extend_from_slice(bytes);
            assert(dst@ =~= src@.subrange(0, expected as int));
            Ok(())
        },
        Codec::Lz4 | Codec::Lz4Hc => {
            if expected == 0 {
                return Ok(());
            }
            let twice: usize = times_capped(expected, 2);
            let wide: usize = times_capped(src.len(), 32);
            let room: usize = if twice >= wide {
                twice
            } else {
                wide
            };
            let mut out: Vec<u8> = vec![0u8; room];
            match lz4_decompress_into(src, out.as_mut_slice()) {
                Ok(produced) => {
                    check_produced(produced, expected, DECOMPRESS_SLACK)?;
                    out.truncate(produced);
                    dst.append(&mut out);
                    assert(dst@ =~= lz4_inflated(src@, room as nat)->0);
                    Ok(())
                },
                Err(_) => Err(HipoError::Compression("lz4 decompress failed")),
            }
        },
        Codec::Gzip => {
            let limit: u64 = (expected as u64).saturating_add(DECOMPRESS_SLACK as u64);
            match gunzip(src, limit) {
                Ok(mut out) => {
                    check_produced(out.len(), expected, DECOMPRESS_SLACK)?;
                    dst.append(&mut out);
                    assert(dst@ =~= gunzipped(src@, limit as nat)->0);
                    Ok(())
                },
                Err(e) => Err(HipoError::Io(e)),
            }
        },
        Codec::Zstd => Err(HipoError::Compression("zstd is not available in this build")),
    }
}

/// The first `expected` bytes of what `decompress` makes of `src`; nothing is decoded where
/// nothing is expected.
pub open spec fn stream_of(codec: Codec, src: Seq<u8>, expected: nat) -> Option<Seq<u8>> {
    if expected == 0 {
        Some(Seq::empty())
    } else {
        match decompressed(codec, src, expected) {
            Some(b) => Some(
                if b.len() > expected {
                    b.subrange(0, expected as int)
                } else {
                    b
                },
            ),
            None => None,
        }
    }
}

/// Decompress one stream of a record: at most `expected` bytes.
pub fn inflate_stream(kind: CompressionType, src: &[u8], expected: usize) -> (r: Result<Vec<u8>>)
    ensures
        match stream_of(kind.spec_codec(), src@, expected as nat) {
            Some(bytes) => r is Ok && r->Ok_0@ == bytes && bytes.len() <= expected,
            None => r is Err && decompress_error(kind.spec_codec(), src@, expected as nat, r->Err_0),
        },
{
    let mut out: Vec<u8> = Vec::new();
    if expected > 0 {
        decompress(kind, src, &mut out, expected)?;
        out.truncate(expected);
    }
    Ok(out)
}

/// What was compressed as a stream is given back as a stream.
pub proof fn law_stream_round_trip(codec: Codec, packed: Seq<u8>, src: Seq<u8>)
    requires
        src.len() > 0 ==> encodes(codec, packed, src),
        src.len() <= usize::MAX,
    ensures
        stream_of(codec, packed, src.len()) == Some(src),
{
    if src.len() > 0 {
        law_compression_round_trip(codec, packed, src);
    } else {
        assert(src =~= Seq::empty());
    }
}

/// What `decompress_into_slice` makes of `src` for a destination of `expected` bytes; `None`
/// where it fails.
pub open spec fn filled(codec: Codec, src: Seq<u8>, expected: nat) -> Option<Seq<u8>> {
    match codec {
        Codec::Uncompressed => if src.len() < expected {
            None
        } else {
            Some(src.subrange(0, expected as int))
        },
        Codec::Lz4 | Codec::Lz4Hc => if expected == 0 {
            Some(Seq::empty())
        } else {
            long_enough(lz4_inflated(src, expected), expected, 0)
        },
        Codec::Gzip => if expected == 0 {
            Some(Seq::empty())
        } else {
            long_enough(gunzipped(src, expected), expected, 0)
        },
        Codec::Zstd => None,
    }
}

/// The error that `decompress_into_slice` fails with on an input that `filled` maps to `None`.
pub open spec fn fill_error(codec: Codec, src: Seq<u8>, expected: nat, err: HipoError) -> bool {
    match codec {
        Codec::Uncompressed => err == (HipoError::DecompressUnderflow {
            produced: src.len() as usize,
            expected: expected as usize,
        }),
        Codec::Lz4 | Codec::Lz4Hc => match lz4_inflated(src, expected) {
            None => err == HipoError::Compression("lz4 decompress failed"),
            Some(b) => err == (HipoError::DecompressUnderflow {
                produced: b.len() as usize,
                expected: expected as usize,
            }),
        },
        Codec::Gzip => match gunzipped(src, expected) {
            None => err is Io,
            Some(b) => err == (HipoError::DecompressUnderflow {
                produced: b.len() as usize,
                expected: expected as usize,
            }),
        },
        Codec::Zstd => err == HipoError::Compression("zstd is not available in this build"),
    }
}

/// Copy the whole of `src` over `dst`, which has the same length.
fn copy_over(dst: &mut [u8], src: &[u8])
    requires
        old(dst).len() == src.len(),
    ensures
        final(dst)@ == src@,
{
    let mut i: usize = 0;
    while i < src.len()
        invariant
            i <= src.len(),
            dst.len() == src.len(),
            forall|k: int| 0 <= k < i ==> dst@[k] == src@[k],
        decreases src.len() - i,
    {
        dst[i] = src[i];
        i = i + 1;
    }
    assert(dst@ =~= src@);
}

/// Decompress `src` over the whole of `dst`, and return the count produced, which is
/// `dst.len()`.
pub fn decompress_into_slice(kind: CompressionType, src: &[u8], dst: &mut [u8]) -> (r: Result<
    usize,
>)
    ensures
        final(dst).len() == old(dst).len(),
        match filled(kind.spec_codec(), src@, old(dst).len() as nat) {
            Some(bytes) => r == Ok::<usize, HipoError>(old(dst).len()) && final(dst)@ == bytes,
            None => r is Err && fill_error(
                kind.spec_codec(),
                src@,
                old(dst).len() as nat,
                r->Err_0,
            ),
        },
        kind.spec_codec() == Codec::Uncompressed && r is Err ==> final(dst)@ == old(dst)@,
{
    let expected: usize = dst.len();
    match kind.codec() {
        Codec::Uncompressed => {
            check_produced(src.len(), expected, 0)?;
            copy_over(dst, vstd::slice::slice_subrange(src, 0, expected));
            Ok(expected)
        },
        Codec::Lz4 | Codec::Lz4Hc => {
            if expected == 0 {
                assert(dst@ =~= Seq::empty());
                return Ok(0);
            }
            match lz4_decompress_into(src, dst) {
                Ok(produced) => {
                    check_produced(produced, expected, 0)?;
                    assert(dst@.subrange(0, produced as int) =~= dst@);
                    Ok(produced)
                },
                Err(_) => Err(HipoError::Compression("lz4 decompress failed")),
            }
        },
        Codec::Gzip => {
            if expected == 0 {
                assert(dst@ =~= Seq::empty());
                return Ok(0);
            }
            match gunzip(src, expected as u64) {
                Ok(out) => {
                    check_produced(out.len(), expected, 0)?;
                    copy_over(dst, out.as_slice());
                    Ok(expected)
                },
                Err(e) => Err(HipoError::Io(e)),
            }
        },
        Codec::Zstd => Err(HipoError::Compression("zstd is not available in this build")),
    }
}

/// `packed` is an encoding of `src`: both decoders give `src` back from it, and it is no smaller
/// than the codec allows.
pub open spec fn encodes(codec: Codec, packed: Seq<u8>, src: Seq<u8>) -> bool {
    match codec {
        Codec::Uncompressed => packed == src,
        Codec::Lz4 | Codec::Lz4Hc => src.len() <= 255 * packed.len() && forall|room: nat|
            room >= src.len() ==> #[trigger] lz4_inflated(packed, room) == Some(src),
        Codec::Gzip => src.len() <= 1032 * packed.len() && forall|limit: nat|
            limit >= src.len() ==> #[trigger] gunzipped(packed, limit) == Some(src),
        Codec::Zstd => false,
    }
}

/// Append an encoding of `src` to `dst`; returns its length. Fails for Zstandard alone.
pub fn compress(kind: CompressionType, src: &[u8], dst: &mut Vec<u8>) -> (r: Result<usize>)
    requires
        src.len() * 110 <= u64::MAX,
        lz4_bound(src.len() as nat) <= usize::MAX,
        old(dst).len() + lz4_bound(src.len() as nat) <= usize::MAX,
    ensures
        match kind.spec_codec() {
            Codec::Uncompressed => r == Ok::<usize, HipoError>(src.len()),
            Codec::Lz4 | Codec::Lz4Hc => r is Ok && r->Ok_0 <= lz4_bound(src.len() as nat),
            Codec::Gzip => r is Ok,
            Codec::Zstd => r == Err::<usize, HipoError>(
                HipoError::Compression("zstd is not available in this build"),
            ),
        },
        match r {
            Ok(n) => {
                let packed = final(dst)@.subrange(old(dst).len() as int, final(dst).len() as int);
                &&& final(dst).len() == old(dst).len() + n
                &&& final(dst)@ == old(dst)@ + packed
                &&& encodes(kind.spec_codec(), packed, src@)
            },
            Err(_) => final(dst)@ == old(dst)@,
        },
{
    let ghost before = dst@;
    match kind.codec() {
        Codec::Uncompressed => {
            dst.extend_from_slice(src);
            proof {
                assert(dst@ =~= before + src@);
                assert(dst@.subrange(before.len() as int, dst.len() as int) =~= src@);
            }
            Ok(src.len())
        },
        Codec::Lz4 | Codec::Lz4Hc => {
            let bound: u64 = 20 + src.len() as u64 * 110 / 100;
            let mut out: Vec<u8> = vec![0u8; bound as usize];
            match lz4_compress_into(src, out.as_mut_slice()) {
                Ok(n) => {
                    out.truncate(n);
                    let ghost packed = out@;
                    dst.append(&mut out);
                    proof {
                        assert(dst@ =~= before + packed);
                        assert(dst@.subrange(before.len() as int, dst.len() as int) =~= packed);
                    }
                    Ok(n)
                },
                Err(_) => Err(HipoError::Compression("lz4 compress failed")),
            }
        },
        Codec::Gzip => {
            match gzip(src) {
                Ok(mut out) => {
                    let n: usize = out.len();
                    let ghost packed = out@;
                    dst.append(&mut out);
                    proof {
                        assert(dst@ =~= before + packed);
                        assert(dst@.subrange(before.len() as int, dst.len() as int) =~= packed);
                    }
                    Ok(n)
                },
                Err(e) => Err(HipoError::Io(e)),
            }
        },
        Codec::Zstd => Err(HipoError::Compression("zstd is not available in this build")),
    }
}

/// What was encoded is never refused for its size.
pub proof fn law_encoded_size_is_plausible(codec: Codec, packed: Seq<u8>, src: Seq<u8>)
    requires
        encodes(codec, packed, src),
        src.len() <= usize::MAX,
    ensures
        src.len() <= plausible_size(codec, packed.len()),
{
}

/// What `compress` wrote, `decompress` gives back.
pub proof fn law_compression_round_trip(codec: Codec, packed: Seq<u8>, src: Seq<u8>)
    requires
        encodes(codec, packed, src),
        src.len() <= usize::MAX,
    ensures
        decompressed(codec, packed, src.len()) == Some(src),
{
    law_encoded_size_is_plausible(codec, packed, src);
    match codec {
        Codec::Uncompressed => {
            assert(packed.subrange(0, src.len() as int) =~= src);
        },
        Codec::Lz4 | Codec::Lz4Hc => {
            if src.len() == 0 {
                assert(src =~= Seq::empty());
            } else {
                assert(lz4_inflated(packed, lz4_room(src.len(), packed.len())) == Some(src));
            }
        },
        Codec::Gzip => {
            assert(gunzipped(packed, gzip_limit(src.len())) == Some(src));
        },
        Codec::Zstd => {},
    }
}

/// What `compress` wrote, `decompress_into_slice` gives back to a destination of the length
/// of the data.
pub proof fn law_slice_round_trip(codec: Codec, packed: Seq<u8>, src: Seq<u8>)
    requires
        encodes(codec, packed, src),
    ensures
        filled(codec, packed, src.len()) == Some(src),
{
    match codec {
        Codec::Uncompressed => {
            assert(packed.subrange(0, src.len() as int) =~= src);
        },
        Codec::Lz4 | Codec::Lz4Hc => {
            assert(lz4_inflated(packed, src.len()) == Some(src));
            if src.len() == 0 {
                assert(src =~= Seq::empty());
            }
        },
        Codec::Gzip => {
            assert(gunzipped(packed, src.len()) == Some(src));
            if src.len() == 0 {
                assert(src =~= Seq::empty());
            }
        },
        Codec::Zstd => {},
    }
}

/// `Vec::capacity`: how many bytes the vector holds without reallocating. What the allocator
/// gave is not a function of the contents; it is never less than the length.
#[verifier::external_body]
fn vec_capacity(v: &Vec<u8>) -> (c: usize)
    ensures
        c >= v.len(),
{
    v.capacity()
}

/// A byte vector that grows but never shrinks.
#[derive(Debug)]
pub struct ScratchBuf {
    inner: Vec<u8>,
}

impl View for ScratchBuf {
    type V = Seq<u8>;

    closed spec fn view(&self) -> Seq<u8> {
        self.inner@
    }
}

impl Default for ScratchBuf {
    fn default() -> (r: Self)
        ensures
            r@ == Seq::<u8>::empty(),
    {
        ScratchBuf::new()
    }
}

impl ScratchBuf {
    pub fn new() -> (r: Self)
        ensures
            r@ == Seq::<u8>::empty(),
    {
        ScratchBuf { inner: Vec::new() }
    }

    pub fn with_capacity(cap: usize) -> (r: Self)
        ensures
            r@ == Seq::<u8>::empty(),
    {
        ScratchBuf { inner: Vec::with_capacity(cap) }
    }

    /// Empty the buffer and reserve at least `min` bytes, growing geometrically. How much is
    /// allocated is the allocator's choice and no part of the view.
    pub fn reset_with_capacity(&mut self, min: usize)
        ensures
            final(self)@ == Seq::<u8>::empty(),
    {
        self.inner.clear();
        let cap: usize = vec_capacity(&self.inner);
        if cap < min {
            let twice: usize = times_capped(cap, 2);
            let target: usize = if twice > min {
                twice
            } else {
                min
            };
            self.inner.reserve(target);
        }
        assert(self.inner@ =~= Seq::<u8>::empty());
    }

    /// Borrow the underlying vector; what it holds afterwards is what the buffer holds.
    pub fn vec_mut(&mut self) -> (r: &mut Vec<u8>)
        ensures
            r@ == old(self)@,
            final(self)@ == final(r)@,
    {
        &mut self.inner
    }

    pub fn as_slice(&self) -> (r: &[u8])
        ensures
            r@ == self@,
    {
        self.inner.as_slice()
    }

    pub fn len(&self) -> (r: usize)
        ensures
            r == self@.len(),
    {
        self.inner.len()
    }

    pub fn is_empty(&self) -> (r: bool)
        ensures
            r == (self@.len() == 0),
    {
        self.inner.len() == 0
    }

    /// How many bytes the buffer holds without reallocating: at least its length.
    pub fn capacity(&self) -> (r: usize)
        ensures
            r >= self@.len(),
    {
        vec_capacity(&self.inner)
    }
}

} // verus!
