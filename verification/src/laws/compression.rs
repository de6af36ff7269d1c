//! Compression: what is refused, and what comes back.

use vstd::prelude::*;
use crate::compress::{check_produced, compress, decompress, inflate_stream};
#[allow(unused_imports)]
use crate::compress::{decompressed, law_compression_round_trip, law_stream_round_trip};
use crate::error::HipoError;
use crate::wire::constants::CompressionType;

verus! {

/// As many bytes as are expected are enough, and up to `slack` fewer; with fewer still the error
/// says how many there are and how many are expected.
pub proof fn law_produced_is_checked(
    produced: usize,
    expected: usize,
    slack: usize,
    r: Result<(), HipoError>,
)
    requires
        call_ensures(check_produced, (produced, expected, slack), r),
    ensures
        (r is Ok) == (expected - produced <= slack),
        r matches Err(e) ==> e == (HipoError::DecompressUnderflow { produced, expected }),
{
}

/// An uncompressed payload is the first bytes of its input, as many as are expected; it is refused
/// where the input has fewer. A compressed one is refused where it would be more than 1056 times as
/// long as its input and 65,536 bytes more. Zstandard is refused.
pub proof fn law_payload_is_decompressed<'b>(
    kind: CompressionType,
    src: &[u8],
    dst: &'b mut Vec<u8>,
    expected: usize,
    r: Result<(), HipoError>,
)
    requires
        call_ensures(decompress, (kind, src, dst, expected), r),
        src@.len() * 1056 + 65536 <= usize::MAX,
    ensures
        kind == CompressionType::Uncompressed || kind == CompressionType::NonePerBank || kind
            == CompressionType::NonePerColumn ==> {
            &&& (r is Ok) == (expected <= src@.len())
            &&& r is Ok ==> final(dst)@ == src@.subrange(0, expected as int)
        },
        expected > src@.len() * 1056 + 65536 ==> r is Err,
        kind == CompressionType::ZstdPerChunk || kind == CompressionType::ZstdPerBank || kind
            == CompressionType::ZstdPerColumn ==> r is Err,
        r is Err ==> final(dst)@.len() == 0,
{
}

/// What was compressed stands behind what was there before, and, taken by itself, is decompressed
/// to the very bytes that went in, as a payload and as a stream.
pub proof fn law_what_is_compressed_comes_back<'a, 'b>(
    kind: CompressionType,
    src: &[u8],
    dst: &'a mut Vec<u8>,
    n: usize,
    packed: &[u8],
    out: &'b mut Vec<u8>,
    d: Result<(), HipoError>,
    s: Result<Vec<u8>, HipoError>,
)
    requires
        call_ensures(compress, (kind, src, dst), Ok::<usize, HipoError>(n)),
        packed@ == final(dst)@.subrange(old(dst)@.len() as int, final(dst)@.len() as int),
        call_ensures(decompress, (kind, packed, out, src@.len() as usize), d),
        call_ensures(inflate_stream, (kind, packed, src@.len() as usize), s),
        src@.len() <= usize::MAX,
    ensures
        final(dst)@.len() == old(dst)@.len() + n,
        final(dst)@.subrange(0, old(dst)@.len() as int) == old(dst)@,
        d is Ok && final(out)@ == src@,
        s matches Ok(v) && v@ == src@,
{
    law_compression_round_trip(kind.spec_codec(), packed@, src@);
    law_stream_round_trip(kind.spec_codec(), packed@, src@);
    assert(final(dst)@.subrange(0, old(dst)@.len() as int) =~= old(dst)@);
}

} // verus!
