//! File and record headers: at which byte each field stands.

use vstd::prelude::*;
use crate::error::HipoError;
#[allow(unused_imports)]
use crate::laws::bytes::law_u32_at_bytes;
use crate::wire::bytes::Endianness;
#[allow(unused_imports)]
use crate::wire::bytes::{be32_at, lemma_word_bytes_at, u32_at, word32, word64, word_bytes};
use crate::wire::constants::{Codec, CompressionType, HeaderType, Layout};
use crate::wire::file_header::FileHeader;
use crate::wire::record_header::RecordHeader;

verus! {

/// The number in the four bytes from byte `i` on, with its most significant byte first where `big`
/// is set, and last where it is not.
#[verifier::opaque]
pub open spec fn four(s: Seq<u8>, i: int, big: bool) -> int {
    if big {
        s[i] * 0x100_0000 + s[i + 1] * 0x1_0000 + s[i + 2] * 0x100 + s[i + 3]
    } else {
        s[i] + s[i + 1] * 0x100 + s[i + 2] * 0x1_0000 + s[i + 3] * 0x100_0000
    }
}

/// The number in the eight bytes from byte `i` on.
pub open spec fn eight(s: Seq<u8>, i: int, big: bool) -> int {
    if big {
        four(s, i, true) * 0x1_0000_0000 + four(s, i + 4, true)
    } else {
        four(s, i, false) + four(s, i + 4, false) * 0x1_0000_0000
    }
}

/// The four bytes that mark the byte order of a header: most significant first.
pub open spec fn marked_big(s: Seq<u8>) -> bool {
    s[28] == 0xc0 && s[29] == 0xda && s[30] == 0x01 && s[31] == 0x00
}

/// The four bytes that mark the byte order of a header: least significant first.
pub open spec fn marked_little(s: Seq<u8>) -> bool {
    s[28] == 0x00 && s[29] == 0x01 && s[30] == 0xda && s[31] == 0xc0
}

/// A word read in a byte order is the number in its four bytes.
proof fn lemma_word32(s: Seq<u8>, i: int, e: Endianness)
    ensures
        word32(s, i, e) == four(s, i, e == Endianness::Big),
{
    law_u32_at_bytes(s, i);
    reveal(be32_at);
    reveal(four);
}

proof fn lemma_word64(s: Seq<u8>, i: int, e: Endianness)
    ensures
        word64(s, i, e) == eight(s, i, e == Endianness::Big),
{
    law_u32_at_bytes(s, i);
    law_u32_at_bytes(s, i + 4);
    reveal(be32_at);
    reveal(four);
}

/// The marker is one of the two byte orders'.
proof fn lemma_marked(s: Seq<u8>)
    ensures
        (Endianness::of_magic(u32_at(s, 28)) == Some(Endianness::Little)) == marked_little(s),
        (Endianness::of_magic(u32_at(s, 28)) == Some(Endianness::Big)) == marked_big(s),
{
    law_u32_at_bytes(s, 28);
}

/// A length in words, as a length in bytes: four times as many, as far as 32 bits hold it.
pub open spec fn in_bytes(words: int) -> int {
    if words * 4 > u32::MAX {
        u32::MAX as int
    } else {
        words * 4
    }
}

/// [`RecordHeader::parse`] takes each field from its own place: it needs 56 bytes with a byte-order
/// marker at byte 28, a compression number of at most 14 and a header no longer than the record.
#[verifier::rlimit(40)]
#[verifier::spinoff_prover]
pub proof fn law_record_header_is_read(buf: &[u8], r: Result<RecordHeader, HipoError>)
    requires
        call_ensures(RecordHeader::parse, (buf,), r),
    ensures
        ({
            let s = buf@;
            let big = marked_big(s);
            (r is Ok) == (s.len() >= 56 && (marked_big(s) || marked_little(s)) && four(s, 36, big)
                / 0x1000_0000 <= 14 && in_bytes(four(s, 8, big)) <= four(s, 0, big) * 4)
        }),
        buf@.len() < 56 ==> (r matches Err(HipoError::FileTooSmall { actual, min }) && min == 56),
        buf@.len() >= 56 && !marked_big(buf@) && !marked_little(buf@) ==> (r matches Err(
            HipoError::BadMagic { offset, found, expected },
        ) && offset == 28),
        r matches Ok(h) ==> {
            let s = buf@;
            let big = marked_big(s);
            &&& h.endianness == if big {
                Endianness::Big
            } else {
                Endianness::Little
            }
            &&& h.record_length == four(s, 0, big) * 4
            &&& h.record_number == four(s, 4, big)
            &&& h.header_length == in_bytes(four(s, 8, big))
            &&& h.event_count == four(s, 12, big)
            &&& h.index_array_length == four(s, 16, big)
            &&& h.bit_info == four(s, 20, big)
            &&& h.user_header_length == four(s, 24, big)
            &&& h.data_length == four(s, 32, big)
            &&& is_tag(h.compression, four(s, 36, big) / 0x1000_0000)
            &&& h.compressed_data_length == in_bytes(four(s, 36, big) % 0x1000_0000)
            &&& h.user_word_1 == eight(s, 40, big)
            &&& h.user_word_2 == eight(s, 48, big)
            &&& h.user_header_padding == four(s, 20, big) / 0x10_0000 % 4
            &&& h.data_padding == four(s, 20, big) / 0x40_0000 % 4
            &&& h.compressed_data_padding == four(s, 20, big) / 0x100_0000 % 4
        },
{
    let s = buf@;
    lemma_marked(s);
    assert forall|i: int, e: Endianness| #[trigger] word32(s, i, e) == four(
        s,
        i,
        e == Endianness::Big,
    ) by {
        lemma_word32(s, i, e);
    }
    assert forall|i: int, e: Endianness| #[trigger] word64(s, i, e) == eight(
        s,
        i,
        e == Endianness::Big,
    ) by {
        lemma_word64(s, i, e);
    }
}

/// Byte `4 * k + b` of a sequence of words.
proof fn lemma_word_bytes_are(words: Seq<u32>, k: int)
    requires
        0 <= k < words.len(),
    ensures
        four(word_bytes(words), 4 * k, false) == words[k],
{
    lemma_word_bytes_at(words, k);
    law_u32_at_bytes(word_bytes(words), 4 * k);
    reveal(four);
}

/// The bytes of the markers.
proof fn lemma_marks(s: Seq<u8>)
    ensures
        four(s, 28, false) == 0xc0da_0100 ==> marked_little(s),
        four(s, 0, false) == 0x4f50_4948 ==> s[0] == 0x48 && s[1] == 0x49 && s[2] == 0x50 && s[3]
            == 0x4f,
{
    reveal(four);
}

/// [`RecordHeader::to_bytes`] puts each field in its own place, least significant byte first.
#[verifier::rlimit(40)]
#[verifier::spinoff_prover]
pub proof fn law_record_header_is_written(h: RecordHeader, out: Vec<u8>)
    requires
        call_ensures(RecordHeader::to_bytes, (&h,), out),
    ensures
        ({
            let s = out@;
            &&& s.len() == 56
            &&& marked_little(s)
            &&& four(s, 0, false) == h.record_length as int / 4 % 0x1_0000_0000
            &&& four(s, 4, false) == h.record_number
            &&& four(s, 8, false) == h.header_length as int / 4
            &&& four(s, 12, false) == h.event_count
            &&& four(s, 16, false) == h.index_array_length
            &&& four(s, 20, false) == h.bit_info
            &&& four(s, 24, false) == h.user_header_length
            &&& four(s, 32, false) == h.data_length
            &&& is_tag(h.compression, four(s, 36, false) / 0x1000_0000)
            &&& four(s, 36, false) % 0x1000_0000 == h.compressed_data_length as int / 4
                % 0x1000_0000
            &&& eight(s, 40, false) == h.user_word_1
            &&& eight(s, 48, false) == h.user_word_2
        }),
{
    let w = h.words();
    let s = out@;
    assert forall|k: int| 0 <= k < 14 implies four(s, 4 * k, false) == #[trigger] w[k] by {
        lemma_word_bytes_are(w, k);
    }
    assert(w[0] == h.record_length as int / 4 % 0x1_0000_0000 && w[1] == h.record_number);
    assert(w[2] == h.header_length as int / 4 && w[3] == h.event_count);
    assert(w[4] == h.index_array_length && w[5] == h.bit_info && w[6] == h.user_header_length);
    assert(w[7] == 0xc0da_0100 && w[8] == h.data_length && w[9] == h.comp_word());
    assert(four(s, 28, false) == 0xc0da_0100);
    lemma_marks(s);
    assert(w[10] == h.user_word_1 % 0x1_0000_0000 && w[11] == h.user_word_1 / 0x1_0000_0000);
    assert(w[12] == h.user_word_2 % 0x1_0000_0000 && w[13] == h.user_word_2 / 0x1_0000_0000);
}

/// [`FileHeader::parse`] takes each field from its own place: it needs 56 bytes that begin with the
/// letters `HIPO`, with a byte-order marker at byte 28 and a version from 1 to 6.
#[verifier::rlimit(40)]
#[verifier::spinoff_prover]
pub proof fn law_file_header_is_read(buf: &[u8], r: Result<FileHeader, HipoError>)
    requires
        call_ensures(FileHeader::parse, (buf,), r),
    ensures
        ({
            let s = buf@;
            let big = marked_big(s);
            (r is Ok) == (s.len() >= 56 && s[0] == 0x48 && s[1] == 0x49 && s[2] == 0x50 && s[3]
                == 0x4f && (marked_big(s) || marked_little(s)) && 1 <= four(s, 20, big) % 0x100
                <= 6)
        }),
        r matches Ok(h) ==> {
            let s = buf@;
            let big = marked_big(s);
            &&& h.endianness == if big {
                Endianness::Big
            } else {
                Endianness::Little
            }
            &&& h.file_number == four(s, 4, big)
            &&& h.header_length == in_bytes(four(s, 8, big))
            &&& h.record_count == four(s, 12, big)
            &&& h.index_array_length == four(s, 16, big)
            &&& h.bit_info == four(s, 20, big)
            &&& h.user_header_length == four(s, 24, big)
            &&& h.user_register == eight(s, 32, big)
            &&& h.trailer_position == eight(s, 40, big)
            &&& h.user_int1 == four(s, 48, big)
            &&& h.user_int2 == four(s, 52, big)
        },
{
    let s = buf@;
    lemma_marked(s);
    law_u32_at_bytes(s, 0);
    assert forall|i: int, e: Endianness| #[trigger] word32(s, i, e) == four(
        s,
        i,
        e == Endianness::Big,
    ) by {
        lemma_word32(s, i, e);
    }
    assert forall|i: int, e: Endianness| #[trigger] word64(s, i, e) == eight(
        s,
        i,
        e == Endianness::Big,
    ) by {
        lemma_word64(s, i, e);
    }
}

/// [`FileHeader::to_bytes`] puts each field in its own place, least significant byte first.
#[verifier::rlimit(40)]
#[verifier::spinoff_prover]
pub proof fn law_file_header_is_written(h: FileHeader, out: Vec<u8>)
    requires
        call_ensures(FileHeader::to_bytes, (&h,), out),
    ensures
        ({
            let s = out@;
            &&& s.len() == 56
            &&& s[0] == 0x48 && s[1] == 0x49 && s[2] == 0x50 && s[3] == 0x4f
            &&& marked_little(s)
            &&& four(s, 4, false) == h.file_number
            &&& four(s, 8, false) == h.header_length as int / 4
            &&& four(s, 12, false) == h.record_count
            &&& four(s, 16, false) == h.index_array_length
            &&& four(s, 20, false) == h.bit_info
            &&& four(s, 24, false) == h.user_header_length
            &&& eight(s, 32, false) == h.user_register
            &&& eight(s, 40, false) == h.trailer_position
            &&& four(s, 48, false) == h.user_int1
            &&& four(s, 52, false) == h.user_int2
        }),
{
    let w = h.words();
    let s = out@;
    assert forall|k: int| 0 <= k < 14 implies four(s, 4 * k, false) == #[trigger] w[k] by {
        lemma_word_bytes_are(w, k);
    }
    assert(w[0] == 0x4f50_4948 && w[1] == h.file_number && w[2] == h.header_length as int / 4);
    assert(four(s, 0, false) == 0x4f50_4948 && w[7] == 0xc0da_0100);
    assert(four(s, 28, false) == 0xc0da_0100);
    lemma_marks(s);
    assert(w[3] == h.record_count && w[4] == h.index_array_length && w[5] == h.bit_info);
    assert(w[6] == h.user_header_length);
    assert(w[8] == h.user_register % 0x1_0000_0000 && w[9] == h.user_register / 0x1_0000_0000);
    assert(w[10] == h.trailer_position % 0x1_0000_0000);
    assert(w[11] == h.trailer_position / 0x1_0000_0000);
    assert(w[12] == h.user_int1 && w[13] == h.user_int2);
}

/// The bits of a bit-info word: the version in the low eight, then the dictionary, the first event
/// and the trailer, and the kind of header in the top four.
pub proof fn law_bit_info(
    h: RecordHeader,
    f: FileHeader,
    version: u32,
    dictionary: bool,
    first: bool,
    file_version: u32,
    file_dictionary: bool,
    trailer: bool,
)
    requires
        call_ensures(RecordHeader::version, (&h,), version),
        call_ensures(RecordHeader::has_dictionary, (&h,), dictionary),
        call_ensures(RecordHeader::has_first_event, (&h,), first),
        call_ensures(FileHeader::version, (&f,), file_version),
        call_ensures(FileHeader::has_dictionary, (&f,), file_dictionary),
        call_ensures(FileHeader::has_trailer_with_index, (&f,), trailer),
    ensures
        version == h.bit_info as int % 0x100,
        dictionary == (h.bit_info as int / 0x100 % 2 == 1),
        first == (h.bit_info as int / 0x200 % 2 == 1),
        file_version == f.bit_info as int % 0x100,
        file_dictionary == (f.bit_info as int / 0x100 % 2 == 1),
        trailer == (f.bit_info as int / 0x400 % 2 == 1),
{
}

/// The lengths that a record header gives: the whole record, what follows the header, and the
/// payload once decompressed.
pub proof fn law_record_lengths(h: RecordHeader, total: u64, payload: u64, size: usize)
    requires
        call_ensures(RecordHeader::total_bytes, (&h,), total),
        call_ensures(RecordHeader::payload_bytes, (&h,), payload),
        call_ensures(RecordHeader::decompressed_payload_size, (&h,), size),
    ensures
        total == h.record_length,
        payload == h.record_length - h.header_length,
        size == h.index_array_length + h.user_header_length + h.user_header_padding
            + h.data_length,
{
}

/// `c` is the compression with the number `n`.
pub open spec fn is_tag(c: CompressionType, n: int) -> bool {
    match c {
        CompressionType::Uncompressed => n == 0,
        CompressionType::Lz4 => n == 1,
        CompressionType::Lz4Best => n == 2,
        CompressionType::Gzip => n == 3,
        CompressionType::ZstdPerChunk => n == 4,
        CompressionType::ZstdPerBank => n == 5,
        CompressionType::Lz4PerBank => n == 6,
        CompressionType::Lz4PerColumn => n == 7,
        CompressionType::ZstdPerColumn => n == 8,
        CompressionType::Lz4FastPerBank => n == 9,
        CompressionType::Lz4FastPerColumn => n == 10,
        CompressionType::GzipPerBank => n == 11,
        CompressionType::GzipPerColumn => n == 12,
        CompressionType::NonePerBank => n == 13,
        CompressionType::NonePerColumn => n == 14,
    }
}

/// The compression with a codec and a layout.
pub open spec fn is_pair(c: CompressionType, codec: Codec, layout: Layout) -> bool {
    match (codec, layout) {
        (Codec::Uncompressed, Layout::PerChunk) => c == CompressionType::Uncompressed,
        (Codec::Uncompressed, Layout::PerBank) => c == CompressionType::NonePerBank,
        (Codec::Uncompressed, Layout::PerColumn) => c == CompressionType::NonePerColumn,
        (Codec::Lz4, Layout::PerChunk) => c == CompressionType::Lz4,
        (Codec::Lz4, Layout::PerBank) => c == CompressionType::Lz4FastPerBank,
        (Codec::Lz4, Layout::PerColumn) => c == CompressionType::Lz4FastPerColumn,
        (Codec::Lz4Hc, Layout::PerChunk) => c == CompressionType::Lz4Best,
        (Codec::Lz4Hc, Layout::PerBank) => c == CompressionType::Lz4PerBank,
        (Codec::Lz4Hc, Layout::PerColumn) => c == CompressionType::Lz4PerColumn,
        (Codec::Gzip, Layout::PerChunk) => c == CompressionType::Gzip,
        (Codec::Gzip, Layout::PerBank) => c == CompressionType::GzipPerBank,
        (Codec::Gzip, Layout::PerColumn) => c == CompressionType::GzipPerColumn,
        (Codec::Zstd, Layout::PerChunk) => c == CompressionType::ZstdPerChunk,
        (Codec::Zstd, Layout::PerBank) => c == CompressionType::ZstdPerBank,
        (Codec::Zstd, Layout::PerColumn) => c == CompressionType::ZstdPerColumn,
    }
}

/// A number stands for a compression where it is at most 14, and then for one; the compression's
/// tag is that number, and its codec and its layout are those of its name.
pub proof fn law_compression_tags(
    tag: u8,
    r: Option<CompressionType>,
    c: CompressionType,
    t: u8,
    codec: Codec,
    layout: Layout,
)
    requires
        call_ensures(CompressionType::from_tag, (tag,), r),
        call_ensures(CompressionType::tag, (c,), t),
        call_ensures(CompressionType::codec, (c,), codec),
        call_ensures(CompressionType::layout, (c,), layout),
    ensures
        (r is Some) == (tag <= 14),
        r matches Some(x) ==> is_tag(x, tag as int),
        is_tag(c, t as int),
        is_pair(c, codec, layout),
{
}

/// The compression of a codec and a layout, and the tests for the layouts.
pub proof fn law_compression_pairs(
    codec: Codec,
    layout: Layout,
    c: CompressionType,
    by_bank: bool,
    per_column: bool,
    word: u32,
    r: Option<CompressionType>,
)
    requires
        call_ensures(CompressionType::for_pair, (codec, layout), c),
        call_ensures(CompressionType::is_by_bank, (c,), by_bank),
        call_ensures(CompressionType::is_per_column, (c,), per_column),
        call_ensures(CompressionType::from_word, (word,), r),
    ensures
        is_pair(c, codec, layout),
        by_bank == (layout == Layout::PerBank),
        per_column == (layout == Layout::PerColumn),
        (r is Some) == (word as int / 0x1000_0000 <= 14),
        r matches Some(x) ==> is_tag(x, word as int / 0x1000_0000),
{
}

/// The kind of header that the top four bits of a bit-info word announce: 0 to 2 for EVIO, 4 to 7
/// for HIPO, and no other number for any.
pub proof fn law_header_kinds(bits: u32, r: Option<HeaderType>)
    requires
        call_ensures(HeaderType::from_bit_info, (bits,), r),
    ensures
        ({
            let kind = bits as int / 0x1000_0000;
            match r {
                Some(HeaderType::EvioRecord) => kind == 0,
                Some(HeaderType::EvioFile) => kind == 1,
                Some(HeaderType::EvioExtFile) => kind == 2,
                Some(HeaderType::HipoRecord) => kind == 4,
                Some(HeaderType::HipoFile) => kind == 5,
                Some(HeaderType::HipoExtFile) => kind == 6,
                Some(HeaderType::HipoTrailer) => kind == 7,
                None => kind == 3 || kind > 7,
            }
        }),
{
    if r is None {
        assert(HeaderType::EvioRecord.number() != bits / 0x1000_0000);
        assert(HeaderType::EvioFile.number() != bits / 0x1000_0000);
        assert(HeaderType::EvioExtFile.number() != bits / 0x1000_0000);
        assert(HeaderType::HipoRecord.number() != bits / 0x1000_0000);
        assert(HeaderType::HipoFile.number() != bits / 0x1000_0000);
        assert(HeaderType::HipoExtFile.number() != bits / 0x1000_0000);
        assert(HeaderType::HipoTrailer.number() != bits / 0x1000_0000);
    }
}

} // verus!
