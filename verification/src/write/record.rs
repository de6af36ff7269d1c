//! Building records.
//!
//! Most callers leave this to the writer. A single-block record is one compressed block of
//! index array and data; the split layouts compress a directory and one stream per bank, or
//! per column.

use vstd::prelude::*;
use crate::compress::compress;
#[allow(unused_imports)]
use crate::compress::{encodes, lz4_bound};
use crate::error::{HipoError, Result};
#[allow(unused_imports)]
use crate::seqs::{concat, runs_of};
use crate::wire::bytes::{push_bytes, push_u16_le, push_u32_le, push_zeros, Endianness};
#[allow(unused_imports)]
use crate::wire::bytes::{le16, le32};
#[allow(unused_imports)]
use crate::wire::constants::Codec;
use crate::wire::constants::{CompressionType, EXT_FORMAT_VERSION_BY_BANK, HIPO_VERSION};
use crate::wire::record_header::RecordHeader;
use crate::wire::tables::push_u32_table;
#[allow(unused_imports)]
use crate::wire::tables::{
    lemma_presence_index, lemma_set_bit, lemma_zero_bits, present, row_bytes, u32s_bytes,
};
use crate::write::gather::{event_tags, gather, BankTable};
#[allow(unused_imports)]
use crate::write::gather::{bytes_of, gathered, pieces_of, tables, tags_of, TableView};

verus! {

/// Compression mode of the records that a writer makes.
///
/// Files written with `Lz4PerBank` or `Lz4PerColumn` are not readable by the C++ reader.
#[derive(Debug, Clone, Copy, PartialEq, Eq, Structural)]
pub enum Compression {
    Uncompressed,
    Lz4,
    Lz4Best,
    Gzip,
    /// Each bank type is a stream of its own, so that readers decompress only the banks they
    /// touch.
    Lz4PerBank,
    /// Each column of each bank is a stream of its own. Banks without a schema and composite
    /// banks are one stream each.
    Lz4PerColumn,
}

impl Compression {
    /// The compression of the records.
    pub open spec fn kind(self) -> CompressionType {
        match self {
            Compression::Uncompressed => CompressionType::Uncompressed,
            Compression::Lz4 => CompressionType::Lz4,
            Compression::Lz4Best => CompressionType::Lz4Best,
            Compression::Gzip => CompressionType::Gzip,
            Compression::Lz4PerBank => CompressionType::Lz4PerBank,
            Compression::Lz4PerColumn => CompressionType::Lz4PerColumn,
        }
    }

    /// The compression tag of the record header.
    pub fn wire_tag(self) -> (r: CompressionType)
        ensures
            r == self.kind(),
    {
        match self {
            Compression::Uncompressed => CompressionType::Uncompressed,
            Compression::Lz4 => CompressionType::Lz4,
            Compression::Lz4Best => CompressionType::Lz4Best,
            Compression::Gzip => CompressionType::Gzip,
            Compression::Lz4PerBank => CompressionType::Lz4PerBank,
            Compression::Lz4PerColumn => CompressionType::Lz4PerColumn,
        }
    }
}

/// The most payload bytes that a record header can tell of: a 28-bit count of words.
pub const MAX_BODY: usize = 0x3fff_fffc;

/// Bytes that bring `n` to a multiple of four.
pub open spec fn pad_of(n: nat) -> nat {
    ((4 - n % 4) % 4) as nat
}

/// `n` zero bytes.
pub open spec fn zeros(n: nat) -> Seq<u8> {
    Seq::new(n, |i: int| 0u8)
}

/// What goes into a record header besides the payload: the record's position in the output,
/// starting at one, and the two words that belong to the user.
#[derive(Debug, Clone, Copy)]
pub struct RecordIdent {
    pub record_number: u32,
    pub user_word_1: u64,
    pub user_word_2: u64,
}

/// The header of a record of `count` events whose payload has `body` bytes, `data` of them data
/// once decompressed.
pub open spec fn header_of(
    kind: CompressionType,
    count: nat,
    data: nat,
    body: nat,
    id: RecordIdent,
) -> RecordHeader {
    RecordHeader {
        record_length: (56 + body + pad_of(body)) as u64,
        record_number: id.record_number,
        header_length: 56,
        event_count: count as u32,
        index_array_length: (4 * count) as u32,
        bit_info: (HIPO_VERSION + pad_of(body) * 0x100_0000 + 0x4000_0000) as u32,
        user_header_length: 0,
        data_length: data as u32,
        compressed_data_length: (body + pad_of(body)) as u32,
        compression: kind,
        user_word_1: id.user_word_1,
        user_word_2: id.user_word_2,
        endianness: Endianness::Little,
        user_header_padding: 0,
        data_padding: 0,
        compressed_data_padding: pad_of(body) as u8,
    }
}

/// A whole record: header, payload, and padding to a multiple of four.
pub open spec fn framed(h: RecordHeader, body: Seq<u8>) -> Seq<u8> {
    h.encoded() + body + zeros(pad_of(body.len()))
}

/// Every header that is written can be read back.
pub proof fn lemma_header_writable(
    kind: CompressionType,
    count: nat,
    data: nat,
    body: nat,
    id: RecordIdent,
)
    requires
        body <= MAX_BODY,
        4 * count <= u32::MAX,
        data <= u32::MAX,
    ensures
        header_of(kind, count, data, body, id).writable(),
        header_of(kind, count, data, body, id).record_length == 56 + body + pad_of(body),
        header_of(kind, count, data, body, id).compressed_data_padding == pad_of(body),
        (body + pad_of(body)) % 4 == 0,
{
    let pad = pad_of(body);
    assert(pad < 4);
    assert((body + pad) % 4 == 0);
    let bits = (HIPO_VERSION + pad * 0x100_0000 + 0x4000_0000) as u32;
    assert(bits == 6 + pad * 0x100_0000 + 0x4000_0000);
}

/// Put a header in front of a payload, and pad it.
fn frame(
    kind: CompressionType,
    count: usize,
    data: usize,
    body: &[u8],
    id: RecordIdent,
) -> (out: Vec<u8>)
    requires
        body.len() <= MAX_BODY,
        4 * count <= u32::MAX,
        data <= u32::MAX,
    ensures
        out@ == framed(
            header_of(kind, count as nat, data as nat, body.len() as nat, id),
            body@,
        ),
{
    let pad: usize = (4 - body.len() % 4) % 4;
    let header = RecordHeader {
        record_length: 56 + body.len() as u64 + pad as u64,
        record_number: id.record_number,
        header_length: 56,
        event_count: count as u32,
        index_array_length: 4 * count as u32,
        bit_info: HIPO_VERSION + pad as u32 * 0x100_0000 + 0x4000_0000,
        user_header_length: 0,
        data_length: data as u32,
        compressed_data_length: (body.len() + pad) as u32,
        compression: kind,
        user_word_1: id.user_word_1,
        user_word_2: id.user_word_2,
        endianness: Endianness::Little,
        user_header_padding: 0,
        data_padding: 0,
        compressed_data_padding: pad as u8,
    };
    assert(header == header_of(kind, count as nat, data as nat, body.len() as nat, id));
    let mut out = header.to_bytes();
    push_bytes(&mut out, body);
    push_zeros(&mut out, pad);
    assert(out@ =~= framed(header, body@));
    out
}

/// `n` bytes can be handed to the encoder.
pub open spec fn packable(n: nat) -> bool {
    n * 110 <= u64::MAX && lz4_bound(n) <= usize::MAX
}

/// Whether `n` bytes can be handed to the encoder.
fn check_packable(n: usize) -> (r: bool)
    ensures
        r == packable(n as nat),
{
    let b: u128 = 20 + (n as u128) * 110 / 100;
    (n as u128) * 110 <= u64::MAX as u128 && b <= usize::MAX as u128
}

/// `packed` is an LZ4 block for `src`; nothing at all where `src` is empty.
pub open spec fn packs(packed: Seq<u8>, src: Seq<u8>) -> bool {
    if src.len() == 0 {
        packed.len() == 0
    } else {
        encodes(Codec::Lz4, packed, src)
    }
}

/// Compress one stream.
fn pack(src: &[u8]) -> (r: Result<Vec<u8>>)
    ensures
        match r {
            Ok(v) => packs(v@, src@) && v.len() <= lz4_bound(src.len() as nat),
            Err(e) => e is Compression && !packable(src.len() as nat),
        },
{
    let mut out: Vec<u8> = Vec::new();
    if src.len() == 0 {
        return Ok(out);
    }
    if !check_packable(src.len()) {
        return Err(HipoError::Compression("stream too large to compress"));
    }
    compress(CompressionType::Lz4Best, src, &mut out)?;
    assert(out@.subrange(0, out.len() as int) =~= out@);
    Ok(out)
}

/// The bounds of the LZ4 blocks of some streams, added up.
pub open spec fn bounds(streams: Seq<Seq<u8>>) -> nat
    decreases streams.len(),
{
    if streams.len() == 0 {
        0
    } else {
        bounds(streams.drop_last()) + lz4_bound(streams.last().len())
    }
}

/// The lengths of some streams, added up.
pub open spec fn lengths(streams: Seq<Seq<u8>>) -> nat
    decreases streams.len(),
{
    if streams.len() == 0 {
        0
    } else {
        lengths(streams.drop_last()) + streams.last().len()
    }
}

/// `lengths` is the length of the streams laid end to end.
pub proof fn lemma_lengths(streams: Seq<Seq<u8>>)
    ensures
        concat(streams).len() == lengths(streams),
    decreases streams.len(),
{
    if streams.len() > 0 {
        lemma_lengths(streams.drop_last());
    }
}

/// No stream is longer than all bounds together.
proof fn lemma_bounds(streams: Seq<Seq<u8>>, k: int)
    requires
        0 <= k < streams.len(),
    ensures
        lz4_bound(streams[k].len()) <= bounds(streams),
    decreases streams.len(),
{
    if k < streams.len() - 1 {
        lemma_bounds(streams.drop_last(), k);
    }
}

/// Each block is one for the stream with its number.
pub open spec fn packs_all(packed: Seq<Seq<u8>>, streams: Seq<Seq<u8>>) -> bool {
    &&& packed.len() == streams.len()
    &&& forall|k: int| 0 <= k < streams.len() ==> packs(#[trigger] packed[k], streams[k])
}

/// Compress each stream.
pub(crate) fn pack_all(streams: &[Vec<u8>]) -> (r: Result<Vec<Vec<u8>>>)
    ensures
        match r {
            Ok(v) => packs_all(runs_of(v@), runs_of(streams@)) && lengths(runs_of(v@)) <= bounds(
                runs_of(streams@),
            ),
            Err(e) => e is Compression && bounds(runs_of(streams@)) > MAX_BODY,
        },
{
    let ghost all = runs_of(streams@);
    let mut out: Vec<Vec<u8>> = Vec::new();
    let mut k: usize = 0;
    assert(all.subrange(0, 0) =~= Seq::<Seq<u8>>::empty());
    assert(runs_of(out@) =~= Seq::<Seq<u8>>::empty());
    while k < streams.len()
        invariant
            k <= streams.len(),
            all == runs_of(streams@),
            out.len() == k,
            packs_all(runs_of(out@), all.subrange(0, k as int)),
            lengths(runs_of(out@)) <= bounds(all.subrange(0, k as int)),
        decreases streams.len() - k,
    {
        let ghost before = runs_of(out@);
        match pack(streams[k].as_slice()) {
            Ok(v) => {
                out.push(v);
                proof {
                    let now = runs_of(out@);
                    assert(now =~= before.push(v@));
                    assert(now.drop_last() =~= before);
                    assert(all.subrange(0, k + 1).drop_last() =~= all.subrange(0, k as int));
                    assert forall|i: int| 0 <= i < now.len() implies packs(
                        #[trigger] now[i],
                        all.subrange(0, k + 1)[i],
                    ) by {
                        if i < k {
                            assert(packs(before[i], all.subrange(0, k as int)[i]));
                        }
                    }
                }
            },
            Err(e) => {
                proof {
                    lemma_bounds(all, k as int);
                    lemma_packable(streams@[k as int].len() as nat);
                }
                return Err(e);
            },
        }
        k = k + 1;
    }
    assert(all.subrange(0, k as int) =~= all);
    Ok(out)
}

/// What cannot be handed to the encoder does not fit a record.
proof fn lemma_packable(n: nat)
    requires
        !packable(n),
    ensures
        lz4_bound(n) > MAX_BODY,
{
}

/// The payload of a single-block record: the index array, then the events.
pub open spec fn payload_of(events: Seq<Seq<u8>>) -> Seq<u8> {
    u32s_bytes(lens_of(events)) + concat(events)
}

/// The lengths of events.
pub open spec fn lens_of(events: Seq<Seq<u8>>) -> Seq<u32> {
    events.map_values(|e: Seq<u8>| e.len() as u32)
}

/// The payload may be too large for a record: it is so itself, the encoder cannot take it, or some
/// encoding of it is too long. An LZ4 block is never longer than its bound.
pub open spec fn block_overflows(codec: Codec, payload: Seq<u8>) -> bool {
    ||| payload.len() > u32::MAX
    ||| !packable(payload.len())
    ||| exists|p: Seq<u8>| #[trigger]
        encodes(codec, p, payload) && p.len() > MAX_BODY && (codec == Codec::Lz4 || codec
            == Codec::Lz4Hc ==> p.len() <= lz4_bound(payload.len()))
}

/// An uncompressed payload fits a record unless it is longer than one, and so does one whose bound
/// as an LZ4 block is not.
pub proof fn law_payload_fits(codec: Codec, payload: Seq<u8>)
    requires
        block_overflows(codec, payload),
        payload.len() <= u32::MAX,
    ensures
        codec == Codec::Uncompressed ==> payload.len() > MAX_BODY || !packable(payload.len()),
        codec == Codec::Lz4 || codec == Codec::Lz4Hc ==> lz4_bound(payload.len()) > MAX_BODY,
{
    if !packable(payload.len()) {
        lemma_packable(payload.len());
    }
}

/// `out` is a single-block record of these events, with the block `packed`.
pub open spec fn block_written(
    out: Seq<u8>,
    events: Seq<Seq<u8>>,
    kind: CompressionType,
    id: RecordIdent,
    packed: Seq<u8>,
) -> bool {
    &&& payload_of(events).len() <= u32::MAX
    &&& packed.len() <= MAX_BODY
    &&& encodes(kind.spec_codec(), packed, payload_of(events))
    &&& out == framed(
        header_of(kind, events.len(), concat(events).len(), packed.len(), id),
        packed,
    )
}

/// `out` is a single-block record of these events.
pub open spec fn is_block_record(
    out: Seq<u8>,
    events: Seq<Seq<u8>>,
    kind: CompressionType,
    id: RecordIdent,
) -> bool {
    exists|packed: Seq<u8>| #[trigger] block_written(out, events, kind, id, packed)
}

/// Lay events end to end.
fn join(out: &mut Vec<u8>, runs: &[Vec<u8>])
    ensures
        final(out)@ == old(out)@ + concat(runs_of(runs@)),
{
    let ghost all = runs_of(runs@);
    let mut k: usize = 0;
    assert(all.subrange(0, 0) =~= Seq::<Seq<u8>>::empty());
    assert(out@ =~= old(out)@ + concat(all.subrange(0, 0)));
    while k < runs.len()
        invariant
            k <= runs.len(),
            all == runs_of(runs@),
            out@ == old(out)@ + concat(all.subrange(0, k as int)),
        decreases runs.len() - k,
    {
        proof {
            crate::seqs::lemma_concat_step(all, k as int);
        }
        push_bytes(out, runs[k].as_slice());
        k = k + 1;
        assert(out@ =~= old(out)@ + concat(all.subrange(0, k as int)));
    }
    assert(all.subrange(0, k as int) =~= all);
}

/// Build a single-block record.
pub(crate) fn build_single_block_record_bytes(
    events: &[Vec<u8>],
    kind: CompressionType,
    id: RecordIdent,
) -> (r: Result<Vec<u8>>)
    requires
        kind.spec_codec() != Codec::Zstd,
    ensures
        match r {
            Ok(out) => is_block_record(out@, bytes_of(events@), kind, id),
            Err(e) => e is Compression && block_overflows(
                kind.spec_codec(),
                payload_of(bytes_of(events@)),
            ),
        },
{
    let ghost evs = bytes_of(events@);
    assert(evs =~= runs_of(events@));
    let mut lens: Vec<u32> = Vec::new();
    let mut e: usize = 0;
    while e < events.len()
        invariant
            e <= events.len(),
            lens.len() == e,
            forall|k: int| 0 <= k < e ==> lens@[k] == events@[k].len() as u32,
        decreases events.len() - e,
    {
        let n: u32 = events[e].len() as u32;
        lens.push(n);
        e = e + 1;
    }
    assert(lens@ =~= lens_of(evs));
    let mut payload: Vec<u8> = Vec::new();
    push_u32_table(&mut payload, lens.as_slice());
    proof {
        crate::wire::tables::lemma_u32s_bytes_len(lens@);
    }
    let index: usize = payload.len();
    join(&mut payload, events);
    assert(payload@ =~= payload_of(evs));
    if payload.len() as u64 > u32::MAX as u64 || !check_packable(payload.len()) {
        return Err(HipoError::Compression("record does not fit its header"));
    }
    let data: usize = payload.len() - index;
    let mut packed: Vec<u8> = Vec::new();
    compress(kind, payload.as_slice(), &mut packed)?;
    assert(packed@.subrange(0, packed.len() as int) =~= packed@);
    if packed.len() > MAX_BODY {
        assert(encodes(kind.spec_codec(), packed@, payload@));
        return Err(HipoError::Compression("record does not fit its header"));
    }
    let out = frame(kind, events.len(), data, packed.as_slice(), id);
    assert(is_block_record(out@, evs, kind, id)) by {
        assert(block_written(out@, evs, kind, id, packed@));
    }
    Ok(out)
}

/// The section of a split record: a frame, the compressed directory, and the streams.
pub open spec fn split_section(
    version: u8,
    banks: nat,
    events: nat,
    dir_packed: Seq<u8>,
    dir_len: nat,
    packed: Seq<Seq<u8>>,
) -> Seq<u8> {
    seq![version, 0u8, 0u8, 0u8] + le32(banks as u32) + le32(events as u32) + le32(
        dir_packed.len() as u32,
    ) + le32(dir_len as u32) + dir_packed + concat(packed)
}

/// What a split record is made of.
pub struct SplitParts {
    /// The tables of the banks.
    pub tables: Seq<TableView>,
    /// The presence matrix.
    pub presence: Seq<u8>,
    /// The compressed streams.
    pub packed: Seq<Seq<u8>>,
    /// The compressed directory.
    pub dir_packed: Seq<u8>,
}

/// The counts and lengths of a split record fit their fields.
pub open spec fn split_counts_fit(banks: nat, events: nat, data: nat, dir_len: nat) -> bool {
    banks <= u32::MAX && 4 * events <= u32::MAX && data <= u32::MAX && dir_len <= u32::MAX
}

/// `out` is a split record with this directory and these streams.
pub open spec fn split_written(
    out: Seq<u8>,
    version: u8,
    kind: CompressionType,
    banks: nat,
    events: nat,
    data: nat,
    dir: Seq<u8>,
    dir_packed: Seq<u8>,
    packed: Seq<Seq<u8>>,
    id: RecordIdent,
) -> bool {
    let s = split_section(version, banks, events, dir_packed, dir.len(), packed);
    &&& split_counts_fit(banks, events, data, dir.len())
    &&& s.len() <= MAX_BODY
    &&& packs(dir_packed, dir)
    &&& out == framed(header_of(kind, events, data, s.len(), id), s)
}

/// `out` is a split record with this directory and these streams, for some compressed form of
/// the directory.
pub open spec fn is_split_record(
    out: Seq<u8>,
    version: u8,
    kind: CompressionType,
    banks: nat,
    events: nat,
    data: nat,
    dir: Seq<u8>,
    packed: Seq<Seq<u8>>,
    id: RecordIdent,
) -> bool {
    exists|dir_packed: Seq<u8>| #[trigger]
        split_written(out, version, kind, banks, events, data, dir, dir_packed, packed, id)
}

/// Compress the directory and put a split record together.
pub(crate) fn assemble(
    version: u8,
    kind: CompressionType,
    banks: usize,
    events: usize,
    data: usize,
    dir: &[u8],
    packed: &[Vec<u8>],
    id: RecordIdent,
) -> (r: Result<Vec<u8>>)
    ensures
        match r {
            Ok(out) => is_split_record(
                out@,
                version,
                kind,
                banks as nat,
                events as nat,
                data as nat,
                dir@,
                runs_of(packed@),
                id,
            ),
            Err(e) => e is Compression && (!split_counts_fit(
                banks as nat,
                events as nat,
                data as nat,
                dir.len() as nat,
            ) || 20 + lz4_bound(dir.len() as nat) + lengths(runs_of(packed@)) > MAX_BODY),
        },
{
    if banks as u64 > u32::MAX as u64 || events as u64 > (u32::MAX / 4) as u64 || data as u64
        > u32::MAX as u64 || dir.len() as u64 > u32::MAX as u64 {
        return Err(HipoError::Compression("record does not fit its header"));
    }
    let dir_packed = match pack(dir) {
        Ok(v) => v,
        Err(e) => {
            proof {
                lemma_packable(dir.len() as nat);
            }
            return Err(e);
        },
    };
    if dir_packed.len() > MAX_BODY {
        return Err(HipoError::Compression("record does not fit its header"));
    }
    let mut s: Vec<u8> = Vec::new();
    s.push(version);
    s.push(0);
    s.push(0);
    s.push(0);
    push_u32_le(&mut s, banks as u32);
    push_u32_le(&mut s, events as u32);
    push_u32_le(&mut s, dir_packed.len() as u32);
    push_u32_le(&mut s, dir.len() as u32);
    push_bytes(&mut s, dir_packed.as_slice());
    join(&mut s, packed);
    let ghost section = split_section(
        version,
        banks as nat,
        events as nat,
        dir_packed@,
        dir.len() as nat,
        runs_of(packed@),
    );
    assert(s@ =~= section);
    if s.len() > MAX_BODY {
        proof {
            lemma_lengths(runs_of(packed@));
            lemma_section_len(
                version,
                banks as nat,
                events as nat,
                dir_packed@,
                dir.len() as nat,
                runs_of(packed@),
            );
        }
        return Err(HipoError::Compression("record does not fit its header"));
    }
    let out = frame(kind, events, data, s.as_slice(), id);
    assert(is_split_record(
        out@,
        version,
        kind,
        banks as nat,
        events as nat,
        data as nat,
        dir@,
        runs_of(packed@),
        id,
    )) by {
        assert(split_written(
            out@,
            version,
            kind,
            banks as nat,
            events as nat,
            data as nat,
            dir@,
            dir_packed@,
            runs_of(packed@),
            id,
        ));
    }
    Ok(out)
}

/// The length of a section.
pub proof fn lemma_section_len(
    version: u8,
    banks: nat,
    events: nat,
    dir_packed: Seq<u8>,
    dir_len: nat,
    packed: Seq<Seq<u8>>,
)
    ensures
        split_section(version, banks, events, dir_packed, dir_len, packed).len() == 20
            + dir_packed.len() + concat(packed).len(),
{
    crate::wire::bytes::law_le32_round_trip(banks as u32);
    crate::wire::bytes::law_le32_round_trip(events as u32);
    crate::wire::bytes::law_le32_round_trip(dir_packed.len() as u32);
    crate::wire::bytes::law_le32_round_trip(dir_len as u32);
}

/// The presence matrix of these tables: the bits of absent banks, and those past the last bank
/// of a row, are zero.
pub open spec fn is_presence(p: Seq<u8>, ts: Seq<TableView>, events: nat) -> bool {
    &&& p.len() == events * row_bytes(ts.len())
    &&& forall|e: int, b: int|
        0 <= e < events && 0 <= b < 8 * row_bytes(ts.len()) ==> #[trigger] present(
            p,
            ts.len(),
            e,
            b,
        ) == (b < ts.len() && ts[b].present[e])
}

/// The bits of the first tables, and those of one more in the first events, are set.
spec fn presence_upto(p: Seq<u8>, ts: Seq<TableView>, events: nat, n: int, m: int) -> bool {
    &&& p.len() == events * row_bytes(ts.len())
    &&& forall|e: int, b: int|
        0 <= e < events && 0 <= b < 8 * row_bytes(ts.len()) ==> #[trigger] present(
            p,
            ts.len(),
            e,
            b,
        ) == ((b < n || (b == n && e < m)) && ts[b].present[e])
}

/// Setting the bit of bank `n` in event `m` leaves the other bits alone.
proof fn lemma_bit_set(p: Seq<u8>, q: Seq<u8>, ts: Seq<TableView>, events: nat, n: int, m: int)
    requires
        presence_upto(p, ts, events, n, m),
        0 <= n < ts.len(),
        0 <= m < events,
        ({
            let at = m * row_bytes(ts.len()) + n / 8;
            q == (if ts[n].present[m] {
                p.update(at, p[at] | (1u8 << ((n % 8) as u8)))
            } else {
                p
            })
        }),
    ensures
        presence_upto(q, ts, events, n, m + 1),
{
    let w = row_bytes(ts.len());
    let at = m * w + n / 8;
    lemma_presence_index(events, ts.len(), m, n);
    assert forall|e: int, b: int| 0 <= e < events && 0 <= b < 8 * w implies #[trigger] present(
        q,
        ts.len(),
        e,
        b,
    ) == ((b < n || (b == n && e < m + 1)) && ts[b].present[e]) by {
        assert(present(p, ts.len(), e, b) == ((b < n || (b == n && e < m)) && ts[b].present[e]));
        let k = e * w + b / 8;
        assert(0 <= k < events * w) by (nonlinear_arith)
            requires
                0 <= e < events,
                0 <= b / 8 < w,
                k == e * w + b / 8,
        ;
        if k == at {
            assert(e == m && b / 8 == n / 8) by (nonlinear_arith)
                requires
                    e * w + b / 8 == m * w + n / 8,
                    0 <= b / 8 < w,
                    0 <= n / 8 < w,
                    w > 0,
            ;
            if ts[n].present[m] {
                lemma_set_bit(p[at], (n % 8) as u8, (b % 8) as u8);
            }
        }
    }
}

/// Pack the presence matrix.
pub(crate) fn pack_presence(ts: &[BankTable], events: usize) -> (r: Option<Vec<u8>>)
    requires
        forall|b: int| 0 <= b < ts.len() ==> (#[trigger] ts@[b]).present.len() == events,
    ensures
        match r {
            Some(p) => is_presence(p@, tables(ts@), events as nat),
            None => events * row_bytes(ts.len() as nat) > usize::MAX,
        },
{
    let ghost tv = tables(ts@);
    let n: usize = ts.len();
    let w: usize = n / 8 + (if n % 8 == 0 {
        0
    } else {
        1
    });
    assert(w == row_bytes(n as nat));
    let len: usize = match events.checked_mul(w) {
        Some(x) => x,
        None => {
            return None;
        },
    };
    let mut p: Vec<u8> = vec![0u8; len];
    proof {
        assert forall|e: int, b: int| 0 <= e < events && 0 <= b < 8 * w implies !#[trigger] present(
            p@,
            n as nat,
            e,
            b,
        ) by {
            assert(0 <= e * w + b / 8 < len) by (nonlinear_arith)
                requires
                    0 <= e < events,
                    0 <= b / 8 < w,
                    len == events * w,
            ;
            lemma_zero_bits((b % 8) as u8);
        }
        assert(presence_upto(p@, tv, events as nat, 0, 0));
    }
    let mut b: usize = 0;
    while b < n
        invariant
            b <= n,
            n == ts.len(),
            tv == tables(ts@),
            w == row_bytes(n as nat),
            len == events * w,
            p.len() == len,
            forall|k: int| 0 <= k < ts.len() ==> (#[trigger] ts@[k]).present.len() == events,
            presence_upto(p@, tv, events as nat, b as int, 0),
        decreases n - b,
    {
        let mut e: usize = 0;
        let mut row: usize = 0;
        while e < events
            invariant
                e <= events,
                b < n,
                n == ts.len(),
                tv == tables(ts@),
                w == row_bytes(n as nat),
                len == events * w,
                p.len() == len,
                row == e * w,
                ts@[b as int].present.len() == events,
                presence_upto(p@, tv, events as nat, b as int, e as int),
            decreases events - e,
        {
            proof {
                lemma_presence_index(events as nat, n as nat, e as int, b as int);
                assert((e + 1) * w == e * w + w && (e + 1) * w <= events * w) by (nonlinear_arith)
                    requires
                        0 <= e < events,
                        w >= 0,
                ;
            }
            let ghost before = p@;
            if ts[b].present[e] {
                let at: usize = row + b / 8;
                let k: u8 = (b % 8) as u8;
                let byte: u8 = p[at] | (1u8 << k);
                p.set(at, byte);
            }
            proof {
                assert(tv[b as int].present[e as int] == ts@[b as int].present@[e as int]);
                lemma_bit_set(before, p@, tv, events as nat, b as int, e as int);
            }
            row = row + w;
            e = e + 1;
        }
        proof {
            assert(presence_upto(p@, tv, events as nat, b + 1, 0));
        }
        b = b + 1;
    }
    assert(is_presence(p@, tv, events as nat));
    Some(p)
}

/// The bytes of the descriptors of these tables.
pub open spec fn descriptor_bytes(ts: Seq<TableView>) -> Seq<u8>
    decreases ts.len(),
{
    if ts.len() == 0 {
        Seq::empty()
    } else {
        descriptor_bytes(ts.drop_last()) + le16(ts.last().group) + seq![
            ts.last().item,
            ts.last().ty,
        ]
    }
}

/// The bytes of the size tables, bank by bank.
pub open spec fn size_bytes(ts: Seq<TableView>) -> Seq<u8>
    decreases ts.len(),
{
    if ts.len() == 0 {
        Seq::empty()
    } else {
        size_bytes(ts.drop_last()) + u32s_bytes(ts.last().sizes)
    }
}

/// The streams of these tables.
pub open spec fn streams_of(ts: Seq<TableView>) -> Seq<Seq<u8>> {
    ts.map_values(|t: TableView| t.stream)
}

/// The directory of a per-bank record.
pub open spec fn by_bank_dir(p: SplitParts, events: Seq<Seq<u8>>) -> Seq<u8> {
    descriptor_bytes(p.tables) + u32s_bytes(lens_of(p.packed)) + u32s_bytes(
        lens_of(streams_of(p.tables)),
    ) + u32s_bytes(tags_of(events)) + p.presence + size_bytes(p.tables)
}

/// Append descriptors.
pub(crate) fn push_descriptors(out: &mut Vec<u8>, ts: &[BankTable])
    ensures
        final(out)@ == old(out)@ + descriptor_bytes(tables(ts@)),
{
    let ghost tv = tables(ts@);
    let mut b: usize = 0;
    assert(out@ =~= old(out)@ + descriptor_bytes(tv.subrange(0, 0)));
    while b < ts.len()
        invariant
            b <= ts.len(),
            tv == tables(ts@),
            out@ == old(out)@ + descriptor_bytes(tv.subrange(0, b as int)),
        decreases ts.len() - b,
    {
        assert(tv.subrange(0, b + 1).drop_last() =~= tv.subrange(0, b as int));
        push_u16_le(out, ts[b].group);
        out.push(ts[b].item);
        out.push(ts[b].ty);
        b = b + 1;
        assert(out@ =~= old(out)@ + descriptor_bytes(tv.subrange(0, b as int)));
    }
    assert(tv.subrange(0, b as int) =~= tv);
}

/// Append size tables.
pub(crate) fn push_sizes(out: &mut Vec<u8>, ts: &[BankTable])
    ensures
        final(out)@ == old(out)@ + size_bytes(tables(ts@)),
{
    let ghost tv = tables(ts@);
    let mut b: usize = 0;
    assert(out@ =~= old(out)@ + size_bytes(tv.subrange(0, 0)));
    while b < ts.len()
        invariant
            b <= ts.len(),
            tv == tables(ts@),
            out@ == old(out)@ + size_bytes(tv.subrange(0, b as int)),
        decreases ts.len() - b,
    {
        assert(tv.subrange(0, b + 1).drop_last() =~= tv.subrange(0, b as int));
        push_u32_table(out, ts[b].sizes.as_slice());
        b = b + 1;
        assert(out@ =~= old(out)@ + size_bytes(tv.subrange(0, b as int)));
    }
    assert(tv.subrange(0, b as int) =~= tv);
}

/// The lengths of runs, as 32-bit words.
fn run_lens(runs: &[Vec<u8>]) -> (r: Vec<u32>)
    ensures
        r@ == lens_of(runs_of(runs@)),
{
    let mut out: Vec<u32> = Vec::new();
    let mut k: usize = 0;
    while k < runs.len()
        invariant
            k <= runs.len(),
            out.len() == k,
            forall|i: int| 0 <= i < k ==> out@[i] == runs@[i].len() as u32,
        decreases runs.len() - k,
    {
        let n: u32 = runs[k].len() as u32;
        out.push(n);
        k = k + 1;
    }
    assert(out@ =~= lens_of(runs_of(runs@)));
    out
}

/// All bytes of some runs.
pub(crate) fn total_len(runs: &[Vec<u8>]) -> (r: Option<usize>)
    ensures
        match r {
            Some(n) => n == lengths(runs_of(runs@)),
            None => lengths(runs_of(runs@)) > usize::MAX,
        },
{
    let ghost all = runs_of(runs@);
    let mut n: usize = 0;
    let mut k: usize = 0;
    assert(all.subrange(0, 0) =~= Seq::<Seq<u8>>::empty());
    while k < runs.len()
        invariant
            k <= runs.len(),
            all == runs_of(runs@),
            n == lengths(all.subrange(0, k as int)),
        decreases runs.len() - k,
    {
        assert(all.subrange(0, k + 1).drop_last() =~= all.subrange(0, k as int));
        match n.checked_add(runs[k].len()) {
            Some(m) => {
                n = m;
            },
            None => {
                proof {
                    lemma_lengths_monotone(all, (k + 1) as int);
                }
                return None;
            },
        }
        k = k + 1;
    }
    assert(all.subrange(0, k as int) =~= all);
    Some(n)
}

/// The first runs are no longer than all.
proof fn lemma_lengths_monotone(runs: Seq<Seq<u8>>, k: int)
    requires
        0 <= k <= runs.len(),
    ensures
        lengths(runs.subrange(0, k)) <= lengths(runs),
    decreases runs.len(),
{
    if k == runs.len() {
        assert(runs.subrange(0, k) =~= runs);
    } else {
        lemma_lengths_monotone(runs.drop_last(), k);
        assert(runs.drop_last().subrange(0, k) =~= runs.subrange(0, k));
    }
}

/// `out` is a per-bank record of these events, made of these parts.
pub open spec fn by_bank_written(
    out: Seq<u8>,
    events: Seq<Seq<u8>>,
    id: RecordIdent,
    p: SplitParts,
) -> bool {
    &&& gathered(p.tables, pieces_of(events), events.len())
    &&& is_presence(p.presence, p.tables, events.len())
    &&& packs_all(p.packed, streams_of(p.tables))
    &&& split_written(
        out,
        EXT_FORMAT_VERSION_BY_BANK,
        CompressionType::Lz4PerBank,
        p.tables.len(),
        events.len(),
        lengths(streams_of(p.tables)),
        by_bank_dir(p, events),
        p.dir_packed,
        p.packed,
        id,
    )
}

/// `out` is a per-bank record of these events.
pub open spec fn is_by_bank_record(out: Seq<u8>, events: Seq<Seq<u8>>, id: RecordIdent) -> bool {
    exists|p: SplitParts| #[trigger] by_bank_written(out, events, id, p)
}

/// The bytes of a directory of `per_bank` bytes for each bank, and of the size tables of
/// `streams` streams.
pub open spec fn dir_len(per_bank: nat, banks: nat, events: nat, streams: nat) -> nat {
    per_bank * banks + 4 * events + events * row_bytes(banks) + 4 * (banks * events) + 8 * streams
}

/// A per-bank record of these tables surely fits.
pub open spec fn by_bank_fits(ts: Seq<TableView>, events: nat) -> bool {
    let d = dir_len(12, ts.len(), events, 0);
    &&& split_counts_fit(ts.len(), events, lengths(streams_of(ts)), d)
    &&& 20 + lz4_bound(d) + bounds(streams_of(ts)) <= MAX_BODY
}

/// The lengths of the pieces of a directory.
pub proof fn lemma_dir_pieces(ts: Seq<TableView>, events: nat)
    requires
        forall|b: int| 0 <= b < ts.len() ==> (#[trigger] ts[b]).sizes.len() == events,
    ensures
        descriptor_bytes(ts).len() == 4 * ts.len(),
        size_bytes(ts).len() == 4 * (ts.len() * events),
    decreases ts.len(),
{
    if ts.len() > 0 {
        lemma_dir_pieces(ts.drop_last(), events);
        crate::wire::bytes::law_le16_round_trip(ts.last().group);
        crate::wire::tables::lemma_u32s_bytes_len(ts.last().sizes);
        let n = ts.len() - 1;
        assert(4 * ((n + 1) * events) == 4 * (n * events) + 4 * events) by (nonlinear_arith);
    } else {
        assert(4 * (0 * events) == 0) by (nonlinear_arith);
    }
}

/// A per-bank directory is as long as its counts say.
pub proof fn lemma_by_bank_dir_len(p: SplitParts, events: Seq<Seq<u8>>)
    requires
        forall|b: int| 0 <= b < p.tables.len() ==> (#[trigger] p.tables[b]).sizes.len() == events.len(),
        p.presence.len() == events.len() * row_bytes(p.tables.len()),
        p.packed.len() == p.tables.len(),
    ensures
        by_bank_dir(p, events).len() == dir_len(12, p.tables.len(), events.len(), 0),
{
    lemma_dir_pieces(p.tables, events.len());
    crate::wire::tables::lemma_u32s_bytes_len(lens_of(p.packed));
    crate::wire::tables::lemma_u32s_bytes_len(lens_of(streams_of(p.tables)));
    crate::wire::tables::lemma_u32s_bytes_len(tags_of(events));
}

/// The streams of tables, taken out of them.
fn take_streams(ts: &[BankTable]) -> (r: Vec<Vec<u8>>)
    ensures
        runs_of(r@) == streams_of(tables(ts@)),
{
    let mut out: Vec<Vec<u8>> = Vec::new();
    let mut b: usize = 0;
    while b < ts.len()
        invariant
            b <= ts.len(),
            out.len() == b,
            forall|k: int| 0 <= k < b ==> (#[trigger] out@[k])@ == ts@[k].stream@,
        decreases ts.len() - b,
    {
        out.push(vstd::slice::slice_to_vec(ts[b].stream.as_slice()));
        b = b + 1;
    }
    assert(runs_of(out@) =~= streams_of(tables(ts@)));
    out
}

/// Build a per-bank record.
pub(crate) fn build_by_bank_record_bytes(events: &[Vec<u8>], id: RecordIdent) -> (r: Result<Vec<u8>>)
    ensures
        match r {
            Ok(out) => is_by_bank_record(out@, bytes_of(events@), id),
            Err(e) => e is Compression && exists|ts: Seq<TableView>| #[trigger]
                gathered(ts, pieces_of(bytes_of(events@)), events.len() as nat) && !by_bank_fits(
                    ts,
                    events.len() as nat,
                ),
        },
{
    let ghost evs = bytes_of(events@);
    let n: usize = events.len();
    let ts = gather(events);
    let ghost tv = tables(ts@);
    assert forall|b: int| 0 <= b < ts.len() implies (#[trigger] ts@[b]).present.len() == n
        && ts@[b].sizes.len() == n by {
        assert(ts@[b]@ == tv[b]);
    }
    let tags = event_tags(events);
    let streams = take_streams(ts.as_slice());
    let presence = match pack_presence(ts.as_slice(), n) {
        Some(p) => p,
        None => {
            assert(dir_len(12, tv.len(), n as nat, 0) > u32::MAX) by {
                assert(4 * (tv.len() * n as nat) >= 0) by (nonlinear_arith);
            }
            assert(!by_bank_fits(tv, n as nat));
            return Err(HipoError::Compression("record does not fit its header"));
        },
    };
    let packed = match pack_all(streams.as_slice()) {
        Ok(v) => v,
        Err(e) => {
            assert(!by_bank_fits(tv, n as nat));
            return Err(e);
        },
    };
    let data: usize = match total_len(streams.as_slice()) {
        Some(d) => d,
        None => {
            assert(!by_bank_fits(tv, n as nat));
            return Err(HipoError::Compression("record does not fit its header"));
        },
    };
    let mut dir: Vec<u8> = Vec::new();
    push_descriptors(&mut dir, ts.as_slice());
    push_u32_table(&mut dir, run_lens(packed.as_slice()).as_slice());
    push_u32_table(&mut dir, run_lens(streams.as_slice()).as_slice());
    push_u32_table(&mut dir, tags.as_slice());
    push_bytes(&mut dir, presence.as_slice());
    push_sizes(&mut dir, ts.as_slice());
    let ghost p = SplitParts {
        tables: tv,
        presence: presence@,
        packed: runs_of(packed@),
        dir_packed: Seq::empty(),
    };
    proof {
        assert(dir@ =~= by_bank_dir(p, evs));
        assert forall|b: int| 0 <= b < tv.len() implies (#[trigger] tv[b]).sizes.len()
            == evs.len() by {
            assert(ts@[b]@ == tv[b]);
        }
        lemma_by_bank_dir_len(p, evs);
    }
    match assemble(
        EXT_FORMAT_VERSION_BY_BANK,
        CompressionType::Lz4PerBank,
        ts.len(),
        n,
        data,
        dir.as_slice(),
        packed.as_slice(),
        id,
    ) {
        Ok(out) => {
            proof {
                let dp = choose|dp: Seq<u8>| #[trigger]
                    split_written(
                        out@,
                        EXT_FORMAT_VERSION_BY_BANK,
                        CompressionType::Lz4PerBank,
                        ts.len() as nat,
                        n as nat,
                        data as nat,
                        dir@,
                        dp,
                        runs_of(packed@),
                        id,
                    );
                let q = SplitParts { dir_packed: dp, ..p };
                assert(by_bank_dir(q, evs) == by_bank_dir(p, evs));
                assert(by_bank_written(out@, evs, id, q));
            }
            Ok(out)
        },
        Err(e) => {
            assert(!by_bank_fits(tv, n as nat));
            Err(e)
        },
    }
}

} // verus!
