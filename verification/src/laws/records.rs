//! Records: where the events, the directories and the streams stand.

use vstd::prelude::*;
use crate::compress::inflate_stream;
#[allow(unused_imports)]
use crate::compress::{decompressed, stream_of};
use crate::error::HipoError;
#[allow(unused_imports)]
use crate::laws::bytes::{law_u16_at_bytes, law_u32_at_bytes};
#[allow(unused_imports)]
use crate::laws::headers::four;
use crate::wire::by_bank::ByBankRecord;
#[allow(unused_imports)]
use crate::wire::by_bank::{by_bank_directory, ByBankView};
#[allow(unused_imports)]
use crate::wire::bytes::{u32_at, Endianness};
#[allow(unused_imports)]
use crate::wire::constants::Codec;
use crate::wire::per_column::PerColumnRecord;
#[allow(unused_imports)]
use crate::wire::per_column::{per_column_directory, stream_base};
use crate::wire::record::Record;
use crate::wire::record_header::RecordHeader;
#[allow(unused_imports)]
use crate::wire::split::{bank_sizes, section_of, Outcome};
#[allow(unused_imports)]
use crate::wire::tables::{bit, cumulative, lemma_presence_index, prefix_sum, u16_table, u32_table};

verus! {

/// The sum of `n` numbers of four bytes each, the first at byte `from` and each `step` bytes after
/// the one before it.
pub open spec fn sum_at(s: Seq<u8>, from: int, step: int, n: int) -> int
    decreases n,
{
    if n <= 0 {
        0
    } else {
        sum_at(s, from, step, n - 1) + four(s, from + step * (n - 1), false)
    }
}

/// A number, or the largest that 32 bits hold.
pub open spec fn at_most_32(n: int) -> int {
    if n > u32::MAX {
        u32::MAX as int
    } else {
        n
    }
}

/// Bit `k` of a byte, the least significant first.
pub open spec fn bit_is_set(byte: u8, k: int) -> bool {
    if k == 0 {
        byte % 2 == 1
    } else if k == 1 {
        byte / 2 % 2 == 1
    } else if k == 2 {
        byte / 4 % 2 == 1
    } else if k == 3 {
        byte / 8 % 2 == 1
    } else if k == 4 {
        byte / 16 % 2 == 1
    } else if k == 5 {
        byte / 32 % 2 == 1
    } else if k == 6 {
        byte / 64 % 2 == 1
    } else {
        byte / 128 == 1
    }
}

proof fn lemma_bit(byte: u8, k: int)
    requires
        0 <= k < 8,
    ensures
        bit(byte, k) == bit_is_set(byte, k),
{
    assert(((byte >> 0u8) & 1u8 == 1u8) == (byte % 2 == 1) && ((byte >> 1u8) & 1u8 == 1u8) == (byte
        / 2 % 2 == 1) && ((byte >> 2u8) & 1u8 == 1u8) == (byte / 4 % 2 == 1) && ((byte >> 3u8) & 1u8
        == 1u8) == (byte / 8 % 2 == 1) && ((byte >> 4u8) & 1u8 == 1u8) == (byte / 16 % 2 == 1) && ((
    byte >> 5u8) & 1u8 == 1u8) == (byte / 32 % 2 == 1) && ((byte >> 6u8) & 1u8 == 1u8) == (byte / 64
        % 2 == 1) && ((byte >> 7u8) & 1u8 == 1u8) == (byte / 128 == 1)) by (bit_vector);
}

proof fn lemma_four(s: Seq<u8>, i: int)
    ensures
        u32_at(s, i) == four(s, i, false),
{
    law_u32_at_bytes(s, i);
    reveal(four);
}

/// The sum of the first numbers of a table.
proof fn lemma_sum(s: Seq<u8>, off: int, n: nat, k: nat)
    requires
        k <= n,
    ensures
        prefix_sum(u32_table(s, off, n), k) == sum_at(s, off, 4, k as int),
    decreases k,
{
    if k > 0 {
        lemma_sum(s, off, n, (k - 1) as nat);
        lemma_four(s, off + 4 * (k - 1));
    }
}

/// What follows the header of a record, without the padding at its end.
pub open spec fn body(src: Seq<u8>, h: RecordHeader) -> Seq<u8> {
    src.subrange(
        h.header_length as int,
        if h.record_length - h.header_length < h.compressed_data_padding {
            h.header_length as int
        } else {
            h.record_length - h.compressed_data_padding
        },
    )
}

/// A record of one block that is loaded holds the decompressed bytes that follow its header. They
/// begin with four bytes for each event, its length; the events follow the index, the user header
/// and its padding, one after the other without gaps.
pub proof fn law_record_is_loaded<'b>(
    rec: &'b mut Record,
    src: &[u8],
    header: RecordHeader,
    i: u32,
)
    requires
        call_ensures(
            Record::load_with_header,
            (rec, src, header, None::<&crate::schema::dict::Dict>),
            Ok::<(), HipoError>(()),
        ),
        header.endianness == Endianness::Little,
        header.header_length <= header.record_length,
        i < header.event_count,
    ensures
        final(rec)@.header == header,
        header.record_length <= src@.len(),
        ({
            let p = final(rec)@.payload;
            let size = header.index_array_length + header.user_header_length
                + header.user_header_padding + header.data_length;
            let data = header.index_array_length + header.user_header_length
                + header.user_header_padding;
            let from = at_most_32(sum_at(p, 0, 4, i as int));
            let to = at_most_32(sum_at(p, 0, 4, i + 1));
            &&& header.compression.spec_codec() == Codec::Uncompressed ==> p == src@.subrange(
                header.header_length as int,
                header.header_length + size,
            )
            &&& header.compression.spec_codec() != Codec::Uncompressed ==> decompressed(
                header.compression.spec_codec(),
                body(src@, header),
                size as nat,
            ) == Some(p)
            &&& p.len() >= 4 * header.event_count
            &&& data + to <= p.len()
            &&& final(rec)@.event(i as int) == p.subrange(data + from, data + to)
        }),
{
    let v = final(rec)@;
    let p = v.payload;
    let n = header.event_count as nat;
    let sizes = u32_table(p, 0, n);
    lemma_sum(p, 0, n, i as nat);
    lemma_sum(p, 0, n, (i + 1) as nat);
    crate::wire::record::law_decoded_record_is_wf(src@, header, None);
    crate::wire::tables::lemma_prefix_sum_monotone(sizes, (i + 1) as nat, n);
    assert(v.offsets == cumulative(sizes));
    if header.compression.spec_codec() == Codec::Uncompressed {
        assert(p =~= src@.subrange(
            header.header_length as int,
            header.header_length + header.payload_size(),
        ));
    }
}

/// What [`Record::event`] and [`Record::user_header`] return of a record: the event's bytes where
/// there is such an event, and the bytes between the index and the padding.
pub proof fn law_record_parts(rec: Record, i: u32, r: Option<&[u8]>, user: &[u8], count: u32)
    requires
        call_ensures(Record::event, (&rec, i), r),
        call_ensures(Record::user_header, (&rec,), user),
        call_ensures(Record::event_count, (&rec,), count),
    ensures
        count == rec@.header.event_count,
        (r is Some) == (i < rec@.header.event_count),
        r matches Some(e) ==> e@ == rec@.event(i as int),
        user@ == rec@.payload.subrange(
            rec@.header.index_array_length as int,
            rec@.header.index_array_length + rec@.header.user_header_length,
        ),
{
}

/// A per-bank record is read from its directory. The section begins with a version byte (2 or 3),
/// then at byte 4 the number of banks, at 8 of events, at 12 the compressed and at 16 the
/// decompressed length of the directory, which stands at byte 20; the streams follow it. The
/// directory is, for `n` banks and `events` events: four bytes for every bank (group, item, type);
/// the compressed sizes; the decompressed sizes; the tags of the events; `events` rows of bits; and
/// for every bank its size in every event.
#[verifier::rlimit(60)]
#[verifier::spinoff_prover]
pub proof fn law_by_bank_is_read(
    src: &[u8],
    rec: ByBankRecord,
    packed: &[u8],
    dir: Vec<u8>,
    b: int,
    e: int,
)
    requires
        call_ensures(ByBankRecord::parse, (src,), Ok::<ByBankRecord, HipoError>(rec)),
        ({
            let s = body(src@, rec@.header);
            &&& packed@ == s.subrange(20, 20 + four(s, 12, false))
            &&& call_ensures(
                inflate_stream,
                (rec@.header.compression, packed, four(s, 16, false) as usize),
                Ok::<Vec<u8>, HipoError>(dir),
            )
        }),
        0 <= b < rec@.descriptors.len(),
        0 <= e < rec@.header.event_count,
    ensures
        ({
            let v = rec@;
            let s = body(src@, v.header);
            let d = dir@;
            let n = four(s, 4, false);
            let events = four(s, 8, false);
            let sizes = 12 * n + 4 * events + events * ((n + 7) / 8);
            let start = 20 + four(s, 12, false) + sum_at(d, 4 * n, 4, b);
            &&& s[0] == 2 || s[0] == 3
            &&& v.descriptors.len() == n
            &&& v.header.event_count == events
            &&& v.descriptors[b].group == d[4 * b] + d[4 * b + 1] * 0x100
            &&& v.descriptors[b].item == d[4 * b + 2]
            &&& v.descriptors[b].data_type == d[4 * b + 3]
            &&& v.packed[b] == s.subrange(start, start + four(d, 4 * n + 4 * b, false))
            &&& v.sizes[b] == four(d, 8 * n + 4 * b, false)
            &&& v.tags[e] == four(d, 12 * n + 4 * e, false)
            &&& v.has(e, b) == bit_is_set(
                d[12 * n + 4 * events + e * ((n + 7) / 8) + b / 8],
                b % 8,
            )
            &&& v.offsets[b][e] == at_most_32(sum_at(d, sizes + 4 * (b * events), 4, e))
            &&& v.offsets[b][e + 1] == at_most_32(sum_at(d, sizes + 4 * (b * events), 4, e + 1))
        }),
{
    let v = rec@;
    let h = v.header;
    let s = body(src@, h);
    let d = dir@;
    assert(s =~= section_of(src@, h));
    lemma_four(s, 4);
    lemma_four(s, 8);
    lemma_four(s, 12);
    lemma_four(s, 16);
    let n = u32_at(s, 4) as nat;
    let events = u32_at(s, 8) as nat;
    let w = (n + 7) / 8;
    let sizes = crate::wire::by_bank::sizes_base(n, events);
    assert(by_bank_directory(h, s) matches Outcome::Done(x) && x.dir == d && x.banks == n);
    law_u16_at_bytes(d, 4 * b);
    lemma_sum(d, 4 * n as int, n, b as nat);
    lemma_four(d, 4 * n + 4 * b);
    lemma_four(d, 8 * n + 4 * b);
    lemma_four(d, 12 * n + 4 * e);
    lemma_presence_index(events, n, e, b);
    lemma_bit(v.presence[e * w + b / 8], b % 8);
    assert(v.presence[e * w + b / 8] == d[12 * n + 4 * events + e * w + b / 8]);
    lemma_sum(d, sizes + 4 * (b * events), events, e as nat);
    lemma_sum(d, sizes + 4 * (b * events), events, (e + 1) as nat);
    assert(v.offsets[b] == cumulative(bank_sizes(d, sizes, events, b)));
}

/// What the lookups of a per-bank record return: the tag, the ids, the presence and the size of a
/// bank in an event, and its bytes, cut out of the bank's stream.
pub proof fn law_by_bank_lookups(
    rec: ByBankRecord,
    b: u32,
    e: u32,
    tag: u32,
    id: (u16, u8, u8),
    has: bool,
    size: u32,
    stream: Vec<u8>,
    data: Option<Vec<u8>>,
)
    requires
        call_ensures(ByBankRecord::event_tag, (&rec, e), tag),
        call_ensures(ByBankRecord::descriptor, (&rec, b), id),
        call_ensures(ByBankRecord::has, (&rec, e, b), has),
        call_ensures(ByBankRecord::bank_size, (&rec, e, b), size),
        call_ensures(ByBankRecord::inflate_bank, (&rec, b), Ok::<Vec<u8>, HipoError>(stream)),
        call_ensures(ByBankRecord::bank_data, (&rec, e, b), data),
        rec@.wf(),
        b < rec@.descriptors.len(),
        e < rec@.header.event_count,
    ensures
        tag == rec@.tags[e as int],
        id == (
            rec@.descriptors[b as int].group,
            rec@.descriptors[b as int].item,
            rec@.descriptors[b as int].data_type,
        ),
        has == rec@.has(e as int, b as int),
        size == rec@.offsets[b as int][e + 1] - rec@.offsets[b as int][e as int],
        stream@.len() == rec@.sizes[b as int],
        stream_of(
            rec@.header.compression.spec_codec(),
            rec@.packed[b as int],
            rec@.sizes[b as int] as nat,
        ) == Some(stream@),
        data matches Some(x) && x@ == stream@.subrange(
            rec@.offsets[b as int][e as int] as int,
            rec@.offsets[b as int][e + 1] as int,
        ),
{
    let v = rec@;
    assert(crate::wire::by_bank::offsets_ok(v.offsets[b as int], v.events(), v.sizes[b as int]));
}

/// A bank of a per-bank record is found by its id where the directory has it, and the first such.
pub proof fn law_by_bank_index(rec: ByBankRecord, group: u16, item: u8, r: Option<u32>)
    requires
        call_ensures(ByBankRecord::bank_index, (&rec, group, item), r),
    ensures
        match r {
            Some(b) => {
                &&& b < rec@.descriptors.len()
                &&& rec@.descriptors[b as int].group == group
                &&& rec@.descriptors[b as int].item == item
                &&& forall|c: int|
                    0 <= c < b ==> (#[trigger] rec@.descriptors[c]).group != group
                        || rec@.descriptors[c].item != item
            },
            None => forall|c: int|
                0 <= c < rec@.descriptors.len() ==> (#[trigger] rec@.descriptors[c]).group != group
                    || rec@.descriptors[c].item != item,
        },
{
    if r is None {
        assert forall|c: int| 0 <= c < rec@.descriptors.len() implies (
        #[trigger] rec@.descriptors[c]).group != group || rec@.descriptors[c].item != item by {
            if rec@.descriptors[c].group == group && rec@.descriptors[c].item == item {
                lemma_first(rec@, c as nat, group, item);
            }
        }
    }
}

proof fn lemma_first(v: ByBankView, c: nat, group: u16, item: u8)
    requires
        c < v.descriptors.len(),
        v.descriptors[c as int].group == group,
        v.descriptors[c as int].item == item,
    ensures
        v.lists(group, item),
    decreases c,
{
    if exists|k: int|
        0 <= k < c && (#[trigger] v.descriptors[k]).group == group && v.descriptors[k].item
            == item {
        let k = choose|k: int|
            0 <= k < c && (#[trigger] v.descriptors[k]).group == group && v.descriptors[k].item
                == item;
        lemma_first(v, k as nat, group, item);
    } else {
        assert(v.is_bank(c as int, group, item));
    }
}

/// How many streams come before those of bank `b`: one for each column, and one for a bank without
/// columns.
pub open spec fn streams_before(dir: Seq<u8>, table: int, b: int) -> int
    decreases b,
{
    if b <= 0 {
        0
    } else {
        let cols = dir[table + 2 * (b - 1)] + dir[table + 2 * (b - 1) + 1] * 0x100;
        streams_before(dir, table, b - 1) + if cols == 0 {
            1
        } else {
            cols
        }
    }
}

proof fn lemma_streams_before(d: Seq<u8>, n: nat, b: nat)
    requires
        b <= n,
    ensures
        stream_base(u16_table(d, 4 * n as int, n), b) == streams_before(d, 4 * n as int, b as int),
    decreases b,
{
    if b > 0 {
        lemma_streams_before(d, n, (b - 1) as nat);
        law_u16_at_bytes(d, 4 * n + 2 * (b - 1));
    }
}

/// The sum of the first compressed sizes of a table of pairs.
proof fn lemma_pair_sum(s: Seq<u8>, off: int, n: nat, k: nat)
    requires
        k <= n,
    ensures
        prefix_sum(crate::wire::per_column::packed_sizes_at(s, off, n), k) == sum_at(
            s,
            off,
            8,
            k as int,
        ),
    decreases k,
{
    if k > 0 {
        lemma_pair_sum(s, off, n, (k - 1) as nat);
        lemma_four(s, off + 8 * (k - 1));
    }
}

/// A per-column record is read from its directory. The section begins as that of a per-bank record
/// does, with version byte 1 or 2. The directory is, for `n` banks and `events` events: four bytes
/// for every bank (group, item, type); two bytes for every bank, its number of columns; the tags of
/// the events; `events` rows of bits; for every bank its size in every event; and for every stream
/// its compressed and its decompressed size.
#[verifier::rlimit(60)]
#[verifier::spinoff_prover]
pub proof fn law_per_column_is_read(
    src: &[u8],
    rec: PerColumnRecord,
    packed: &[u8],
    dir: Vec<u8>,
    b: int,
    e: int,
    k: int,
)
    requires
        call_ensures(PerColumnRecord::parse, (src,), Ok::<PerColumnRecord, HipoError>(rec)),
        ({
            let s = body(src@, rec@.header);
            &&& packed@ == s.subrange(20, 20 + four(s, 12, false))
            &&& call_ensures(
                inflate_stream,
                (rec@.header.compression, packed, four(s, 16, false) as usize),
                Ok::<Vec<u8>, HipoError>(dir),
            )
        }),
        0 <= b < rec@.descriptors.len(),
        0 <= e < rec@.header.event_count,
        0 <= k < rec@.packed.len(),
    ensures
        ({
            let v = rec@;
            let s = body(src@, v.header);
            let d = dir@;
            let n = four(s, 4, false);
            let events = four(s, 8, false);
            let sizes = 6 * n + 4 * events + events * ((n + 7) / 8);
            let streams = sizes + 4 * (n * events);
            let start = 20 + four(s, 12, false) + sum_at(d, streams, 8, k);
            &&& s[0] == 1 || s[0] == 2
            &&& v.descriptors.len() == n
            &&& v.header.event_count == events
            &&& v.descriptors[b].group == d[4 * b] + d[4 * b + 1] * 0x100
            &&& v.descriptors[b].item == d[4 * b + 2]
            &&& v.descriptors[b].data_type == d[4 * b + 3]
            &&& v.cols[b] == d[4 * n + 2 * b] + d[4 * n + 2 * b + 1] * 0x100
            &&& v.base(b) == streams_before(d, 4 * n, b)
            &&& v.packed.len() == streams_before(d, 4 * n, n)
            &&& v.packed[k] == s.subrange(start, start + four(d, streams + 8 * k, false))
            &&& v.sizes[k] == four(d, streams + 8 * k + 4, false)
            &&& v.tags[e] == four(d, 6 * n + 4 * e, false)
            &&& v.has(e, b) == bit_is_set(
                d[6 * n + 4 * events + e * ((n + 7) / 8) + b / 8],
                b % 8,
            )
            &&& v.offsets[b][e] == at_most_32(sum_at(d, sizes + 4 * (b * events), 4, e))
            &&& v.offsets[b][e + 1] == at_most_32(sum_at(d, sizes + 4 * (b * events), 4, e + 1))
        }),
{
    let v = rec@;
    let h = v.header;
    let s = body(src@, h);
    let d = dir@;
    assert(s =~= section_of(src@, h));
    lemma_four(s, 4);
    lemma_four(s, 8);
    lemma_four(s, 12);
    lemma_four(s, 16);
    let n = u32_at(s, 4) as nat;
    let events = u32_at(s, 8) as nat;
    let w = (n + 7) / 8;
    let sizes = crate::wire::per_column::column_sizes_base(n, events);
    let streams = sizes + 4 * (n * events);
    assert(per_column_directory(h, s) matches Outcome::Done(x) && x.dir == d && x.banks == n);
    law_u16_at_bytes(d, 4 * b);
    law_u16_at_bytes(d, 4 * n + 2 * b);
    lemma_streams_before(d, n, b as nat);
    lemma_streams_before(d, n, n);
    assert(v.cols == u16_table(d, 4 * n as int, n));
    let count = stream_base(v.cols, n);
    lemma_pair_sum(d, streams, count, k as nat);
    lemma_four(d, streams + 8 * k);
    lemma_four(d, streams + 8 * k + 4);
    lemma_four(d, 6 * n + 4 * e);
    lemma_presence_index(events, n, e, b);
    lemma_bit(v.presence[e * w + b / 8], b % 8);
    assert(v.presence[e * w + b / 8] == d[6 * n + 4 * events + e * w + b / 8]);
    lemma_sum(d, sizes + 4 * (b * events), events, e as nat);
    lemma_sum(d, sizes + 4 * (b * events), events, (e + 1) as nat);
    assert(v.offsets[b] == cumulative(bank_sizes(d, sizes, events, b)));
}

/// What the lookups of a per-column record return of a bank in an event.
pub proof fn law_per_column_lookups(
    rec: PerColumnRecord,
    b: u32,
    e: u32,
    tag: u32,
    id: (u16, u8, u8),
    has: bool,
    size: u32,
    cols: u16,
    opaque: bool,
)
    requires
        call_ensures(PerColumnRecord::event_tag, (&rec, e), tag),
        call_ensures(PerColumnRecord::descriptor, (&rec, b), id),
        call_ensures(PerColumnRecord::has, (&rec, e, b), has),
        call_ensures(PerColumnRecord::bank_size, (&rec, e, b), size),
        call_ensures(PerColumnRecord::num_columns, (&rec, b), cols),
        call_ensures(PerColumnRecord::is_opaque, (&rec, b), opaque),
    ensures
        tag == rec@.tags[e as int],
        id == (
            rec@.descriptors[b as int].group,
            rec@.descriptors[b as int].item,
            rec@.descriptors[b as int].data_type,
        ),
        has == rec@.has(e as int, b as int),
        size == rec@.offsets[b as int][e + 1] - rec@.offsets[b as int][e as int],
        cols == rec@.cols[b as int],
        opaque == (rec@.cols[b as int] == 0),
{
}

/// Column `c` of a bank is the stream with the number of the bank's first stream and `c` more; a
/// bank without columns has one stream, with number 0. The cells of an event follow those of the
/// events before it, as many rows as the bank has bytes there, divided by the length of a row.
pub proof fn law_per_column_cells(
    rec: PerColumnRecord,
    b: u32,
    e: u32,
    c: u16,
    schema: crate::schema::types::Schema,
    stream: Vec<u8>,
    data: Option<Vec<u8>>,
)
    requires
        call_ensures(
            PerColumnRecord::inflate_column,
            (&rec, b, c),
            Ok::<Vec<u8>, HipoError>(stream),
        ),
        call_ensures(PerColumnRecord::column_data, (&rec, e, b, c as usize, &schema), data),
        c < schema@.entries.len(),
        schema@.row_size > 0,
        rec@.wf(),
        b < rec@.descriptors.len(),
        e < rec@.header.event_count,
    ensures
        ({
            let v = rec@;
            let k = v.base(b as int) + c;
            let w = crate::laws::banks::cell_bytes(schema@.entries[c as int]);
            let row = schema@.row_size as int;
            let (lo, hi) = (v.offsets[b as int][e as int], v.offsets[b as int][e + 1]);
            let from = lo as int / row;
            let rows = (hi - lo) / row;
            &&& c < v.cols[b as int] || (v.cols[b as int] == 0 && c == 0)
            &&& stream_of(v.header.compression.spec_codec(), v.packed[k], v.sizes[k] as nat)
                == Some(stream@)
            &&& (data is Some) == ((from + rows) * w <= stream@.len())
            &&& data matches Some(d) ==> d@ == stream@.subrange(from * w, (from + rows) * w)
        }),
{
    let v = rec@;
    crate::laws::bytes::law_element_types();
    assert(crate::wire::per_column::offsets_grow(v.offsets[b as int], v.events()));
    assert(v.offsets[b as int][e as int] <= v.offsets[b as int][e + 1]);
    let row = schema@.row_size as int;
    let len = v.size(e as int, b as int);
    assert(len / row >= 0) by (nonlinear_arith)
        requires
            len >= 0,
            row > 0,
    ;
}

/// A bank of a per-column record is found by its id: what is found has it, and where the banks are
/// in ascending order of their ids, it is found whenever there is one.
pub proof fn law_per_column_index(rec: PerColumnRecord, group: u16, item: u8, r: Option<u32>, c: int)
    requires
        call_ensures(PerColumnRecord::bank_index, (&rec, group, item), r),
    ensures
        r matches Some(b) ==> b < rec@.descriptors.len() && rec@.descriptors[b as int].group == group
            && rec@.descriptors[b as int].item == item,
        (forall|i: int, j: int|
            0 <= i < j < rec@.descriptors.len() ==> (#[trigger] rec@.descriptors[i]).group * 256
                + rec@.descriptors[i].item < (#[trigger] rec@.descriptors[j]).group * 256
                + rec@.descriptors[j].item) && 0 <= c < rec@.descriptors.len()
            && rec@.descriptors[c].group == group && rec@.descriptors[c].item == item ==> r
            == Some(c as u32),
{
    let v = rec@;
    if (forall|i: int, j: int|
        0 <= i < j < v.descriptors.len() ==> (#[trigger] v.descriptors[i]).group * 256
            + v.descriptors[i].item < (#[trigger] v.descriptors[j]).group * 256
            + v.descriptors[j].item) && 0 <= c < v.descriptors.len() && v.descriptors[c].group
        == group && v.descriptors[c].item == item {
        assert(v.sorted());
        assert(v.is_bank(c, group, item));
        if let Some(b) = r {
            if b < c {
                assert(v.descriptors[b as int].group * 256 + v.descriptors[b as int].item
                    < v.descriptors[c].group * 256 + v.descriptors[c].item);
            } else if c < b {
                assert(v.descriptors[c].group * 256 + v.descriptors[c].item
                    < v.descriptors[b as int].group * 256 + v.descriptors[b as int].item);
            }
        }
    }
}

} // verus!
