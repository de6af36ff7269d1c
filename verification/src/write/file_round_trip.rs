//! What a file says is what was written: its dictionary, its tag names, its index and its
//! records.

use vstd::prelude::*;
#[allow(unused_imports)]
use crate::error::HipoError;
#[allow(unused_imports)]
use crate::event::builders::law_built_event_reads_back;
#[allow(unused_imports)]
use crate::event::event::{
    event_structures, found, struct_bytes, structs_bytes, StructView, StructureHeader,
};
#[allow(unused_imports)]
use crate::event::view::EventView;
#[allow(unused_imports)]
use crate::read::chain::{events_base, law_one_place, lemma_in_file, ChainView, Place};
#[allow(unused_imports)]
use crate::read::dictionary::{evio_text, schema_in, text_len, DictionaryView};
#[allow(unused_imports)]
use crate::read::inner::{
    block_in, dictionary_in, file_opened, header_in, index_bank_in, record_in, rows_indexed,
    scanned, trailer_indexed, FileInfo,
};
#[allow(unused_imports)]
use crate::read::stored::stored_decoded;
#[allow(unused_imports)]
use crate::wire::record::record_decoded;
#[allow(unused_imports)]
use crate::schema::dict::{law_add_keeps_wf, DictView};
#[allow(unused_imports)]
use crate::schema::text::{clean_schema, law_schema_text_round_trip, schema_text};
#[allow(unused_imports)]
use crate::schema::types::SchemaView;
#[allow(unused_imports)]
use crate::seqs::{concat, lemma_concat_at, lemma_concat_step, run_start};
#[allow(unused_imports)]
use crate::tag::{law_tags_text_round_trip, tags_distinct, tags_text};
#[allow(unused_imports)]
use crate::text::{lacks, law_trimmed_clean};
#[allow(unused_imports)]
use crate::wire::bytes::{
    law_le16_round_trip, law_le32_round_trip, law_le64_round_trip, le32, le64, lemma_u32_at_same,
    u32_at, u64_at,
};
#[allow(unused_imports)]
use crate::wire::constants::{
    Codec, CompressionType, Layout, DICT_GROUP, DICT_ITEM, FILE_INDEX_GROUP, FILE_INDEX_ITEM,
    TAG_REGISTRY_ITEM,
};
#[allow(unused_imports)]
use crate::wire::event_index::{
    events_before, events_in, numbered, spans_event, with_span, RecordSpan,
};
#[allow(unused_imports)]
use crate::wire::file_header::{law_file_header_round_trip, FileHeader};
#[allow(unused_imports)]
use crate::wire::record_header::{lemma_header_bytes, RecordHeader};
#[allow(unused_imports)]
use crate::wire::tables::lemma_u32s_bytes_len;
#[allow(unused_imports)]
use crate::write::file::{
    closed_header, dictionary_events, event_counts, first_words, is_trailer, no_ident, open_header,
    positions, record_lengths, schema_event, second_words, single_event, tags_event, text_bank,
    trailer_data, trailer_event, IndexEntry,
};
#[allow(unused_imports)]
use crate::write::record::{
    block_written, header_of, is_block_record, lemma_header_writable, lens_of, RecordIdent,
};
#[allow(unused_imports)]
use crate::write::record_builder::is_record;
#[allow(unused_imports)]
use crate::write::round_trip::{law_block_record_reads_back, lemma_framed_reads_back};
#[allow(unused_imports)]
use crate::write::writer::{indexed_events, lemma_record_header, tags_valid, WriterView};

verus! {

/// The bytes of a character other than zero are not zero.
proof fn lemma_char_not_zero(c: char)
    requires
        c != '\0',
    ensures
        forall|i: int|
            0 <= i < vstd::utf8::encode_scalar(c as u32).len() ==> #[trigger]
                vstd::utf8::encode_scalar(c as u32)[i] != 0,
{
    let v = c as u32;
    assert(0 < v);
    assert(v <= 0x7f ==> vstd::utf8::leading_byte_width_1(v) != 0) by (bit_vector)
        requires
            0 < v,
    ;
    assert(vstd::utf8::leading_byte_width_2(v) != 0) by (bit_vector);
    assert(vstd::utf8::leading_byte_width_3(v) != 0) by (bit_vector);
    assert(vstd::utf8::leading_byte_width_4(v) != 0) by (bit_vector);
    assert(vstd::utf8::last_continuation_byte(v) != 0) by (bit_vector);
    assert(vstd::utf8::second_last_continuation_byte(v) != 0) by (bit_vector);
    assert(vstd::utf8::third_last_continuation_byte(v) != 0) by (bit_vector);
}

/// The bytes of text without zeros have none.
proof fn lemma_text_not_zero(t: Seq<char>)
    requires
        lacks(t, '\0'),
    ensures
        forall|i: int|
            0 <= i < vstd::utf8::encode_utf8(t).len() ==> #[trigger] vstd::utf8::encode_utf8(t)[i]
                != 0,
    decreases t.len(),
{
    if t.len() > 0 {
        assert(t[0] != '\0');
        lemma_char_not_zero(t[0]);
        let rest = t.drop_first();
        assert forall|i: int| 0 <= i < rest.len() implies #[trigger] rest[i] != '\0' by {
            assert(rest[i] == t[i + 1]);
        }
        lemma_text_not_zero(rest);
        let a = vstd::utf8::encode_scalar(t[0] as u32);
        let b = vstd::utf8::encode_utf8(rest);
        assert forall|i: int| 0 <= i < (a + b).len() implies #[trigger] (a + b)[i] != 0 by {
            if i < a.len() {
                assert(a[i] != 0);
            } else {
                assert(b[i - a.len()] != 0);
            }
        }
    }
}

/// Text ends at its first zero byte.
proof fn lemma_text_len(s: Seq<u8>)
    requires
        forall|i: int| 0 <= i < s.len() ==> #[trigger] s[i] != 0,
    ensures
        text_len(s) == s.len(),
    decreases s.len(),
{
    if s.len() > 0 {
        assert forall|i: int| 0 <= i < s.drop_first().len() implies #[trigger] s.drop_first()[i]
            != 0 by {
            assert(s.drop_first()[i] == s[i + 1]);
        }
        lemma_text_len(s.drop_first());
    }
}

/// Text without zero characters is read back from its UTF-8 form.
pub proof fn law_text_round_trip(t: Seq<char>)
    requires
        lacks(t, '\0'),
    ensures
        evio_text(vstd::utf8::encode_utf8(t)) == t,
{
    let b = vstd::utf8::encode_utf8(t);
    lemma_text_not_zero(t);
    lemma_text_len(b);
    assert(b.subrange(0, b.len() as int) =~= b);
    vstd::utf8::encode_utf8_valid_utf8(t);
    vstd::utf8::encode_utf8_decode_utf8(t);
}

/// The structure in an event with one structure.
pub open spec fn single_structure(group: u16, item: u8, data: Seq<u8>) -> StructView {
    StructView {
        header: StructureHeader {
            group,
            item,
            ty: 11,
            data_size: data.len() as u32,
            header_size: 0,
        },
        data,
    }
}

/// An event with one structure gives that back.
proof fn lemma_single_event(group: u16, item: u8, data: Seq<u8>)
    requires
        data.len() < 0x100_0000,
    ensures
        event_structures(single_event(group, item, data)) == seq![
            single_structure(group, item, data),
        ],
{
    let st = single_structure(group, item, data);
    let sts = seq![st];
    let none = Seq::<StructView>::empty();
    assert(sts.drop_first() =~= none);
    assert(structs_bytes(none) =~= Seq::<u8>::empty());
    assert(structs_bytes(sts) =~= struct_bytes(st));
    assert(struct_bytes(st) =~= text_bank(group, item, data));
    law_le16_round_trip(group);
    law_le32_round_trip(data.len() as u32);
    assert(structs_bytes(sts).len() == 8 + data.len());
    law_built_event_reads_back(sts, 0);
}

/// A schema that a dictionary record can hold: its names are such as schema text can hold, and
/// the text has no zero character and is less than 16 MiB.
pub open spec fn storable_schema(s: SchemaView) -> bool {
    &&& clean_schema(s)
    &&& lacks(schema_text(s), '\0')
    &&& vstd::utf8::encode_utf8(schema_text(s)).len() < 0x100_0000
}

/// Tag names that a dictionary record can hold.
pub open spec fn storable_tags(reg: Seq<(Seq<char>, u32)>) -> bool {
    &&& tags_distinct(reg)
    &&& tags_valid(reg)
    &&& lacks(tags_text(reg), '\0')
    &&& vstd::utf8::encode_utf8(tags_text(reg)).len() < 0x100_0000
}

/// A dictionary that a dictionary record can hold.
pub open spec fn storable_dict(d: DictView) -> bool {
    &&& d.wf()
    &&& forall|i: int| 0 <= i < d.schemas.len() ==> storable_schema(#[trigger] d.schemas[i])
}

/// The entry of a schema declares it.
proof fn lemma_schema_event(s: SchemaView)
    requires
        storable_schema(s),
        s.laid_out(),
    ensures
        schema_in(event_structures(schema_event(s))) == Some(s),
{
    let t = schema_text(s);
    let b = vstd::utf8::encode_utf8(t);
    lemma_single_event(DICT_GROUP, DICT_ITEM, b);
    law_text_round_trip(t);
    assert(t[0] == '{' && t.last() == '}');
    law_trimmed_clean(t);
    law_schema_text_round_trip(s);
    let sts = seq![single_structure(DICT_GROUP, DICT_ITEM, b)];
    assert(sts[0].header.group == DICT_GROUP && sts[0].header.item == DICT_ITEM);
    assert(found(sts, DICT_GROUP, DICT_ITEM) == Some(sts[0]));
}

/// The entry of tag names declares them.
proof fn lemma_tags_event(d: DictionaryView, reg: Seq<(Seq<char>, u32)>)
    requires
        storable_tags(reg),
        reg.len() > 0,
    ensures
        d.with(tags_event(reg)) == (DictionaryView { tags: reg, ..d }),
{
    let t = tags_text(reg);
    let b = vstd::utf8::encode_utf8(t);
    lemma_single_event(DICT_GROUP, TAG_REGISTRY_ITEM, b);
    law_text_round_trip(t);
    law_tags_text_round_trip(reg);
    let sts = seq![single_structure(DICT_GROUP, TAG_REGISTRY_ITEM, b)];
    let none = Seq::<StructView>::empty();
    assert(sts.drop_first() =~= none);
    assert(found(none, DICT_GROUP, DICT_ITEM) is None);
    assert(found(none, DICT_GROUP, crate::wire::constants::DICT_JSON_ITEM) is None);
    assert(found(sts, DICT_GROUP, DICT_ITEM) is None);
    assert(found(sts, DICT_GROUP, crate::wire::constants::DICT_JSON_ITEM) is None);
    assert(found(sts, DICT_GROUP, TAG_REGISTRY_ITEM) == Some(sts[0]));
}

/// The dictionary of the first `n` schemas, added one after the other.
pub open spec fn added(schemas: Seq<SchemaView>, n: nat) -> DictView
    decreases n,
{
    if n == 0 {
        DictView::none()
    } else {
        added(schemas, (n - 1) as nat).with(schemas[n - 1])
    }
}

/// The entries of the first schemas declare them.
proof fn lemma_schemas_declared(d: DictView, events: Seq<Seq<u8>>, k: nat)
    requires
        storable_dict(d),
        k <= d.schemas.len() <= events.len(),
        forall|i: int|
            0 <= i < d.schemas.len() ==> #[trigger] events[i] == schema_event(d.schemas[i]),
    ensures
        ({
            let r = DictionaryView::of(events, k);
            &&& r.dict.schemas =~= d.schemas.subrange(0, k as int)
            &&& r.dict == added(d.schemas, k)
            &&& r.dict.wf()
            &&& r.tags.len() == 0
            &&& r.config.len() == 0
        }),
    decreases k,
{
    if k > 0 {
        let j = (k - 1) as nat;
        lemma_schemas_declared(d, events, j);
        let before = DictionaryView::of(events, j);
        let s = d.schemas[j as int];
        assert(events[j as int] == schema_event(s));
        assert(storable_schema(s) && s.laid_out());
        lemma_schema_event(s);
        assert(!before.dict.has_name(s.name)) by {
            if before.dict.has_name(s.name) {
                let i = before.dict.position(s.name);
                assert(before.dict.names(i, s.name));
                assert(before.dict.schemas[i] == d.schemas[i]);
                assert(d.schemas[i].name != d.schemas[j as int].name);
            }
        }
        law_add_keeps_wf(before.dict, s);
    }
}

/// The entries of a dictionary record declare the schemas and the tag names that they were
/// written for.
pub proof fn law_dictionary_entries(d: DictView, reg: Seq<(Seq<char>, u32)>)
    requires
        storable_dict(d),
        storable_tags(reg),
    ensures
        ({
            let events = dictionary_events(d, reg);
            let r = DictionaryView::of(events, events.len());
            &&& r.dict.schemas == d.schemas
            &&& r.dict == added(d.schemas, d.schemas.len())
            &&& r.dict.wf()
            &&& r.tags == reg
            &&& r.config.len() == 0
        }),
{
    let events = dictionary_events(d, reg);
    let n = d.schemas.len();
    lemma_schemas_declared(d, events, n);
    assert(d.schemas.subrange(0, n as int) =~= d.schemas);
    if reg.len() > 0 {
        lemma_tags_event(DictionaryView::of(events, n), reg);
    } else {
        assert(DictionaryView::of(events, n).tags =~= reg);
    }
}

/// A record within a file is found at its place.
pub proof fn lemma_record_in(f: Seq<u8>, off: int, out: Seq<u8>)
    requires
        0 <= off,
        off + out.len() <= f.len(),
        f.subrange(off, off + out.len()) == out,
        56 <= out.len() <= usize::MAX,
        RecordHeader::decoded(out) is Ok,
        RecordHeader::decoded(out)->Ok_0.record_length == out.len(),
    ensures
        header_in(f, off) == RecordHeader::decoded(out),
        record_in(f, off) == Ok::<(RecordHeader, Seq<u8>), HipoError>(
            (RecordHeader::decoded(out)->Ok_0, out),
        ),
{
    let head = f.subrange(off, off + 56);
    assert forall|i: int| 0 <= i < 56 implies head[i] == out[i] by {
        assert(f.subrange(off, off + out.len())[i] == f[off + i]);
    }
    lemma_header_bytes(head, out);
}

/// An uncompressed record within a file is read back.
proof fn lemma_block_in(f: Seq<u8>, off: int, out: Seq<u8>, events: Seq<Seq<u8>>)
    requires
        0 <= off,
        off + out.len() <= f.len(),
        f.subrange(off, off + out.len()) == out,
        is_block_record(out, events, CompressionType::Uncompressed, no_ident()),
    ensures
        block_in(f, off) matches Some(v) && v.events() == events && v.header.event_count
            == events.len(),
{
    let kind = CompressionType::Uncompressed;
    let packed = choose|packed: Seq<u8>| #[trigger]
        block_written(out, events, kind, no_ident(), packed);
    let h = header_of(kind, events.len(), concat(events).len(), packed.len(), no_ident());
    lemma_u32s_bytes_len(lens_of(events));
    lemma_header_writable(kind, events.len(), concat(events).len(), packed.len(), no_ident());
    lemma_framed_reads_back(h, packed);
    law_block_record_reads_back(out, events, kind, no_ident(), packed, None);
    lemma_record_in(f, off, out);
}

/// What the eight bytes at `i` say.
proof fn lemma_u64_read(s: Seq<u8>, i: int, v: u64)
    requires
        0 <= i,
        i + 8 <= s.len(),
        s.subrange(i, i + 8) == le64(v),
    ensures
        u64_at(s, i) == v,
{
    let t = le64(v);
    law_le64_round_trip(v);
    assert forall|k: int| 0 <= k < 8 implies s[i + k] == #[trigger] t[k] by {
        assert(s.subrange(i, i + 8)[k] == s[i + k]);
    }
    assert(t[0] == s[i] && t[1] == s[i + 1] && t[2] == s[i + 2] && t[3] == s[i + 3]);
    assert(t[4] == s[i + 4] && t[5] == s[i + 5] && t[6] == s[i + 6] && t[7] == s[i + 7]);
    lemma_u32_at_same(s, i, t, 0);
    lemma_u32_at_same(s, i + 4, t, 4);
}

/// What the four bytes at `i` say.
proof fn lemma_u32_read(s: Seq<u8>, i: int, v: u32)
    requires
        0 <= i,
        i + 4 <= s.len(),
        s.subrange(i, i + 4) == le32(v),
    ensures
        u32_at(s, i) == v,
{
    let t = le32(v);
    law_le32_round_trip(v);
    assert(t[0] == s[i] && t[1] == s[i + 1] && t[2] == s[i + 2] && t[3] == s[i + 3]);
    lemma_u32_at_same(s, i, t, 0);
}

/// Where the numbers of entry `k` stand among those of the first `n`.
proof fn lemma_columns_at(es: Seq<IndexEntry>, n: nat, k: int)
    requires
        n <= es.len(),
    ensures
        positions(es, n).len() == 8 * n,
        record_lengths(es, n).len() == 4 * n,
        event_counts(es, n).len() == 4 * n,
        first_words(es, n).len() == 8 * n,
        second_words(es, n).len() == 8 * n,
        0 <= k < n ==> {
            &&& positions(es, n).subrange(8 * k, 8 * k + 8) == le64(es[k].position)
            &&& record_lengths(es, n).subrange(4 * k, 4 * k + 4) == le32(
                (es[k].record_length % 0x1_0000_0000) as u32,
            )
            &&& event_counts(es, n).subrange(4 * k, 4 * k + 4) == le32(es[k].event_count)
        },
    decreases n,
{
    if n > 0 {
        let m = (n - 1) as nat;
        lemma_columns_at(es, m, k);
        law_le64_round_trip(es[m as int].position);
        law_le64_round_trip(es[m as int].user_word_1);
        law_le64_round_trip(es[m as int].user_word_2);
        law_le32_round_trip((es[m as int].record_length % 0x1_0000_0000) as u32);
        law_le32_round_trip(es[m as int].event_count);
        if 0 <= k < m {
            assert(positions(es, n).subrange(8 * k, 8 * k + 8) =~= positions(es, m).subrange(
                8 * k,
                8 * k + 8,
            ));
            assert(record_lengths(es, n).subrange(4 * k, 4 * k + 4) =~= record_lengths(
                es,
                m,
            ).subrange(4 * k, 4 * k + 4));
            assert(event_counts(es, n).subrange(4 * k, 4 * k + 4) =~= event_counts(
                es,
                m,
            ).subrange(4 * k, 4 * k + 4));
        } else if k == m {
            assert(positions(es, n).subrange(8 * k, 8 * k + 8) =~= le64(es[k].position));
            assert(record_lengths(es, n).subrange(4 * k, 4 * k + 4) =~= le32(
                (es[k].record_length % 0x1_0000_0000) as u32,
            ));
            assert(event_counts(es, n).subrange(4 * k, 4 * k + 4) =~= le32(es[k].event_count));
        }
    }
}

/// Row `k` of the trailer's bank is entry `k`.
proof fn lemma_trailer_row(es: Seq<IndexEntry>, k: int)
    requires
        0 <= k < es.len(),
        es[k].record_length <= u32::MAX,
    ensures
        trailer_data(es).len() == 32 * es.len(),
        u64_at(trailer_data(es), 8 * k) == es[k].position,
        u32_at(trailer_data(es), 8 * es.len() + 4 * k) == es[k].record_length,
        u32_at(trailer_data(es), 12 * es.len() + 4 * k) == es[k].event_count,
{
    let n = es.len();
    let d = trailer_data(es);
    lemma_columns_at(es, n, k);
    assert(d.subrange(8 * k, 8 * k + 8) =~= positions(es, n).subrange(8 * k, 8 * k + 8));
    lemma_u64_read(d, 8 * k, es[k].position);
    let a = 8 * n + 4 * k;
    assert(d.subrange(a, a + 4) =~= record_lengths(es, n).subrange(4 * k, 4 * k + 4));
    lemma_u32_read(d, a, (es[k].record_length % 0x1_0000_0000) as u32);
    let b = 12 * n + 4 * k;
    assert(d.subrange(b, b + 4) =~= event_counts(es, n).subrange(4 * k, 4 * k + 4));
    lemma_u32_read(d, b, es[k].event_count);
}

/// The spans of the records that an index lists.
pub open spec fn listed_spans(es: Seq<IndexEntry>) -> Seq<RecordSpan> {
    Seq::new(
        es.len(),
        |k: int|
            RecordSpan {
                file_offset: es[k].position,
                record_length: es[k].record_length,
                first_event: indexed_events(es, k as nat) as u64,
                event_count: es[k].event_count,
            },
    )
}

/// The first `n` entries list as many events as their spans hold, and those can be numbered.
pub(crate) proof fn lemma_listed_events(es: Seq<IndexEntry>, n: nat)
    requires
        n <= es.len() <= u32::MAX,
    ensures
        indexed_events(es, n) <= n * u32::MAX,
        indexed_events(es, n) <= u64::MAX,
        events_before(listed_spans(es), n) == indexed_events(es, n),
    decreases n,
{
    if n > 0 {
        lemma_listed_events(es, (n - 1) as nat);
    }
    assert(n * u32::MAX <= u64::MAX) by (nonlinear_arith)
        requires
            n <= u32::MAX,
    ;
}

/// The entries from number `k` on, behind the spans of those before.
proof fn lemma_rows_listed(
    es: Seq<IndexEntry>,
    file_len: nat,
    first_data: int,
    trailer: int,
    k: nat,
)
    requires
        k <= es.len() <= u32::MAX,
        file_len <= i64::MAX,
        forall|j: int|
            0 <= j < es.len() ==> {
                &&& first_data <= (#[trigger] es[j]).position
                &&& es[j].position < trailer
                &&& es[j].position + es[j].record_length <= file_len
                &&& es[j].record_length <= i32::MAX
                &&& es[j].event_count <= i32::MAX
            },
    ensures
        rows_indexed(
            trailer_data(es),
            file_len,
            first_data,
            trailer,
            k,
            listed_spans(es).subrange(0, k as int),
        ) == Some(listed_spans(es)),
    decreases es.len() - k,
{
    let n = es.len();
    let bank = trailer_data(es);
    let all = listed_spans(es);
    let front = all.subrange(0, k as int);
    lemma_columns_at(es, n, 0);
    assert(bank.len() == 32 * n);
    if k < n {
        let e = es[k as int];
        lemma_trailer_row(es, k as int);
        lemma_listed_events(es, k);
        lemma_listed_events(es, k + 1);
        crate::wire::event_index::lemma_events_same(front, all, k);
        let next = with_span(front, e.position, e.record_length, e.event_count);
        assert(events_in(front) == indexed_events(es, k));
        assert(next =~= all.subrange(0, (k + 1) as int));
        lemma_rows_listed(es, file_len, first_data, trailer, k + 1);
    } else {
        assert(front =~= all);
    }
}

/// A record as its header says it is, of a size that an index can list.
pub open spec fn sound_record(record: Seq<u8>) -> bool {
    &&& 56 <= record.len() <= i32::MAX
    &&& RecordHeader::decoded(record) matches Ok(h) && {
        &&& h.record_length == record.len()
        &&& h.event_count <= i32::MAX
        &&& 4 * h.event_count <= h.index_array_length
    }
}

/// Every record that is built out of events is sound.
pub proof fn law_built_record_is_sound(
    record: Seq<u8>,
    events: Seq<Seq<u8>>,
    dict: DictView,
    compression: crate::write::record::Compression,
    id: RecordIdent,
)
    requires
        is_record(record, events, dict, compression, id),
    ensures
        sound_record(record),
        RecordHeader::decoded(record)->Ok_0.event_count == events.len(),
{
    lemma_record_header(record, events, dict, compression, id);
}

/// The writer can write its dictionary and tag names down, and its records are sound.
pub open spec fn sound_writer(w: WriterView) -> bool {
    &&& w.wf()
    &&& storable_dict(w.dict)
    &&& storable_tags(w.tags)
    &&& forall|k: int| 0 <= k < w.records.len() ==> sound_record(#[trigger] w.records[k])
}

/// The trailer closes the file of the writer, and the file is no larger than an index can list.
pub open spec fn sound_file(w: WriterView, trailer: Seq<u8>) -> bool {
    &&& sound_writer(w)
    &&& is_trailer(trailer, w.index())
    &&& 32 * w.records.len() < 0x100_0000
    &&& w.closed(trailer).len() <= i64::MAX
}

/// What stands where in a file: 56 bytes, the dictionary record, the records, and a tail.
pub(crate) proof fn lemma_parts(w: WriterView, head: Seq<u8>, tail: Seq<u8>, k: int)
    requires
        w.wf(),
        head.len() == 56,
    ensures
        ({
            let f = head + w.dict_record + concat(w.records) + tail;
            let start = w.front().len() as int;
            &&& f.subrange(0, 56) == head
            &&& start == 56 + w.dict_record.len()
            &&& f.subrange(56, start) == w.dict_record
            &&& w.file().len() == start + concat(w.records).len()
            &&& f.len() == w.file().len() + tail.len()
            &&& f.subrange(w.file().len() as int, f.len() as int) == tail
            &&& 0 <= k < w.records.len() ==> {
                let at = start + run_start(w.records, k);
                &&& w.index()[k].position == at
                &&& w.index()[k].record_length == w.records[k].len()
                &&& start <= at
                &&& at + w.records[k].len() <= w.file().len()
                &&& f.subrange(at, at + w.records[k].len()) == w.records[k]
            }
        }),
{
    let f = head + w.dict_record + concat(w.records) + tail;
    let start = w.front().len() as int;
    let body = concat(w.records);
    assert(f.subrange(0, 56) =~= head);
    assert(f.subrange(56, start) =~= w.dict_record);
    assert(f.subrange(w.file().len() as int, f.len() as int) =~= tail);
    if 0 <= k < w.records.len() {
        lemma_concat_at(w.records, k);
        let a = run_start(w.records, k);
        let b = a + w.records[k].len();
        assert(f.subrange(start + a, start + b) =~= body.subrange(a, b));
    }
}

/// What stands where in a file that starts with a header and a dictionary record.
proof fn lemma_file_parts(w: WriterView, h: FileHeader, tail: Seq<u8>, k: int)
    requires
        w.wf(),
    ensures
        ({
            let f = h.encoded() + w.dict_record + concat(w.records) + tail;
            let start = w.front().len() as int;
            &&& h.encoded().len() == 56
            &&& f.subrange(0, 56) == h.encoded()
            &&& start == 56 + w.dict_record.len()
            &&& f.subrange(56, start) == w.dict_record
            &&& w.file().len() == start + concat(w.records).len()
            &&& f.len() == w.file().len() + tail.len()
            &&& f.subrange(w.file().len() as int, f.len() as int) == tail
            &&& 0 <= k < w.records.len() ==> {
                let at = start + run_start(w.records, k);
                &&& w.index()[k].position == at
                &&& w.index()[k].record_length == w.records[k].len()
                &&& start <= at
                &&& at + w.records[k].len() <= w.file().len()
                &&& f.subrange(at, at + w.records[k].len()) == w.records[k]
            }
        }),
{
    lemma_parts(w, h.encoded(), tail, k);
}

/// Every record of a finished file is found where the index says, byte for byte.
pub proof fn law_written_record_is_found(w: WriterView, trailer: Seq<u8>, k: int)
    requires
        w.wf(),
        0 <= k < w.records.len(),
        sound_record(w.records[k]),
    ensures
        record_in(w.closed(trailer), w.index()[k].position as int) == Ok::<
            (RecordHeader, Seq<u8>),
            HipoError,
        >((RecordHeader::decoded(w.records[k])->Ok_0, w.records[k])),
{
    let h = closed_header(w.dict_record.len() as u32, w.file().len() as u64);
    lemma_file_parts(w, h, trailer, k);
    lemma_record_in(w.closed(trailer), w.index()[k].position as int, w.records[k]);
}

/// The dictionary record of a file says what the writer was given.
pub(crate) proof fn lemma_dictionary_found(w: WriterView, head: Seq<u8>, tail: Seq<u8>)
    requires
        sound_writer(w),
        head.len() == 56,
    ensures
        ({
            let d = dictionary_in(head + w.dict_record + concat(w.records) + tail, 56);
            &&& d.dict.schemas == w.dict.schemas
            &&& d.dict == added(w.dict.schemas, w.dict.schemas.len())
            &&& d.tags == w.tags
            &&& d.config.len() == 0
        }),
{
    let f = head + w.dict_record + concat(w.records) + tail;
    let events = dictionary_events(w.dict, w.tags);
    lemma_parts(w, head, tail, 0);
    lemma_block_in(f, 56, w.dict_record, events);
    law_dictionary_entries(w.dict, w.tags);
}

/// The trailer of a file holds the rows of its index.
pub(crate) proof fn lemma_trailer_bank(w: WriterView, head: Seq<u8>, trailer: Seq<u8>)
    requires
        sound_file(w, trailer),
        head.len() == 56,
    ensures
        index_bank_in(
            head + w.dict_record + concat(w.records) + trailer,
            w.file().len() as int,
        ) == Some(trailer_data(w.index())),
        trailer_data(w.index()).len() == 32 * w.records.len(),
{
    let f = head + w.dict_record + concat(w.records) + trailer;
    let es = w.index();
    let end = w.file().len() as int;
    lemma_parts(w, head, trailer, 0);
    let data = trailer_data(es);
    lemma_columns_at(es, es.len(), 0);
    lemma_block_in(f, end, trailer, seq![trailer_event(es)]);
    lemma_single_event(FILE_INDEX_GROUP, FILE_INDEX_ITEM, data);
    let sts = seq![single_structure(FILE_INDEX_GROUP, FILE_INDEX_ITEM, data)];
    assert(found(sts, FILE_INDEX_GROUP, FILE_INDEX_ITEM) == Some(sts[0]));
    let v = block_in(f, end)->Some_0;
    assert(v.events()[0] == v.event(0));
}

/// The trailer of a file lists its records.
proof fn lemma_trailer_lists(w: WriterView, trailer: Seq<u8>)
    requires
        sound_file(w, trailer),
    ensures
        trailer_indexed(w.closed(trailer), w.front().len() as int, w.file().len() as int) == Some(
            listed_spans(w.index()),
        ),
{
    let f = w.closed(trailer);
    let h = closed_header(w.dict_record.len() as u32, w.file().len() as u64);
    let es = w.index();
    let start = w.front().len() as int;
    let end = w.file().len() as int;
    lemma_file_parts(w, h, trailer, 0);
    lemma_trailer_bank(w, h.encoded(), trailer);
    assert forall|j: int| 0 <= j < es.len() implies {
        &&& start <= (#[trigger] es[j]).position
        &&& es[j].position < end
        &&& es[j].position + es[j].record_length <= f.len()
        &&& es[j].record_length <= i32::MAX
        &&& es[j].event_count <= i32::MAX
    } by {
        lemma_file_parts(w, h, trailer, j);
        assert(sound_record(w.records[j]));
    }
    lemma_rows_listed(es, f.len(), start, end, 0);
    assert(listed_spans(es).subrange(0, 0) =~= Seq::<RecordSpan>::empty());
}

/// The header of a file is read back.
pub(crate) proof fn lemma_header_found(w: WriterView, h: FileHeader, tail: Seq<u8>)
    requires
        w.wf(),
        h.header_length == 56,
        h.endianness == crate::wire::bytes::Endianness::Little,
        1 <= h.spec_version() <= 6,
    ensures
        ({
            let f = h.encoded() + w.dict_record + concat(w.records) + tail;
            &&& f.len() >= 56
            &&& FileHeader::decoded(f.subrange(0, 56)) == Ok::<FileHeader, HipoError>(h)
        }),
{
    lemma_file_parts(w, h, tail, 0);
    law_file_header_round_trip(h);
}

/// A finished file opens with its header, the schemas and tag names it was written with, and
/// the place and event count of every record, in order.
pub proof fn law_finished_file_opens(w: WriterView, trailer: Seq<u8>)
    requires
        sound_file(w, trailer),
    ensures
        file_opened(w.closed(trailer)) matches Ok(info) && {
            &&& info.header == closed_header(w.dict_record.len() as u32, w.file().len() as u64)
            &&& info.dictionary.dict.schemas == w.dict.schemas
            &&& info.dictionary.dict == added(w.dict.schemas, w.dict.schemas.len())
            &&& info.dictionary.tags == w.tags
            &&& info.dictionary.config.len() == 0
            &&& info.spans == listed_spans(w.index())
        },
{
    let h = closed_header(w.dict_record.len() as u32, w.file().len() as u64);
    lemma_file_parts(w, h, trailer, 0);
    lemma_header_found(w, h, trailer);
    lemma_dictionary_found(w, h.encoded(), trailer);
    lemma_trailer_lists(w, trailer);
}

/// The records from number `k` on are found by walking, behind the spans of those before.
proof fn lemma_walk(w: WriterView, k: nat)
    requires
        w.wf(),
        k <= w.records.len(),
        forall|i: int| 0 <= i < w.records.len() ==> sound_record(#[trigger] w.records[i]),
        forall|i: int| 0 <= i < w.records.len() ==> (#[trigger] w.index()[i]).event_count > 0,
    ensures
        scanned(
            w.file(),
            w.front().len() + run_start(w.records, k as int),
            0,
            false,
            listed_spans(w.index()).subrange(0, k as int),
        ) == Ok::<Seq<RecordSpan>, HipoError>(listed_spans(w.index())),
    decreases w.records.len() - k,
{
    let f = w.file();
    let h = open_header(w.dict_record.len() as u32);
    let es = w.index();
    let all = listed_spans(es);
    let front = all.subrange(0, k as int);
    let none = Seq::<u8>::empty();
    let at = w.front().len() + run_start(w.records, k as int);
    lemma_file_parts(w, h, none, k as int);
    assert(f =~= h.encoded() + w.dict_record + concat(w.records) + none);
    if k < w.records.len() {
        let record = w.records[k as int];
        let e = es[k as int];
        assert(sound_record(record));
        lemma_record_in(f, at, record);
        lemma_listed_events(es, k);
        lemma_listed_events(es, k + 1);
        crate::wire::event_index::lemma_events_same(front, all, k);
        assert(events_in(front) == indexed_events(es, k));
        assert(with_span(front, e.position, e.record_length, e.event_count) =~= all.subrange(
            0,
            (k + 1) as int,
        ));
        lemma_concat_step(w.records, k as int);
        lemma_walk(w, k + 1);
    } else {
        assert(w.records.subrange(0, k as int) =~= w.records);
        assert(front =~= all);
    }
}

/// A file that was never finished opens too: the records that were written out are found by
/// walking from one to the next.
pub proof fn law_unfinished_file_opens(w: WriterView)
    requires
        sound_writer(w),
        forall|k: int| 0 <= k < w.records.len() ==> (#[trigger] w.index()[k]).event_count > 0,
    ensures
        file_opened(w.file()) matches Ok(info) && {
            &&& info.header == open_header(w.dict_record.len() as u32)
            &&& info.dictionary.dict.schemas == w.dict.schemas
            &&& info.dictionary.dict == added(w.dict.schemas, w.dict.schemas.len())
            &&& info.dictionary.tags == w.tags
            &&& info.dictionary.config.len() == 0
            &&& info.spans == listed_spans(w.index())
        },
{
    let h = open_header(w.dict_record.len() as u32);
    let none = Seq::<u8>::empty();
    lemma_file_parts(w, h, none, 0);
    lemma_header_found(w, h, none);
    lemma_dictionary_found(w, h.encoded(), none);
    assert(w.file() =~= h.encoded() + w.dict_record + concat(w.records) + none);
    lemma_walk(w, 0);
    assert(w.records.subrange(0, 0) =~= Seq::<Seq<u8>>::empty());
    assert(listed_spans(w.index()).subrange(0, 0) =~= Seq::<RecordSpan>::empty());
}

/// A single-block record of these events.
pub open spec fn is_block_of(record: Seq<u8>, events: Seq<Seq<u8>>, kind: CompressionType) -> bool {
    exists|id: RecordIdent, packed: Seq<u8>| #[trigger]
        block_written(record, events, kind, id, packed)
}

/// Event `e` of record `k`, counted through the whole file, is the event that was written
/// there, byte for byte: a chain of one finished file gives back what its writer was given.
pub proof fn law_written_events_read_back(
    w: WriterView,
    trailer: Seq<u8>,
    kind: CompressionType,
    batches: Seq<Seq<Seq<u8>>>,
    c: ChainView,
    k: int,
    e: int,
)
    requires
        sound_file(w, trailer),
        c.files.len() == 1,
        c.files[0].bytes == w.closed(trailer),
        file_opened(w.closed(trailer)) == Ok::<FileInfo, HipoError>(c.files[0].info),
        kind.spec_layout() == Layout::PerChunk,
        kind.spec_codec() == Codec::Uncompressed ==> kind == CompressionType::Uncompressed,
        batches.len() == w.records.len(),
        forall|i: int|
            0 <= i < batches.len() ==> is_block_of(w.records[i], #[trigger] batches[i], kind),
        0 <= k < batches.len(),
        0 <= e < batches[k].len(),
    ensures
        c.event_at(indexed_events(w.index(), k as nat) + e) == Some(
            EventView::Bytes(batches[k][e]),
        ),
{
    let es = w.index();
    let idx = indexed_events(es, k as nat) + e;
    law_finished_file_opens(w, trailer);
    law_written_record_is_found(w, trailer, k);
    assert(is_block_of(w.records[k], batches[k], kind));
    lemma_block_event(w.records[k], batches[k], kind, c.dict, e);
    assert(es[k].event_count == batches[k].len());
    let p = Place { file: 0, record: k, event: e };
    assert(c.event_in(p) == Some(EventView::Bytes(batches[k][e])));
    lemma_listed_events(es, k as nat);
    lemma_all_numbered(es);
    lemma_one_file(c, idx, p);
}

/// An event of a single-block record is read back.
pub(crate) proof fn lemma_block_event(
    record: Seq<u8>,
    events: Seq<Seq<u8>>,
    kind: CompressionType,
    dict: DictView,
    e: int,
)
    requires
        is_block_of(record, events, kind),
        kind.spec_layout() == Layout::PerChunk,
        kind.spec_codec() == Codec::Uncompressed ==> kind == CompressionType::Uncompressed,
        0 <= e < events.len(),
    ensures
        stored_decoded(record, Some(dict)) matches Some(v) && v.events() == events.len()
            && v.event(e) == EventView::Bytes(events[e]),
        RecordHeader::decoded(record)->Ok_0.event_count == events.len(),
{
    let (id, packed) = choose|id: RecordIdent, packed: Seq<u8>| #[trigger]
        block_written(record, events, kind, id, packed);
    lemma_u32s_bytes_len(lens_of(events));
    law_block_record_reads_back(record, events, kind, id, packed, Some(dict));
    let h = header_of(kind, events.len(), concat(events).len(), packed.len(), id);
    lemma_header_writable(kind, events.len(), concat(events).len(), packed.len(), id);
    lemma_framed_reads_back(h, packed);
    let v = record_decoded(record, Some(dict))->Done_0;
    assert(v.events()[e] == v.event(e));
}

/// In a chain of one file, the event at a place is the event with the place's number.
pub(crate) proof fn lemma_one_file(c: ChainView, idx: int, p: Place)
    requires
        c.files.len() == 1,
        numbered(c.files[0].info.spans),
        p.file == 0,
        spans_event(c.files[0].info.spans, p.record, idx),
        p.event == idx - c.files[0].info.spans[p.record].first_event,
    ensures
        c.event_at(idx) == c.event_in(p),
{
    assert(events_base(c.files, 0) == 0);
    assert(c.is_place(idx, p));
    assert forall|i: int| 0 <= i < c.files.len() implies numbered(
        (#[trigger] c.files[i]).info.spans,
    ) by {
        assert(i == 0);
    }
    lemma_in_file(c, idx, p);
    let q = choose|q: Place| c.is_place(idx, q);
    law_one_place(c, idx, p, q);
}

/// The listed spans number the events one after the other.
pub(crate) proof fn lemma_all_numbered(es: Seq<IndexEntry>)
    requires
        es.len() <= u32::MAX,
    ensures
        numbered(listed_spans(es)),
{
    lemma_listed_events(es, es.len());
    assert forall|i: int| 0 <= i < es.len() implies (#[trigger] listed_spans(es)[i]).first_event
        == events_before(listed_spans(es), i as nat) by {
        lemma_listed_events(es, i as nat);
    }
}

} // verus!
