//! The parts of a file around its data records: the header, the dictionary record, and the
//! trailer that lists where the records are.

use vstd::prelude::*;
use crate::error::{HipoError, Result};
use crate::event::builders::EventBuilder;
#[allow(unused_imports)]
use crate::event::builders::EventBuilderView;
use crate::schema::dict::Dict;
#[allow(unused_imports)]
use crate::schema::dict::DictView;
#[allow(unused_imports)]
use crate::schema::text::schema_text;
use crate::schema::types::Schema;
#[allow(unused_imports)]
use crate::schema::types::SchemaView;
use crate::tag::TagRegistry;
#[allow(unused_imports)]
use crate::tag::tags_text;
#[allow(unused_imports)]
use crate::wire::bytes::{law_le16_round_trip, law_le32_round_trip, le16, le32, le64};
use crate::wire::bytes::{push_bytes, push_u16_le, push_u32_le, push_u64_le, Endianness};
use crate::wire::constants::{
    CompressionType, DICT_GROUP, DICT_ITEM, FILE_INDEX_GROUP, FILE_INDEX_ITEM, TAG_REGISTRY_ITEM,
};
use crate::wire::file_header::FileHeader;
#[allow(unused_imports)]
use crate::write::gather::bytes_of;
use crate::write::record::{build_single_block_record_bytes, RecordIdent};
#[allow(unused_imports)]
use crate::write::record::{block_overflows, is_block_record, payload_of};

verus! {

/// A structure that holds data as it is.
pub open spec fn text_bank(group: u16, item: u8, data: Seq<u8>) -> Seq<u8> {
    le16(group) + seq![item, 11u8] + le32(data.len() as u32) + data
}

/// An untagged event with one structure.
pub open spec fn single_event(group: u16, item: u8, data: Seq<u8>) -> Seq<u8> {
    (EventBuilderView { structures: text_bank(group, item, data), tag: 0 }).event()
}

/// The entry of a dictionary record for a schema: its text form.
pub open spec fn schema_event(s: SchemaView) -> Seq<u8> {
    single_event(DICT_GROUP, DICT_ITEM, vstd::utf8::encode_utf8(schema_text(s)))
}

/// The entry of a dictionary record for tag names: their text form.
pub open spec fn tags_event(reg: Seq<(Seq<char>, u32)>) -> Seq<u8> {
    single_event(DICT_GROUP, TAG_REGISTRY_ITEM, vstd::utf8::encode_utf8(tags_text(reg)))
}

/// The entries of a dictionary record: every schema in order, then the tag names, if any.
pub open spec fn dictionary_events(d: DictView, reg: Seq<(Seq<char>, u32)>) -> Seq<Seq<u8>> {
    let schemas = d.schemas.map_values(|s: SchemaView| schema_event(s));
    if reg.len() == 0 {
        schemas
    } else {
        schemas.push(tags_event(reg))
    }
}

/// The identity of records that are no data records.
pub open spec fn no_ident() -> RecordIdent {
    RecordIdent { record_number: 0, user_word_1: 0, user_word_2: 0 }
}

/// Where one data record is, and what its header says.
#[derive(Debug, Clone, Copy, PartialEq, Eq, Structural)]
pub struct IndexEntry {
    pub position: u64,
    pub record_length: u64,
    pub event_count: u32,
    pub user_word_1: u64,
    pub user_word_2: u64,
}

/// The positions of the first `n` records.
pub open spec fn positions(es: Seq<IndexEntry>, n: nat) -> Seq<u8>
    decreases n,
{
    if n == 0 {
        Seq::empty()
    } else {
        positions(es, (n - 1) as nat) + le64(es[n - 1].position)
    }
}

/// The lengths of the first `n` records, as far as they fit 32 bits.
pub open spec fn record_lengths(es: Seq<IndexEntry>, n: nat) -> Seq<u8>
    decreases n,
{
    if n == 0 {
        Seq::empty()
    } else {
        record_lengths(es, (n - 1) as nat) + le32(
            (es[n - 1].record_length % 0x1_0000_0000) as u32,
        )
    }
}

/// The event counts of the first `n` records.
pub open spec fn event_counts(es: Seq<IndexEntry>, n: nat) -> Seq<u8>
    decreases n,
{
    if n == 0 {
        Seq::empty()
    } else {
        event_counts(es, (n - 1) as nat) + le32(es[n - 1].event_count)
    }
}

/// The first user words of the first `n` records.
pub open spec fn first_words(es: Seq<IndexEntry>, n: nat) -> Seq<u8>
    decreases n,
{
    if n == 0 {
        Seq::empty()
    } else {
        first_words(es, (n - 1) as nat) + le64(es[n - 1].user_word_1)
    }
}

/// The second user words of the first `n` records.
pub open spec fn second_words(es: Seq<IndexEntry>, n: nat) -> Seq<u8>
    decreases n,
{
    if n == 0 {
        Seq::empty()
    } else {
        second_words(es, (n - 1) as nat) + le64(es[n - 1].user_word_2)
    }
}

/// The rows of the trailer's bank, column by column.
pub open spec fn trailer_data(es: Seq<IndexEntry>) -> Seq<u8> {
    positions(es, es.len()) + record_lengths(es, es.len()) + event_counts(es, es.len())
        + first_words(es, es.len()) + second_words(es, es.len())
}

/// The one event of a trailer.
pub open spec fn trailer_event(es: Seq<IndexEntry>) -> Seq<u8> {
    single_event(FILE_INDEX_GROUP, FILE_INDEX_ITEM, trailer_data(es))
}

/// `out` is a dictionary record.
pub open spec fn is_dictionary_record(out: Seq<u8>, d: DictView, reg: Seq<(Seq<char>, u32)>) -> bool {
    is_block_record(out, dictionary_events(d, reg), CompressionType::Uncompressed, no_ident())
}

/// `out` is a trailer that lists the given records.
pub open spec fn is_trailer(out: Seq<u8>, es: Seq<IndexEntry>) -> bool {
    is_block_record(out, seq![trailer_event(es)], CompressionType::Uncompressed, no_ident())
}

/// The header of a file whose records are still to come.
pub open spec fn open_header(dict_len: u32) -> FileHeader {
    FileHeader {
        file_number: 1,
        header_length: 56,
        record_count: 0,
        index_array_length: 0,
        bit_info: 0x5000_0106,
        user_header_length: dict_len,
        user_register: 0,
        trailer_position: 0,
        user_int1: 0,
        user_int2: 0,
        endianness: Endianness::Little,
    }
}

/// The header of a file whose trailer is at `trailer`.
pub open spec fn closed_header(dict_len: u32, trailer: u64) -> FileHeader {
    FileHeader { bit_info: 0x5000_0506, trailer_position: trailer, ..open_header(dict_len) }
}

/// The header of a file: with the position of its trailer, once that is known.
pub fn file_header(dict_len: u32, trailer: Option<u64>) -> (r: FileHeader)
    ensures
        r == match trailer {
            Some(t) => closed_header(dict_len, t),
            None => open_header(dict_len),
        },
{
    FileHeader {
        file_number: 1,
        header_length: 56,
        record_count: 0,
        index_array_length: 0,
        bit_info: match trailer {
            Some(_) => 0x5000_0506,
            None => 0x5000_0106,
        },
        user_header_length: dict_len,
        user_register: 0,
        trailer_position: match trailer {
            Some(t) => t,
            None => 0,
        },
        user_int1: 0,
        user_int2: 0,
        endianness: Endianness::Little,
    }
}

/// An untagged event with one structure. It must fit the size field of its header.
fn build_single_event(group: u16, item: u8, data: &[u8]) -> (r: Result<Vec<u8>>)
    ensures
        match r {
            Ok(v) => data.len() <= u32::MAX - 24 && v@ == single_event(group, item, data@),
            Err(e) => data.len() > u32::MAX - 24 && e is InvalidUsage,
        },
{
    if data.len() > u32::MAX as usize - 24 {
        return Err(HipoError::InvalidUsage { what: "event too large for its header" });
    }
    let mut bank: Vec<u8> = Vec::new();
    push_u16_le(&mut bank, group);
    bank.push(item);
    bank.push(11);
    push_u32_le(&mut bank, data.len() as u32);
    push_bytes(&mut bank, data);
    assert(bank@ =~= text_bank(group, item, data@));
    let mut b = EventBuilder::new();
    b.add_bank_bytes(bank.as_slice());
    proof {
        assert(b@.structures =~= bank@);
        law_le16_round_trip(group);
        law_le32_round_trip(data.len() as u32);
    }
    Ok(b.finish())
}

/// The entry of a dictionary record for a schema.
pub fn build_dictionary_event(schema: &Schema) -> (r: Result<Vec<u8>>)
    ensures
        match r {
            Ok(v) => v@ == schema_event(schema@),
            Err(e) => e is InvalidUsage && vstd::utf8::encode_utf8(schema_text(schema@)).len()
                > u32::MAX - 24,
        },
{
    let text = schema.to_text();
    build_single_event(DICT_GROUP, DICT_ITEM, text.as_str().as_bytes())
}

/// The events do not surely fit an uncompressed record.
pub open spec fn too_large(events: Seq<Seq<u8>>) -> bool {
    block_overflows(crate::wire::constants::Codec::Uncompressed, payload_of(events))
}

/// Some entry of the dictionary record is too large for an event.
pub open spec fn entry_too_large(d: DictView, reg: Seq<(Seq<char>, u32)>) -> bool {
    ||| exists|i: int|
        0 <= i < d.schemas.len() && vstd::utf8::encode_utf8(
            schema_text(#[trigger] d.schemas[i]),
        ).len() > u32::MAX - 24
    ||| vstd::utf8::encode_utf8(tags_text(reg)).len() > u32::MAX - 24
}

/// The dictionary record of a file: one event per schema, and one for the tag names.
pub fn build_dictionary_record(dict: &Dict, tags: &TagRegistry) -> (r: Result<Vec<u8>>)
    ensures
        match r {
            Ok(v) => is_dictionary_record(v@, dict@, tags@),
            Err(e) => {
                ||| e is InvalidUsage && entry_too_large(dict@, tags@)
                ||| e is Compression && too_large(dictionary_events(dict@, tags@))
            },
        },
{
    let schemas = dict.iter();
    let ghost all = dict@.schemas.map_values(|s: SchemaView| schema_event(s));
    let mut events: Vec<Vec<u8>> = Vec::new();
    let mut i: usize = 0;
    while i < schemas.len()
        invariant
            i <= schemas.len(),
            schemas.len() == dict@.schemas.len(),
            forall|k: int| 0 <= k < schemas.len() ==> (#[trigger] schemas@[k])@ == dict@.schemas[k],
            all == dict@.schemas.map_values(|s: SchemaView| schema_event(s)),
            events.len() == i,
            forall|k: int| 0 <= k < i ==> (#[trigger] events@[k])@ == all[k],
        decreases schemas.len() - i,
    {
        match build_dictionary_event(&schemas[i]) {
            Ok(v) => {
                events.push(v);
            },
            Err(e) => {
                assert(schemas@[i as int]@ == dict@.schemas[i as int]);
                return Err(e);
            },
        }
        i = i + 1;
    }
    if !tags.is_empty() {
        let text = tags.to_text();
        match build_single_event(DICT_GROUP, TAG_REGISTRY_ITEM, text.as_str().as_bytes()) {
            Ok(v) => {
                events.push(v);
            },
            Err(e) => {
                return Err(e);
            },
        }
    }
    assert(bytes_of(events@) =~= dictionary_events(dict@, tags@));
    build_single_block_record_bytes(
        events.as_slice(),
        CompressionType::Uncompressed,
        RecordIdent { record_number: 0, user_word_1: 0, user_word_2: 0 },
    )
}

/// The rows of the trailer's bank, column by column.
fn build_trailer_data(es: &[IndexEntry]) -> (r: Vec<u8>)
    ensures
        r@ == trailer_data(es@),
{
    let n: usize = es.len();
    let mut out: Vec<u8> = Vec::new();
    let mut i: usize = 0;
    assert(out@ =~= positions(es@, 0));
    while i < n
        invariant
            i <= n,
            n == es.len(),
            out@ == positions(es@, i as nat),
        decreases n - i,
    {
        push_u64_le(&mut out, es[i].position);
        i = i + 1;
    }
    let ghost a = out@;
    let mut i: usize = 0;
    assert(out@ =~= a + record_lengths(es@, 0));
    while i < n
        invariant
            i <= n,
            n == es.len(),
            out@ == a + record_lengths(es@, i as nat),
        decreases n - i,
    {
        let ghost before = out@;
        push_u32_le(&mut out, (es[i].record_length % 0x1_0000_0000) as u32);
        i = i + 1;
        assert(out@ =~= a + record_lengths(es@, i as nat));
    }
    let ghost b = out@;
    let mut i: usize = 0;
    assert(out@ =~= b + event_counts(es@, 0));
    while i < n
        invariant
            i <= n,
            n == es.len(),
            out@ == b + event_counts(es@, i as nat),
        decreases n - i,
    {
        push_u32_le(&mut out, es[i].event_count);
        i = i + 1;
        assert(out@ =~= b + event_counts(es@, i as nat));
    }
    let ghost c = out@;
    let mut i: usize = 0;
    assert(out@ =~= c + first_words(es@, 0));
    while i < n
        invariant
            i <= n,
            n == es.len(),
            out@ == c + first_words(es@, i as nat),
        decreases n - i,
    {
        push_u64_le(&mut out, es[i].user_word_1);
        i = i + 1;
        assert(out@ =~= c + first_words(es@, i as nat));
    }
    let ghost d = out@;
    let mut i: usize = 0;
    assert(out@ =~= d + second_words(es@, 0));
    while i < n
        invariant
            i <= n,
            n == es.len(),
            out@ == d + second_words(es@, i as nat),
        decreases n - i,
    {
        push_u64_le(&mut out, es[i].user_word_2);
        i = i + 1;
        assert(out@ =~= d + second_words(es@, i as nat));
    }
    out
}

/// The trailer of a file: an index bank that lists its data records.
pub fn build_trailer_record(es: &[IndexEntry]) -> (r: Result<Vec<u8>>)
    ensures
        match r {
            Ok(v) => is_trailer(v@, es@),
            Err(e) => {
                ||| e is InvalidUsage && trailer_data(es@).len() > u32::MAX - 24
                ||| e is Compression && too_large(seq![trailer_event(es@)])
            },
        },
{
    let data = build_trailer_data(es);
    let event = match build_single_event(FILE_INDEX_GROUP, FILE_INDEX_ITEM, data.as_slice()) {
        Ok(v) => v,
        Err(e) => {
            return Err(e);
        },
    };
    let mut events: Vec<Vec<u8>> = Vec::new();
    events.push(event);
    assert(bytes_of(events@) =~= seq![trailer_event(es@)]);
    build_single_block_record_bytes(
        events.as_slice(),
        CompressionType::Uncompressed,
        RecordIdent { record_number: 0, user_word_1: 0, user_word_2: 0 },
    )
}

} // verus!
