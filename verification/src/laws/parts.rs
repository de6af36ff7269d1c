//! The smaller operations: what they say of the value that they belong to, and of each other.

use vstd::prelude::*;
use crate::error::HipoError;
use crate::event::bank::Bank;
use crate::event::builders::{BankBuilder, EventBuilder};
use crate::event::composite::{Composite, CompositeField, CompositeFormat};
use crate::event::event::{Event, StructureHeader};
#[allow(unused_imports)]
use crate::laws::events::{length_at, lemma_header};
use crate::read::chain::Chain;
#[allow(unused_imports)]
use crate::read::chain::{events_base, records_before, ChainView};
use crate::read::column_data::{ColumnBuffers, ColumnData};
use crate::read::filter::Filter;
#[allow(unused_imports)]
use crate::read::inner::{header_in, FileView};
use crate::read::source::{has_pattern_mark, is_hipo_extension, path_kind, PathKind, ReadAt};
use crate::read::tagging::compression_label;
use crate::schema::dict::Dict;
use crate::schema::handle::{BankColumnType, ColumnHandle, Float32, Float64};
use crate::schema::types::{DataType, Schema, SchemaEntry};
use crate::tag::{check_tag_name, TagRegistry, TagSet};
use crate::wire::bytes::Endianness;
use crate::wire::constants::CompressionType;
use crate::wire::event_index::{FileEventIndex, RecordSpan};
#[allow(unused_imports)]
use crate::wire::event_index::{events_before, numbered};
use crate::wire::file_header::FileHeader;
use crate::wire::record::{Record, RecordIter};
use crate::write::event_writer::EventWriter;
use crate::write::record_builder::RecordBuilder;
use crate::write::row::BankWriter;
use crate::write::writer::{Writer, WriterBuilder, WriterOptions};

verus! {

/// An error is moved to the record that it came from. A corrupt record without a place gets the
/// record's; a bad magic number within a header is counted from the record; an error that has a
/// place or a path keeps it; any other is wrapped. A path wraps every error.
pub proof fn law_error_is_located(
    e: HipoError,
    at: u64,
    r: HipoError,
    path: String,
    with_path: HipoError,
)
    requires
        at <= u64::MAX - 56,
        call_ensures(HipoError::at_offset, (e, at), r),
        call_ensures(HipoError::with_path, (e, path), with_path),
    ensures
        e matches HipoError::CorruptRecord { offset, reason } ==> (r matches HipoError::CorruptRecord {
            offset: o,
            reason: x,
        } && x == reason && o == (if offset == 0 {
            at
        } else {
            offset
        })),
        e matches HipoError::BadMagic { offset, found, expected } ==> offset < 56 ==> (r matches HipoError::BadMagic {
            offset: o,
            found: f,
            expected: x,
        } && o == at + offset && f == found && x == expected),
        e is AtOffset || e is Path ==> r == e,
        !(e is CorruptRecord || e is AtOffset || e is Path) && !(e matches HipoError::BadMagic {
            offset,
            ..
        } && offset < 56) ==> (r matches HipoError::AtOffset { offset, source } && offset == at
            && *source == e),
        with_path matches HipoError::Path { path: p, source } && p == path && *source == e,
{
}

/// A walk over a record hands out its events in order, each as [`Record::event`] has it, and says
/// how many are still to come.
pub proof fn law_record_is_walked<'a, 'b>(
    rec: &'a Record,
    start: RecordIter<'a>,
    it: &'b mut RecordIter<'a>,
    i: u32,
    event: Option<&'a [u8]>,
    r: Option<&'a [u8]>,
    left: usize,
    cursor: &'b RecordIter<'a>,
)
    requires
        call_ensures(Record::iter, (rec,), start),
        call_ensures(Record::event, (rec, i), event),
        call_ensures(RecordIter::<'a>::next, (it,), r),
        call_ensures(RecordIter::<'a>::remaining, (cursor,), left),
        old(it)@ == (rec@, i as nat),
        cursor@ == (rec@, i as nat),
    ensures
        start@ == (rec@, 0nat),
        (r is Some) == (i < rec@.header.event_count),
        (event is Some) == (i < rec@.header.event_count),
        r matches Some(e) ==> e@ == event->0@ && final(it)@ == (rec@, i as nat + 1),
        r is None ==> final(it)@ == (rec@, i as nat),
        i <= rec@.header.event_count ==> left == rec@.header.event_count - i,
{
}

/// A structure's header is the eight bytes where the structure stands.
pub proof fn law_structure_header(buf: &[u8], pos: usize, h: StructureHeader)
    requires
        pos + 8 <= buf@.len(),
        call_ensures(StructureHeader::parse_at, (buf, pos), h),
    ensures
        h.group == buf@[pos as int] + buf@[pos + 1] * 0x100,
        h.item == buf@[pos + 2],
        h.ty == buf@[pos + 3],
        h.data_size == length_at(buf@, pos as int),
        h.header_size == buf@[pos + 7],
{
    lemma_header(buf@, pos as int);
}

/// [`StructureHeader::parse`] reads the header at the front of what it is given; fewer than eight
/// bytes hold none.
pub proof fn law_structure_header_in_front(buf: &[u8], r: Option<StructureHeader>)
    requires
        call_ensures(StructureHeader::parse, (buf,), r),
    ensures
        (r is Some) == (buf@.len() >= 8),
        r matches Some(h) ==> h.group == buf@[0] + buf@[1] * 0x100 && h.item == buf@[2] && h.ty
            == buf@[3] && h.data_size == length_at(buf@, 0) && h.header_size == buf@[7],
{
    if buf@.len() >= 8 {
        lemma_header(buf@, 0);
    }
}

/// The events of the first `n` records.
pub open spec fn span_events(spans: Seq<RecordSpan>, n: int) -> int
    decreases n,
{
    if n <= 0 {
        0
    } else {
        span_events(spans, n - 1) + spans[n - 1].event_count
    }
}

proof fn lemma_span_events(spans: Seq<RecordSpan>, n: nat)
    ensures
        events_before(spans, n) == span_events(spans, n as int),
    decreases n,
{
    if n > 0 {
        lemma_span_events(spans, (n - 1) as nat);
    }
}

/// A record that is added to an index comes last, with its place, length and number of events, and
/// starts at the event behind those of all before it. One whose events could not be numbered is left
/// out. The last record is taken away again by [`FileEventIndex::pop_last`].
pub proof fn law_record_is_indexed<'b>(
    empty: FileEventIndex,
    ix: &'b mut FileEventIndex,
    pos: u64,
    len: u64,
    events: u32,
    m: &'b mut FileEventIndex,
)
    requires
        call_ensures(FileEventIndex::new, (), empty),
        call_ensures(FileEventIndex::push, (ix, pos, len, events), ()),
        call_ensures(FileEventIndex::pop_last, (m,), ()),
    ensures
        empty@.len() == 0,
        ({
            let s = old(ix)@;
            let total = span_events(s, s.len() as int);
            let t = final(ix)@;
            if total + events <= u64::MAX {
                &&& t.len() == s.len() + 1
                &&& t.drop_last() == s
                &&& t.last().file_offset == pos
                &&& t.last().record_length == len
                &&& t.last().first_event == total
                &&& t.last().event_count == events
            } else {
                t == s
            }
        }),
        old(m)@.len() > 0 ==> final(m)@ == old(m)@.drop_last(),
        old(m)@.len() == 0 ==> final(m)@.len() == 0,
{
    let s = old(ix)@;
    lemma_span_events(s, s.len());
    assert(final(ix)@.len() > s.len() ==> final(ix)@.drop_last() =~= s);
}

/// An index finds the record and the event in it with a number: the events before it add up to the
/// number. It finds the numbers below the count of events and no other.
pub proof fn law_index_is_searched(
    ix: FileEventIndex,
    local: u64,
    r: Option<(usize, u32)>,
    total: u64,
    count: usize,
    records: &[RecordSpan],
)
    requires
        call_ensures(FileEventIndex::locate, (&ix, local), r),
        call_ensures(FileEventIndex::total_events, (&ix,), total),
        call_ensures(FileEventIndex::record_count, (&ix,), count),
        call_ensures(FileEventIndex::records, (&ix,), records),
    ensures
        records@ == ix@,
        count == ix@.len(),
        total == span_events(ix@, ix@.len() as int),
        (r is Some) == (local < total),
        r matches Some((i, e)) ==> i < ix@.len() && e < ix@[i as int].event_count && span_events(
            ix@,
            i as int,
        ) + e == local,
{
    lemma_span_events(ix@, ix@.len());
    if let Some((i, e)) = r {
        lemma_span_events(ix@, i as nat);
        lemma_span_events(ix@, (i + 1) as nat);
        assert(ix@[i as int].first_event == events_before(ix@, i as nat));
        lemma_before_grows(ix@, (i + 1) as nat, ix@.len());
    }
}

proof fn lemma_before_grows(spans: Seq<RecordSpan>, a: nat, b: nat)
    requires
        a <= b,
    ensures
        events_before(spans, a) <= events_before(spans, b),
    decreases b,
{
    if a < b {
        lemma_before_grows(spans, a, (b - 1) as nat);
    }
}

/// The records of the first `n` files.
pub open spec fn file_records(files: Seq<FileView>, n: int) -> int
    decreases n,
{
    if n <= 0 {
        0
    } else {
        file_records(files, n - 1) + files[n - 1].info.spans.len()
    }
}

/// The events of the first `n` files.
pub open spec fn file_events(files: Seq<FileView>, n: int) -> int
    decreases n,
{
    if n <= 0 {
        0
    } else {
        let spans = files[n - 1].info.spans;
        file_events(files, n - 1) + span_events(spans, spans.len() as int)
    }
}

proof fn lemma_files(files: Seq<FileView>, n: nat)
    ensures
        records_before(files, n) == file_records(files, n as int),
        events_base(files, n) == file_events(files, n as int),
    decreases n,
{
    if n > 0 {
        lemma_files(files, (n - 1) as nat);
        let spans = files[n - 1].info.spans;
        lemma_span_events(spans, spans.len());
    }
}

/// A chain says how many files, records and events it has, and the header of its first file.
pub proof fn law_chain_is_counted<S: ReadAt>(
    chain: &Chain<S>,
    files: usize,
    empty: bool,
    records: usize,
    events: u64,
    header: Option<&FileHeader>,
    offsets: &[u64],
    i: int,
)
    requires
        call_ensures(Chain::<S>::file_count, (chain,), files),
        call_ensures(Chain::<S>::is_empty, (chain,), empty),
        call_ensures(Chain::<S>::record_count, (chain,), records),
        call_ensures(Chain::<S>::event_count, (chain,), events),
        call_ensures(Chain::<S>::file_header, (chain,), header),
        call_ensures(Chain::<S>::event_offsets, (chain,), offsets),
    ensures
        files == chain@.files.len(),
        empty == (files == 0),
        file_records(chain@.files, files as int) <= usize::MAX ==> records == file_records(
            chain@.files,
            files as int,
        ),
        events == file_events(chain@.files, files as int),
        (header is Some) == (files > 0),
        header matches Some(h) ==> *h == chain@.files[0].info.header,
        offsets@.len() == files + 1,
        0 <= i <= files ==> offsets@[i] == file_events(chain@.files, i),
{
    lemma_files(chain@.files, files as nat);
    if 0 <= i <= files {
        lemma_files(chain@.files, i as nat);
        assert(offsets@[i] == chain@.base(i));
    }
}

/// A chain finds the file with an event by its number: the events of the files before it and the
/// event's number in the file add up to it.
pub proof fn law_file_of_an_event<S: ReadAt>(
    chain: &Chain<S>,
    idx: u64,
    r: Option<(usize, u64)>,
    events: u64,
)
    requires
        call_ensures(Chain::<S>::file_of, (chain, idx), r),
        call_ensures(Chain::<S>::event_count, (chain,), events),
    ensures
        idx >= events ==> r is None,
        idx < events ==> (r matches Some((f, local)) && f < chain@.files.len() && file_events(
            chain@.files,
            f as int,
        ) + local == idx && idx < file_events(chain@.files, f + 1)),
{
    if let Some((f, local)) = r {
        lemma_files(chain@.files, f as nat);
        lemma_files(chain@.files, (f + 1) as nat);
        lemma_base_grows(chain@.files, (f + 1) as nat, chain@.files.len());
    }
}

proof fn lemma_base_grows(files: Seq<FileView>, a: nat, b: nat)
    requires
        a <= b,
    ensures
        events_base(files, a) <= events_base(files, b),
    decreases b,
{
    if a < b {
        lemma_base_grows(files, a, (b - 1) as nat);
    }
}

/// [`Dict::require`] finds what [`Dict::get`] finds, and names what it does not find. A new
/// dictionary is empty; a dictionary counts and lists its schemas.
pub proof fn law_dict_parts<'a>(
    none: Dict,
    d: &'a Dict,
    name: &str,
    found: Option<&'a Schema>,
    r: Result<&'a Schema, HipoError>,
    n: usize,
    empty: bool,
    all: &'a [Schema],
    i: int,
)
    requires
        call_ensures(Dict::new, (), none),
        call_ensures(Dict::get, (d, name), found),
        call_ensures(Dict::require, (d, name), r),
        call_ensures(Dict::len, (d,), n),
        call_ensures(Dict::is_empty, (d,), empty),
        call_ensures(Dict::iter, (d,), all),
    ensures
        none@.schemas.len() == 0,
        (r is Ok) == (found is Some),
        r matches Ok(s) ==> s@ == found->0@,
        r matches Err(e) ==> (e matches HipoError::UnknownSchema { name: x } && x@ == name@),
        n == d@.schemas.len(),
        empty == (d@.schemas.len() == 0),
        all@.len() == n,
        0 <= i < n ==> all@[i]@ == d@.schemas[i],
{
}

/// [`Dict::add`] does what [`Dict::try_add`] does where there is room.
pub proof fn law_schema_is_added_alike<'b>(
    d: &'b mut Dict,
    m: &'b mut Dict,
    schema: Schema,
    r: &'b Schema,
    tried: Result<&'b Schema, HipoError>,
)
    requires
        *old(d) == *old(m),
        call_requires(Dict::add, (d, schema)),
        call_ensures(Dict::add, (d, schema), r),
        call_ensures(Dict::try_add, (m, schema), tried),
        old(d)@.named(schema@.name) is Some || old(d)@.schemas.len() < 65536,
    ensures
        tried is Ok,
        r@ == schema@,
        final(d)@ == final(m)@,
{
}

/// A schema has the name and the id that it was made with, no columns at first, and says what it
/// holds.
pub proof fn law_schema_parts<'a>(
    name: &str,
    group: u16,
    item: u8,
    fresh: Schema,
    s: &'a Schema,
    n: &'a str,
    g: u16,
    t: u8,
    entries: &'a [SchemaEntry],
    cols: usize,
    row: u32,
    i: int,
)
    requires
        call_ensures(Schema::new, (name, group, item), fresh),
        call_ensures(Schema::name, (s,), n),
        call_ensures(Schema::group, (s,), g),
        call_ensures(Schema::item, (s,), t),
        call_ensures(Schema::entries, (s,), entries),
        call_ensures(Schema::num_columns, (s,), cols),
        call_ensures(Schema::row_size, (s,), row),
    ensures
        fresh@.name == name@ && fresh@.group == group && fresh@.item == item,
        fresh@.entries.len() == 0 && fresh@.row_size == 0,
        n@ == s@.name,
        g == s@.group && t == s@.item && row == s@.row_size,
        cols == s@.entries.len() && entries@.len() == cols,
        0 <= i < cols ==> entries@[i]@ == s@.entries[i],
{
}

/// A handle stands for the column that it was made with; the placeholder stands for none.
pub proof fn law_handle_parts<T: BankColumnType>(
    col: u16,
    h: ColumnHandle<T>,
    index: usize,
    none: ColumnHandle<T>,
    is_none: bool,
    is_none_too: bool,
)
    requires
        call_ensures(ColumnHandle::<T>::from_index, (col,), h),
        call_ensures(ColumnHandle::<T>::column_index, (&h,), index),
        call_ensures(ColumnHandle::<T>::is_placeholder, (&h,), is_none),
        call_ensures(ColumnHandle::<T>::placeholder, (), none),
        call_ensures(ColumnHandle::<T>::is_placeholder, (&none,), is_none_too),
    ensures
        index == col,
        is_none == (col == 0xffff),
        is_none_too,
{
}

/// A bank says its schema and its rows.
pub proof fn law_bank_parts<'b>(b: &Bank<'b>, schema: &'b Schema, rows: u32, empty: bool)
    requires
        call_ensures(Bank::<'b>::schema, (b,), schema),
        call_ensures(Bank::<'b>::rows, (b,), rows),
        call_ensures(Bank::<'b>::is_empty, (b,), empty),
    ensures
        schema@ == b@.schema,
        rows == b@.rows,
        empty == (rows == 0),
{
}

/// Bytes that are no whole number of rows are refused by [`Bank::new_owned`]; [`Bank::new_lossy`]
/// drops what is left behind the last row.
pub proof fn law_bank_of_odd_bytes<'b>(
    schema: &'b Schema,
    data: &'b [u8],
    lossy: Bank<'b>,
    owned: Vec<u8>,
    r: Result<Bank<'b>, HipoError>,
)
    requires
        schema@.row_size > 0,
        owned@ == data@,
        call_ensures(Bank::<'b>::new_lossy, (schema, data), lossy),
        call_ensures(Bank::<'b>::new_owned, (schema, owned), r),
    ensures
        lossy@.schema == schema@,
        lossy@.rows * schema@.row_size <= data@.len() < (lossy@.rows + 1) * schema@.row_size,
        lossy@.data == data@.subrange(0, lossy@.rows * schema@.row_size),
        (r is Ok) == (lossy@.rows * schema@.row_size == data@.len()),
        r matches Ok(b) ==> b@.schema == schema@ && b@.data == data@ && b@.rows == lossy@.rows,
        r matches Err(e) ==> e is CorruptRecord,
{
    let n = data@.len();
    let w = schema@.row_size as nat;
    let q = lossy@.rows;
    assert(q * w <= n < (q + 1) * w && (n % w == 0) == (q * w == n)) by (nonlinear_arith)
        requires
            w > 0,
            q == n / w,
    ;
}

/// A composite says what it holds: as many rows as it has, and its fields in order.
pub proof fn law_composite_parts<'a, 'b>(
    c: &'a Composite<'b>,
    rows: u32,
    empty: bool,
    fields: &'a [CompositeField],
    i: int,
)
    requires
        call_ensures(Composite::<'b>::rows, (c,), rows),
        call_ensures(Composite::<'b>::is_empty, (c,), empty),
        call_ensures(Composite::<'b>::fields, (c,), fields),
    ensures
        rows == c@.rows,
        empty == (rows == 0),
        fields@.len() == c@.types.len(),
        0 <= i < fields@.len() ==> fields@[i].ty == c@.types[i],
{
}

/// A format says its fields and how long a row is.
pub proof fn law_format_parts<'a>(f: &'a CompositeFormat, fields: &'a [CompositeField], row: u32)
    requires
        call_ensures(CompositeFormat::fields, (f,), fields),
        call_ensures(CompositeFormat::row_size, (f,), row),
    ensures
        fields@ == f.fields@,
        row == f.row_size,
{
}

/// A value added to a column of its own type comes last; a column of another type stays as it is.
/// A column that is made for a type is empty and of that type.
pub proof fn law_value_is_added<'b>(
    a: &'b mut ColumnData,
    b: &'b mut ColumnData,
    c: &'b mut ColumnData,
    d: &'b mut ColumnData,
    e: &'b mut ColumnData,
    f: &'b mut ColumnData,
    va: i8,
    vb: i16,
    vc: i32,
    vd: i64,
    ve: Float32,
    vf: Float64,
)
    requires
        call_ensures(ColumnData::push_i8, (a, va), ()),
        call_ensures(ColumnData::push_i16, (b, vb), ()),
        call_ensures(ColumnData::push_i32, (c, vc), ()),
        call_ensures(ColumnData::push_i64, (d, vd), ()),
        call_ensures(ColumnData::push_f32, (e, ve), ()),
        call_ensures(ColumnData::push_f64, (f, vf), ()),
    ensures
        *old(a) matches ColumnData::I8(x) ==> (*final(a) matches ColumnData::I8(y) && y@ == x@.push(va)),
        *old(b) matches ColumnData::I16(x) ==> (*final(b) matches ColumnData::I16(y) && y@ == x@.push(vb)),
        *old(c) matches ColumnData::I32(x) ==> (*final(c) matches ColumnData::I32(y) && y@ == x@.push(vc)),
        *old(d) matches ColumnData::I64(x) ==> (*final(d) matches ColumnData::I64(y) && y@ == x@.push(vd)),
        *old(e) matches ColumnData::F32(x) ==> (*final(e) matches ColumnData::F32(y) && y@ == x@.push(ve)),
        *old(f) matches ColumnData::F64(x) ==> (*final(f) matches ColumnData::F64(y) && y@ == x@.push(vf)),
        !(*old(a) is I8) ==> *final(a) == *old(a),
        !(*old(b) is I16) ==> *final(b) == *old(b),
        !(*old(c) is I32) ==> *final(c) == *old(c),
        !(*old(d) is I64) ==> *final(d) == *old(d),
        !(*old(e) is F32) ==> *final(e) == *old(e),
        !(*old(f) is F64) ==> *final(f) == *old(f),
{
}

/// A column says its type and length.
pub proof fn law_column_parts(
    dt: DataType,
    fresh: ColumnData,
    c: &ColumnData,
    ty: DataType,
    n: usize,
    empty: bool,
)
    requires
        call_ensures(ColumnData::empty_for, (dt,), fresh),
        call_ensures(ColumnData::data_type, (c,), ty),
        call_ensures(ColumnData::len, (c,), n),
        call_ensures(ColumnData::is_empty, (c,), empty),
    ensures
        match fresh {
            ColumnData::I8(v) => dt is Byte && v@.len() == 0,
            ColumnData::I16(v) => dt is Short && v@.len() == 0,
            ColumnData::I32(v) => dt is Int && v@.len() == 0,
            ColumnData::I64(v) => dt is Long && v@.len() == 0,
            ColumnData::F32(v) => dt is Float && v@.len() == 0,
            ColumnData::F64(v) => dt is Double && v@.len() == 0,
        },
        match *c {
            ColumnData::I8(v) => ty is Byte && n == v@.len(),
            ColumnData::I16(v) => ty is Short && n == v@.len(),
            ColumnData::I32(v) => ty is Int && n == v@.len(),
            ColumnData::I64(v) => ty is Long && n == v@.len(),
            ColumnData::F32(v) => ty is Float && n == v@.len(),
            ColumnData::F64(v) => ty is Double && n == v@.len(),
        },
        empty == (n == 0),
{
}

/// Columns of events have an offset for every event and one more, the last of which is the number
/// of rows.
pub proof fn law_buffers_are_counted(b: &ColumnBuffers, events: usize, rows: i64)
    requires
        b.offsets@.len() > 0,
        call_ensures(ColumnBuffers::event_count, (b,), events),
        call_ensures(ColumnBuffers::total_rows, (b,), rows),
    ensures
        events + 1 == b.offsets@.len(),
        rows == b.offsets@[events as int],
{
}

/// A new filter asks for nothing. A filter is valid where the dictionary has a schema for every
/// name that it asks for; else the first name without one is returned.
pub proof fn law_filter_is_validated(
    fresh: Filter,
    f: &Filter,
    dict: &Dict,
    r: Result<(), HipoError>,
    i: int,
)
    requires
        call_ensures(Filter::new, (), fresh),
        call_ensures(Filter::validate, (f, dict), r),
    ensures
        fresh@.names.len() == 0 && fresh@.ids.len() == 0 && fresh@.record_tags.len() == 0,
        r is Ok && 0 <= i < f@.names.len() ==> dict@.named(f@.names[i]) is Some,
        r matches Err(e) ==> (e matches HipoError::UnknownSchema { name } && dict@.named(name@)
            is None && f@.names.contains(name@)),
{
}

/// A registry counts and lists its names. No bits are set in the empty set.
pub proof fn law_registry_parts<'a>(
    none: TagRegistry,
    reg: &'a TagRegistry,
    n: usize,
    empty: bool,
    all: &'a [(String, u32)],
    i: int,
    set: TagSet,
)
    requires
        call_ensures(TagRegistry::new, (), none),
        call_ensures(TagRegistry::len, (reg,), n),
        call_ensures(TagRegistry::is_empty, (reg,), empty),
        call_ensures(TagRegistry::iter, (reg,), all),
        call_ensures(TagSet::empty, (), set),
    ensures
        none@.len() == 0,
        n == reg@.len() && all@.len() == n,
        empty == (n == 0),
        0 <= i < n ==> all@[i].0@ == reg@[i].0 && all@[i].1 == reg@[i].1,
        set@ == 0,
{
    if 0 <= i < n {
        assert(reg@[i] == (all@[i].0@, all@[i].1));
    }
}

/// The name of a bit is the first that a registry has for it.
pub proof fn law_name_of_a_bit<'a>(reg: &'a TagRegistry, bit: u32, name: Option<&'a str>, i: int)
    requires
        call_ensures(TagRegistry::name, (reg, bit), name),
        0 <= i < reg@.len(),
        reg@[i].1 == bit,
        forall|k: int| 0 <= k < i ==> (#[trigger] reg@[k]).1 != bit,
    ensures
        name matches Some(x) && x@ == reg@[i].0,
{
    assert(crate::tag::has_name(reg@, bit));
    if let Some(x) = name {
        let j = choose|j: int|
            0 <= j < reg@.len() && #[trigger] reg@[j] == (x@, bit) && forall|k: int|
                0 <= k < j ==> (#[trigger] reg@[k]).1 != bit;
        assert(reg@[j].1 == bit);
    }
}

/// A tag name may not be empty, hold `=` or a line feed, nor begin or end with a blank; the name
/// that is refused comes back.
pub proof fn law_tag_name_is_checked(name: &str, r: Result<(), HipoError>, i: int)
    requires
        call_ensures(check_tag_name, (name,), r),
    ensures
        r is Ok ==> name@.len() > 0,
        r is Ok && 0 <= i < name@.len() ==> name@[i] != '=' && name@[i] != '\n',
        r is Ok ==> name@[0] != ' ' && name@.last() != ' ' && name@[0] != '\t' && name@.last()
            != '\t',
        name@.len() > 0 && (forall|k: int|
            0 <= k < name@.len() ==> #[trigger] name@[k] != '=' && name@[k] != '\n') && !crate::text::is_space(
            name@[0],
        ) && !crate::text::is_space(name@.last()) ==> r is Ok,
        r matches Err(e) ==> (e matches HipoError::InvalidTagName { name: n, .. } && n@ == name@),
{
}

/// The magic number of a header tells its byte order.
pub proof fn law_byte_order(magic: u32, r: Option<Endianness>)
    requires
        call_ensures(Endianness::from_magic, (magic,), r),
    ensures
        (r matches Some(Endianness::Little)) == (magic == 0xc0da0100),
        (r matches Some(Endianness::Big)) == (magic == 0x0001dac0),
{
}

/// A path is a directory or a file where it exists, else a pattern where it holds one of `*`, `?`
/// and `[`, else missing. The extension of a file counts in any case of its letters.
pub proof fn law_paths(
    is_dir: bool,
    is_file: bool,
    text: &str,
    r: PathKind,
    mark: bool,
    hipo: bool,
)
    requires
        call_ensures(path_kind, (is_dir, is_file, Some(text)), r),
        call_ensures(has_pattern_mark, (text,), mark),
        call_ensures(is_hipo_extension, (text,), hipo),
    ensures
        mark == (text@.contains('*') || text@.contains('?') || text@.contains('[')),
        (r is Directory) == is_dir,
        (r is File) == (!is_dir && is_file),
        (r is Pattern) == (!is_dir && !is_file && mark),
        (r is Missing) == (!is_dir && !is_file && !mark),
        hipo == (text@.len() == 4 && (text@[0] == 'h' || text@[0] == 'H') && (text@[1] == 'i'
            || text@[1] == 'I') && (text@[2] == 'p' || text@[2] == 'P') && (text@[3] == 'o'
            || text@[3] == 'O')),
{
    let s = text@;
    if mark {
        let i = choose|i: int|
            0 <= i < s.len() && crate::read::source::is_pattern_mark(#[trigger] s[i]);
        assert(s.contains(s[i]));
    } else {
        if s.contains('*') {
            let i = choose|i: int| 0 <= i < s.len() && s[i] == '*';
            assert(crate::read::source::is_pattern_mark(s[i]));
        }
        if s.contains('?') {
            let i = choose|i: int| 0 <= i < s.len() && s[i] == '?';
            assert(crate::read::source::is_pattern_mark(s[i]));
        }
        if s.contains('[') {
            let i = choose|i: int| 0 <= i < s.len() && s[i] == '[';
            assert(crate::read::source::is_pattern_mark(s[i]));
        }
    }
}

/// Every compression has a label of its own, of lower-case letters and digits alone.
pub proof fn law_compression_labels(c: CompressionType, r: &'static str)
    requires
        call_ensures(compression_label, (c,), r),
    ensures
        r@ == (match c {
            CompressionType::Uncompressed => "none",
            CompressionType::Lz4 => "lz4",
            CompressionType::Lz4Best => "lz4best",
            CompressionType::Gzip => "gzip",
            CompressionType::ZstdPerChunk => "zstd",
            CompressionType::ZstdPerBank => "zstdperbank",
            CompressionType::ZstdPerColumn => "zstdpercolumn",
            CompressionType::Lz4PerBank => "lz4perbank",
            CompressionType::Lz4PerColumn => "lz4percolumn",
            CompressionType::Lz4FastPerBank => "lz4fastperbank",
            CompressionType::Lz4FastPerColumn => "lz4fastpercolumn",
            CompressionType::GzipPerBank => "gzipperbank",
            CompressionType::GzipPerColumn => "gzippercolumn",
            CompressionType::NonePerBank => "noneperbank",
            CompressionType::NonePerColumn => "nonepercolumn",
        })@,
{
}

/// A record builder starts empty. A user word that is set is the one that is there; the rest stays.
/// A reset takes the events away and keeps the words.
pub proof fn law_record_builder_parts<'b>(
    fresh: RecordBuilder,
    b: &RecordBuilder,
    one: u64,
    two: u64,
    empty: bool,
    m: &'b mut RecordBuilder,
    n: &'b mut RecordBuilder,
    k: &'b mut RecordBuilder,
    v: u64,
)
    requires
        call_ensures(RecordBuilder::new, (), fresh),
        call_ensures(RecordBuilder::user_word_1, (b,), one),
        call_ensures(RecordBuilder::user_word_2, (b,), two),
        call_ensures(RecordBuilder::is_empty, (b,), empty),
        call_ensures(RecordBuilder::set_user_word_1, (m, v), ()),
        call_ensures(RecordBuilder::set_user_word_2, (n, v), ()),
        call_ensures(RecordBuilder::reset, (k,), ()),
    ensures
        fresh@.events.len() == 0 && fresh@.user_word_1 == 0 && fresh@.user_word_2 == 0,
        one == b@.user_word_1 && two == b@.user_word_2,
        empty == (b@.events.len() == 0),
        final(m)@.user_word_1 == v && final(m)@.user_word_2 == old(m)@.user_word_2
            && final(m)@.events == old(m)@.events,
        final(n)@.user_word_2 == v && final(n)@.user_word_1 == old(n)@.user_word_1
            && final(n)@.events == old(n)@.events,
        final(k)@.events.len() == 0 && final(k)@.user_word_1 == old(k)@.user_word_1
            && final(k)@.user_word_2 == old(k)@.user_word_2,
{
}

/// An event under construction starts without a tag and without structures, over the dictionary
/// that it is given. A tag that is set is the one that is there; bytes that are added come last.
pub proof fn law_event_writer_parts<'a, 'b>(
    dict: &'a Dict,
    fresh: EventWriter<'a>,
    w: &EventWriter<'a>,
    tag: u32,
    m: &'b mut EventWriter<'a>,
    t: u32,
    r: &'b mut EventWriter<'a>,
    n: &'b mut EventWriter<'a>,
    bytes: &[u8],
    s: &'b mut EventWriter<'a>,
)
    requires
        call_ensures(EventWriter::<'a>::new, (dict,), fresh),
        call_ensures(EventWriter::<'a>::tag, (w,), tag),
        call_ensures(EventWriter::<'a>::with_tag, (m, t), r),
        call_ensures(EventWriter::<'a>::add_bank_bytes, (n, bytes), s),
    ensures
        fresh@.dict == dict@ && fresh@.event.tag == 0 && fresh@.event.structures.len() == 0,
        tag == w@.event.tag,
        old(r)@.event.tag == t && old(r)@.dict == old(m)@.dict && old(r)@.event.structures
            == old(m)@.event.structures,
        *final(m) == *final(r),
        old(s)@.event.structures == old(n)@.event.structures + bytes@ && old(s)@.event.tag
            == old(n)@.event.tag && old(s)@.dict == old(n)@.dict,
        *final(n) == *final(s),
{
}

/// [`EventWriter::finish`] writes what [`EventBuilder::finish_into`] writes of the same tag and
/// structures, as long as the length of the event can be written.
pub proof fn law_event_is_finished_alike<'a, 'b>(
    w: EventWriter<'a>,
    r: Result<Vec<u8>, HipoError>,
    b: &EventBuilder,
    out: &'b mut Vec<u8>,
    size: usize,
)
    requires
        b@ == w@.event,
        16 + b@.structures.len() <= usize::MAX,
        call_ensures(EventWriter::<'a>::finish, (w,), r),
        call_ensures(EventBuilder::finish_into, (b, out), ()),
        call_ensures(EventBuilder::finished_size, (b,), size),
    ensures
        size == 16 + b@.structures.len(),
        (r is Ok) == (size <= u32::MAX),
        r matches Ok(v) ==> final(out)@ == old(out)@ + v@,
        r matches Err(e) ==> e is InvalidUsage,
{
}

/// An event builder that is reset has neither tag nor structures; one whose tag is set keeps its
/// structures.
pub proof fn law_event_builder_is_reset<'b>(
    m: &'b mut EventBuilder,
    n: &'b mut EventBuilder,
    tag: u32,
    r: &'b mut EventBuilder,
)
    requires
        call_ensures(EventBuilder::reset, (m,), ()),
        call_ensures(EventBuilder::set_tag, (n, tag), r),
    ensures
        final(m)@.tag == 0 && final(m)@.structures.len() == 0,
        old(r)@.tag == tag && old(r)@.structures == old(n)@.structures,
        *final(n) == *final(r),
{
}

/// A bank builder starts without rows, whatever memory it is given, and does so again when it is
/// reset. A bank writer is over the builder that it is given, and gives it back.
pub proof fn law_bank_builder_starts_empty<'s, 'b>(
    schema: &'s Schema,
    rows: u32,
    a: BankBuilder<'s>,
    buffers: Vec<Vec<u8>>,
    b: BankBuilder<'s>,
    m: &'b mut BankBuilder<'s>,
    of: &'s Schema,
    w: BankWriter<'s>,
    back: BankBuilder<'s>,
    c: int,
)
    requires
        call_ensures(BankBuilder::<'s>::with_row_capacity, (schema, rows), a),
        call_ensures(BankBuilder::<'s>::with_buffers, (schema, buffers), b),
        call_ensures(BankBuilder::<'s>::reset, (m,), ()),
        call_ensures(BankBuilder::<'s>::schema, (&a,), of),
        call_ensures(BankWriter::<'s>::new, (a,), w),
        call_ensures(BankWriter::<'s>::into_inner, (w,), back),
    ensures
        a@.rows == 0 && a@.schema == schema@ && a@.columns.len() == schema@.entries.len(),
        b@.rows == 0 && b@.schema == schema@ && b@.columns.len() == schema@.entries.len(),
        0 <= c < schema@.entries.len() ==> a@.columns[c].len() == 0 && b@.columns[c].len() == 0,
        final(m)@.rows == 0 && final(m)@.schema == old(m)@.schema && final(m)@.columns.len()
            == old(m)@.schema.entries.len(),
        0 <= c < old(m)@.schema.entries.len() ==> final(m)@.columns[c].len() == 0,
        of@ == schema@,
        back@ == a@,
{
}

/// A writer is described by its builder: every setting replaces what it is about and keeps the
/// rest.
pub proof fn law_writer_is_described(
    start: WriterBuilder,
    start_too: WriterBuilder,
    b: WriterBuilder,
    dict: &Dict,
    with_dict: WriterBuilder,
    tags: &TagRegistry,
    with_tags: WriterBuilder,
    options: WriterOptions,
    with_options: WriterBuilder,
)
    requires
        call_ensures(WriterBuilder::new, (), start),
        call_ensures(Writer::create, (), start_too),
        call_ensures(WriterBuilder::schemas, (b, dict), with_dict),
        call_ensures(WriterBuilder::tag_registry, (b, tags), with_tags),
        call_ensures(WriterBuilder::options, (b, options), with_options),
    ensures
        start@ == start_too@,
        start@.dict.schemas.len() == 0 && start@.tags.len() == 0,
        with_dict@.dict == dict@ && with_dict@.tags == b@.tags && with_dict@.options == b@.options,
        with_tags@.tags == tags@ && with_tags@.dict == b@.dict && with_tags@.options == b@.options,
        with_options@.options == options && with_options@.dict == b@.dict && with_options@.tags
            == b@.tags,
{
}

/// A writer that is built has the dictionary, the tags and the options of its builder, and no event
/// yet.
pub proof fn law_writer_is_built<'a>(
    b: WriterBuilder,
    r: Result<Writer, HipoError>,
    w: &'a Writer,
    schemas: &'a Dict,
    options: &'a WriterOptions,
)
    requires
        call_ensures(WriterBuilder::build, (b,), r),
        call_ensures(Writer::schemas, (w,), schemas),
        call_ensures(Writer::options, (w,), options),
    ensures
        r matches Ok(x) ==> x@.dict == b@.dict && x@.tags == b@.tags && x@.options == b@.options
            && x@.records.len() == 0 && x@.pending.events.len() == 0 && x@.pending.user_word_1 == 0
            && x@.pending.user_word_2 == 0,
        schemas@ == w@.dict,
        *options == w@.options,
{
}

/// An event is over the bytes that it is made of.
pub proof fn law_event_parts<'a>(buf: &'a [u8], e: Event<'a>, raw: &'a [u8])
    requires
        call_ensures(Event::<'a>::new, (buf,), e),
        call_ensures(Event::<'a>::raw, (&e,), raw),
    ensures
        raw@ == buf@,
{
}

proof fn lemma_place_of_record(c: ChainView, n: nat, f: int, r: int)
    requires
        0 <= f < n <= c.files.len(),
        0 <= r < c.files[f].info.spans.len(),
    ensures
        c.records(n).len() == file_records(c.files, n as int),
        0 <= file_records(c.files, f) + r < c.records(n).len(),
        c.records(n)[file_records(c.files, f) + r] == (f, r),
    decreases n,
{
    let m = (n - 1) as nat;
    lemma_records_counted(c, m);
    lemma_records_counted(c, n);
    if f < m {
        lemma_place_of_record(c, m, f, r);
    }
}

proof fn lemma_records_counted(c: ChainView, n: nat)
    requires
        n <= c.files.len(),
    ensures
        c.records(n).len() == file_records(c.files, n as int),
    decreases n,
{
    if n > 0 {
        lemma_records_counted(c, (n - 1) as nat);
    }
}

/// The sizes of the records of a chain come file by file and record by record, whatever the filter:
/// for each the bytes of its index, user header, padding and data, as its header says.
pub proof fn law_record_sizes<S: ReadAt>(chain: &Chain<S>, sizes: Vec<u64>, f: int, r: int)
    requires
        call_ensures(
            Chain::<S>::record_decompressed_sizes,
            (chain,),
            Ok::<Vec<u64>, HipoError>(sizes),
        ),
        0 <= f < chain@.files.len(),
        0 <= r < chain@.files[f].info.spans.len(),
    ensures
        sizes@.len() == file_records(chain@.files, chain@.files.len() as int),
        0 <= file_records(chain@.files, f) + r < sizes@.len(),
        header_in(
            chain@.files[f].bytes,
            chain@.files[f].info.spans[r].file_offset as int,
        ) matches Ok(h) && sizes@[file_records(chain@.files, f) + r] == h.index_array_length
            + h.user_header_length + h.user_header_padding + h.data_length,
{
    let c = chain@;
    lemma_place_of_record(c, c.files.len(), f, r);
    let k = file_records(c.files, f) + r;
    let ts = c.records(c.files.len());
    assert(crate::read::columns::size_known(c, ts, k, sizes@[k]));
}

} // verus!
