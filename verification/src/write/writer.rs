//! Writing a file: events are gathered into records, and records are laid one after the other
//! between the file header and the trailer.
//!
//! A writer makes bytes and leaves it to its caller to store them: [`Writer::take_bytes`] hands
//! out what has been written since the last call, and [`Writer::finish`] the rest, together with
//! the header that goes over the first 56 bytes.

use vstd::prelude::*;
#[allow(unused_imports)]
use crate::compress::capped;
use crate::error::{HipoError, Result};
use crate::event::owned::OwnedEvent;
use crate::schema::dict::Dict;
#[allow(unused_imports)]
use crate::schema::dict::DictView;
#[allow(unused_imports)]
use crate::seqs::{concat, run_start};
use crate::tag::{check_tag_name, TagRegistry};
#[allow(unused_imports)]
use crate::tag::{declared_tags, valid_tag_name};
use crate::wire::bytes::{push_bytes, write_u32_le};
#[allow(unused_imports)]
use crate::wire::bytes::{law_le32_round_trip, le32, spliced};
#[allow(unused_imports)]
use crate::wire::constants::{
    CompressionType, EXT_FORMAT_VERSION_BY_BANK, EXT_FORMAT_VERSION_PER_COLUMN,
};
use crate::wire::constants::RH_RECORD_NUMBER;
use crate::wire::record_header::RecordHeader;
#[allow(unused_imports)]
use crate::wire::tables::lemma_u32s_bytes_len;
#[allow(unused_imports)]
use crate::write::columns::{flat_streams, per_column_dir, per_column_written};
use crate::write::event_writer::EventWriter;
#[allow(unused_imports)]
use crate::write::event_writer::EventWriterView;
use crate::write::file::{build_dictionary_record, build_trailer_record, file_header, IndexEntry};
#[allow(unused_imports)]
use crate::write::file::{
    no_ident, closed_header, dictionary_events, entry_too_large, is_dictionary_record, is_trailer,
    open_header, too_large, trailer_data, trailer_event,
};
use crate::write::record::{Compression, RecordIdent};
#[allow(unused_imports)]
use crate::write::record::{
    block_written, by_bank_dir, by_bank_written, framed, header_of, is_block_record,
    lemma_header_writable, lengths, lens_of, split_section, streams_of, SplitParts,
};
#[allow(unused_imports)]
use crate::write::round_trip::lemma_framed_reads_back;
use crate::write::record_builder::{build_record_bytes, RecordBuilder};
#[allow(unused_imports)]
use crate::write::record_builder::{is_record, may_not_fit, RecordBuilderView};

verus! {

/// How a writer cuts events into records.
#[derive(Debug, Clone, Copy, PartialEq, Eq, Structural)]
pub struct WriterOptions {
    pub compression: Compression,
    /// A record never holds more events than this.
    pub max_record_events: u32,
    /// A record with an event in it takes no more that would make its payload larger than this.
    pub max_record_bytes: usize,
}

impl WriterOptions {
    /// LZ4, a million events, eight MiB.
    pub open spec fn standard() -> WriterOptions {
        WriterOptions {
            compression: Compression::Lz4,
            max_record_events: 1_000_000,
            max_record_bytes: 8_388_608,
        }
    }

    pub fn with_compression(self, c: Compression) -> (r: Self)
        ensures
            r == (WriterOptions { compression: c, ..self }),
    {
        WriterOptions { compression: c, ..self }
    }

    pub fn with_max_record_events(self, n: u32) -> (r: Self)
        ensures
            r == (WriterOptions { max_record_events: n, ..self }),
    {
        WriterOptions { max_record_events: n, ..self }
    }

    pub fn with_max_record_bytes(self, n: usize) -> (r: Self)
        ensures
            r == (WriterOptions { max_record_bytes: n, ..self }),
    {
        WriterOptions { max_record_bytes: n, ..self }
    }
}

impl Default for WriterOptions {
    fn default() -> (r: Self)
        ensures
            r == WriterOptions::standard(),
    {
        WriterOptions {
            compression: Compression::Lz4,
            max_record_events: 1_000_000,
            max_record_bytes: 8_388_608,
        }
    }
}

/// What a finished writer wrote.
#[derive(Debug, Clone, Copy, PartialEq, Eq, Structural)]
pub struct WriteSummary {
    /// Events in all records.
    pub events: u64,
    /// Data records: neither the dictionary nor the trailer.
    pub records: u64,
    /// Bytes of the whole file.
    pub bytes: u64,
}

/// The last bytes of a file, and its final header.
#[derive(Debug)]
pub struct Finished {
    /// The bytes that have not been taken yet.
    pub rest: Vec<u8>,
    /// The 56 bytes that go over the first 56 of the file.
    pub header: Vec<u8>,
    pub summary: WriteSummary,
}

/// The entry of record `k` in the index of a file whose records start at byte `start`.
pub open spec fn entry_of(records: Seq<Seq<u8>>, start: int, k: int) -> IndexEntry {
    let h = RecordHeader::decoded(records[k])->Ok_0;
    IndexEntry {
        position: (start + run_start(records, k)) as u64,
        record_length: records[k].len() as u64,
        event_count: h.event_count,
        user_word_1: h.user_word_1,
        user_word_2: h.user_word_2,
    }
}

/// The index of a file whose records start at byte `start`.
pub open spec fn index_of_records(records: Seq<Seq<u8>>, start: int) -> Seq<IndexEntry> {
    Seq::new(records.len(), |k: int| entry_of(records, start, k))
}

/// A record with another number.
pub open spec fn renumbered(record: Seq<u8>, n: u32) -> Seq<u8> {
    spliced(record, 4, le32(n))
}

/// What a writer holds.
#[verifier::ext_equal]
pub struct WriterView {
    pub dict: DictView,
    pub tags: Seq<(Seq<char>, u32)>,
    pub options: WriterOptions,
    /// The dictionary record.
    pub dict_record: Seq<u8>,
    /// The data records so far.
    pub records: Seq<Seq<u8>>,
    /// The events of the record to come.
    pub pending: RecordBuilderView,
    /// The bytes that have not been taken yet.
    pub kept: Seq<u8>,
}

impl WriterView {
    /// What comes before the data records.
    pub open spec fn front(self) -> Seq<u8> {
        open_header(self.dict_record.len() as u32).encoded() + self.dict_record
    }

    /// All bytes so far.
    pub open spec fn file(self) -> Seq<u8> {
        self.front() + concat(self.records)
    }

    /// The index of the records so far.
    pub open spec fn index(self) -> Seq<IndexEntry> {
        index_of_records(self.records, self.front().len() as int)
    }

    /// The number of the record to come.
    pub open spec fn next_number(self) -> u32 {
        (self.records.len() + 1) as u32
    }

    /// The identity of the record to come.
    pub open spec fn next_ident(self) -> RecordIdent {
        RecordIdent {
            record_number: self.next_number(),
            user_word_1: self.pending.user_word_1,
            user_word_2: self.pending.user_word_2,
        }
    }

    /// The bytes fit a file, the dictionary record is one, every record has a header, and what
    /// has not been taken is the end of the file.
    pub open spec fn wf(self) -> bool {
        &&& self.file().len() <= u64::MAX
        &&& self.records.len() < u32::MAX
        &&& self.dict_record.len() <= u32::MAX
        &&& is_dictionary_record(self.dict_record, self.dict, self.tags)
        &&& forall|k: int|
            0 <= k < self.records.len() ==> RecordHeader::decoded(#[trigger] self.records[k]) is Ok
        &&& self.kept.len() <= self.file().len()
        &&& self.kept == self.file().subrange(
            self.file().len() - self.kept.len(),
            self.file().len() as int,
        )
    }

    /// One more record.
    pub open spec fn with_record(self, record: Seq<u8>) -> WriterView {
        WriterView { records: self.records.push(record), kept: self.kept + record, ..self }
    }

    /// The record to come has no events.
    pub open spec fn with_none_pending(self) -> WriterView {
        WriterView {
            pending: RecordBuilderView { events: Seq::empty(), ..self.pending },
            ..self
        }
    }

    /// One more event in the record to come.
    pub open spec fn with_event(self, event: Seq<u8>) -> WriterView {
        WriterView {
            pending: RecordBuilderView {
                events: self.pending.events.push(event),
                ..self.pending
            },
            ..self
        }
    }

    /// The record to come is full, or an event of `n` bytes would make it too large.
    pub open spec fn must_flush(self, n: nat) -> bool {
        let count = self.pending.events.len();
        ||| count >= self.options.max_record_events
        ||| count > 0 && capped(
            capped(4 * count + concat(self.pending.events).len()) as nat + n,
        ) > self.options.max_record_bytes
    }

    /// There is room for one more record of `n` bytes.
    pub open spec fn has_room(self, n: nat) -> bool {
        self.file().len() + n <= u64::MAX && self.records.len() + 1 < u32::MAX
    }

    /// How writing out the record to come ends: `after` holds one more record of the pending
    /// events, or nothing changes.
    pub open spec fn flushed(self, after: WriterView, failed: Option<HipoError>) -> bool {
        match failed {
            None => if self.pending.events.len() == 0 {
                after == self
            } else {
                exists|record: Seq<u8>| #[trigger]
                    is_record(
                        record,
                        self.pending.events,
                        self.dict,
                        self.options.compression,
                        self.next_ident(),
                    ) && self.has_room(record.len()) && after == self.with_record(
                        record,
                    ).with_none_pending()
            },
            Some(e) => {
                &&& after == self
                &&& self.pending.events.len() > 0
                &&& {
                    ||| e is Compression && may_not_fit(
                        self.pending.events,
                        self.dict,
                        self.options.compression,
                    )
                    ||| e is Internal && exists|record: Seq<u8>| #[trigger]
                        is_record(
                            record,
                            self.pending.events,
                            self.dict,
                            self.options.compression,
                            self.next_ident(),
                        ) && !self.has_room(record.len())
                }
            },
        }
    }
}

/// Chooses what a writer is made with.
#[derive(Debug)]
pub struct WriterBuilder {
    dict: Dict,
    tags: TagRegistry,
    options: WriterOptions,
}

/// What a writer is to be made with.
#[verifier::ext_equal]
pub struct WriterBuilderView {
    pub dict: DictView,
    pub tags: Seq<(Seq<char>, u32)>,
    pub options: WriterOptions,
}

impl View for WriterBuilder {
    type V = WriterBuilderView;

    closed spec fn view(&self) -> WriterBuilderView {
        WriterBuilderView { dict: self.dict@, tags: self.tags@, options: self.options }
    }
}

/// The error, if there is one.
pub open spec fn error_of<T>(r: Result<T>) -> Option<HipoError> {
    match r {
        Ok(_) => None,
        Err(e) => Some(e),
    }
}

impl WriterBuilder {
    /// An empty dictionary, no tag names, and the standard options.
    pub fn new() -> (r: Self)
        ensures
            r@ == (WriterBuilderView {
                dict: DictView::none(),
                tags: Seq::empty(),
                options: WriterOptions::standard(),
            }),
    {
        WriterBuilder {
            dict: Dict::new(),
            tags: TagRegistry::new(),
            options: WriterOptions::default(),
        }
    }

    /// The banks that the file declares.
    pub fn schemas(self, dict: &Dict) -> (r: Self)
        ensures
            r@ == (WriterBuilderView { dict: dict@, ..self@ }),
    {
        WriterBuilder { dict: dict.clone(), tags: self.tags, options: self.options }
    }

    /// The tag names that the file declares.
    pub fn tag_registry(self, tags: &TagRegistry) -> (r: Self)
        ensures
            r@ == (WriterBuilderView { tags: tags@, ..self@ }),
    {
        WriterBuilder { dict: self.dict, tags: tags.clone(), options: self.options }
    }

    /// The tag names that the file declares, given one by one. A later name replaces an earlier
    /// one.
    pub fn tag_names(self, names: &[(&str, u32)]) -> (r: Self)
        ensures
            r@ == (WriterBuilderView {
                tags: declared_tags(names@.map_values(|n: (&str, u32)| (n.0@, n.1))),
                ..self@
            }),
    {
        WriterBuilder {
            dict: self.dict,
            tags: TagRegistry::from_names(names),
            options: self.options,
        }
    }

    pub fn compression(self, c: Compression) -> (r: Self)
        ensures
            r@ == (WriterBuilderView {
                options: WriterOptions { compression: c, ..self@.options },
                ..self@
            }),
    {
        WriterBuilder { options: self.options.with_compression(c), ..self }
    }

    pub fn max_record_events(self, n: u32) -> (r: Self)
        ensures
            r@ == (WriterBuilderView {
                options: WriterOptions { max_record_events: n, ..self@.options },
                ..self@
            }),
    {
        WriterBuilder { options: self.options.with_max_record_events(n), ..self }
    }

    pub fn max_record_bytes(self, n: usize) -> (r: Self)
        ensures
            r@ == (WriterBuilderView {
                options: WriterOptions { max_record_bytes: n, ..self@.options },
                ..self@
            }),
    {
        WriterBuilder { options: self.options.with_max_record_bytes(n), ..self }
    }

    pub fn options(self, o: WriterOptions) -> (r: Self)
        ensures
            r@ == (WriterBuilderView { options: o, ..self@ }),
    {
        WriterBuilder { options: o, ..self }
    }

    /// Start a file: its header and its dictionary record are the first bytes. Tag names must be
    /// such as the text form can hold.
    pub fn build(self) -> (r: Result<Writer>)
        ensures
            match r {
                Ok(w) => {
                    &&& w.wf()
                    &&& tags_valid(self@.tags)
                    &&& is_dictionary_record(w@.dict_record, self@.dict, self@.tags)
                    &&& w@ == (WriterView {
                        dict: self@.dict,
                        tags: self@.tags,
                        options: self@.options,
                        dict_record: w@.dict_record,
                        records: Seq::empty(),
                        pending: RecordBuilderView {
                            events: Seq::empty(),
                            user_word_1: 0,
                            user_word_2: 0,
                        },
                        kept: w@.file(),
                    })
                },
                Err(e) => {
                    ||| !tags_valid(self@.tags) && e is InvalidTagName
                    ||| tags_valid(self@.tags) && e is InvalidUsage && entry_too_large(
                        self@.dict,
                        self@.tags,
                    )
                    ||| tags_valid(self@.tags) && e is Compression && too_large(
                        dictionary_events(self@.dict, self@.tags),
                    )
                },
            },
    {
        let names = self.tags.iter();
        let mut i: usize = 0;
        while i < names.len()
            invariant
                i <= names.len(),
                names.len() == self.tags@.len(),
                self@.tags == self.tags@,
                forall|k: int| 0 <= k < names.len() ==> (#[trigger] names@[k]).0@ == self.tags@[k].0,
                forall|k: int| 0 <= k < i ==> valid_tag_name((#[trigger] self.tags@[k]).0),
            decreases names.len() - i,
        {
            match check_tag_name(names[i].0.as_str()) {
                Ok(_) => {},
                Err(e) => {
                    assert(!valid_tag_name(self@.tags[i as int].0));
                    return Err(e);
                },
            }
            i = i + 1;
        }
        let record = match build_dictionary_record(&self.dict, &self.tags) {
            Ok(record) => record,
            Err(e) => {
                return Err(e);
            },
        };
        proof {
            lemma_block_record_len(record@, dictionary_events(self@.dict, self@.tags));
        }
        let dict_len: u32 = record.len() as u32;
        let mut out = file_header(dict_len, None).to_bytes();
        push_bytes(&mut out, record.as_slice());
        let cursor: u64 = 56 + record.len() as u64;
        let w = Writer {
            dict: self.dict,
            tags: self.tags,
            opts: self.options,
            builder: RecordBuilder::new(),
            index: Vec::new(),
            out,
            cursor,
            dict_len,
            dict_record: Ghost(record@),
            records: Ghost(Seq::empty()),
        };
        proof {
            assert(concat(w@.records) =~= Seq::<u8>::empty());
            assert(w@.front() + Seq::<u8>::empty() =~= w@.front());
            assert(w@.file() =~= w@.front());
            assert(w.out@ =~= w@.front());
            assert(w@.kept =~= w@.file().subrange(0, w@.file().len() as int));
            assert(w.index@ =~= w@.index());
        }
        Ok(w)
    }
}

/// Every tag name is one that the text form can hold.
pub open spec fn tags_valid(reg: Seq<(Seq<char>, u32)>) -> bool {
    forall|k: int| 0 <= k < reg.len() ==> valid_tag_name((#[trigger] reg[k]).0)
}

/// A file writer.
pub struct Writer {
    dict: Dict,
    tags: TagRegistry,
    opts: WriterOptions,
    builder: RecordBuilder,
    index: Vec<IndexEntry>,
    out: Vec<u8>,
    cursor: u64,
    dict_len: u32,
    dict_record: Ghost<Seq<u8>>,
    records: Ghost<Seq<Seq<u8>>>,
}

impl View for Writer {
    type V = WriterView;

    closed spec fn view(&self) -> WriterView {
        WriterView {
            dict: self.dict@,
            tags: self.tags@,
            options: self.opts,
            dict_record: self.dict_record@,
            records: self.records@,
            pending: self.builder@,
            kept: self.out@,
        }
    }
}

impl Writer {
    /// The index is that of the records, and the position is the end of the file.
    pub closed spec fn wf(self) -> bool {
        &&& self@.wf()
        &&& self.cursor == self@.file().len()
        &&& self.index@ == self@.index()
        &&& self.dict_len == self@.dict_record.len()
    }

    /// What a well-formed writer holds is well-formed.
    pub proof fn lemma_wf(self)
        requires
            self.wf(),
        ensures
            self@.wf(),
    {
    }

    /// Start choosing what a writer is made with.
    pub fn create() -> (r: WriterBuilder)
        ensures
            r@ == (WriterBuilderView {
                dict: DictView::none(),
                tags: Seq::empty(),
                options: WriterOptions::standard(),
            }),
    {
        WriterBuilder::new()
    }

    /// Start a file with this dictionary and these options, and without tag names.
    pub fn create_with(dict: &Dict, options: WriterOptions) -> (r: Result<Writer>)
        ensures
            match r {
                Ok(w) => {
                    &&& w.wf()
                    &&& w@.dict == dict@
                    &&& w@.tags.len() == 0
                    &&& w@.options == options
                    &&& w@.records.len() == 0
                    &&& w@.pending.events.len() == 0
                    &&& w@.kept == w@.file()
                },
                Err(e) => {
                    ||| e is InvalidUsage && entry_too_large(dict@, Seq::empty())
                    ||| e is Compression && too_large(dictionary_events(dict@, Seq::empty()))
                },
            },
    {
        Self::create().schemas(dict).options(options).build()
    }

    pub fn schemas(&self) -> (r: &Dict)
        ensures
            r@ == self@.dict,
    {
        &self.dict
    }

    pub fn options(&self) -> (r: &WriterOptions)
        ensures
            *r == self@.options,
    {
        &self.opts
    }

    /// The bytes that were written since the last call.
    pub fn take_bytes(&mut self) -> (r: Vec<u8>)
        requires
            old(self).wf(),
        ensures
            r@ == old(self)@.kept,
            final(self)@ == (WriterView { kept: Seq::empty(), ..old(self)@ }),
            final(self).wf(),
    {
        let mut r: Vec<u8> = Vec::new();
        core::mem::swap(&mut r, &mut self.out);
        proof {
            let f = self@.file();
            assert(self@.kept =~= f.subrange(f.len() as int, f.len() as int));
            assert(self@.records == old(self)@.records);
            assert(self.index@ == self@.index());
        }
        r
    }

    /// The first user word of the records to come.
    pub fn set_user_word_1(&mut self, v: u64)
        requires
            old(self).wf(),
        ensures
            final(self)@ == (WriterView {
                pending: RecordBuilderView { user_word_1: v, ..old(self)@.pending },
                ..old(self)@
            }),
            final(self).wf(),
    {
        self.builder.set_user_word_1(v);
    }

    /// The second user word of the records to come.
    pub fn set_user_word_2(&mut self, v: u64)
        requires
            old(self).wf(),
        ensures
            final(self)@ == (WriterView {
                pending: RecordBuilderView { user_word_2: v, ..old(self)@.pending },
                ..old(self)@
            }),
            final(self).wf(),
    {
        self.builder.set_user_word_2(v);
    }
}

/// A record has a length that its header holds.
proof fn lemma_block_record_len(out: Seq<u8>, events: Seq<Seq<u8>>)
    requires
        is_block_record(out, events, CompressionType::Uncompressed, no_ident()),
    ensures
        56 <= out.len() <= 0x4000_0040,
{
    let packed = choose|packed: Seq<u8>| #[trigger]
        block_written(out, events, CompressionType::Uncompressed, no_ident(), packed);
    let h = header_of(
        CompressionType::Uncompressed,
        events.len(),
        concat(events).len(),
        packed.len(),
        no_ident(),
    );
    lemma_u32s_bytes_len(lens_of(events));
    lemma_header_writable(
        CompressionType::Uncompressed,
        events.len(),
        concat(events).len(),
        packed.len(),
        no_ident(),
    );
    lemma_framed_reads_back(h, packed);
}

/// What the header of a framed record says, and that the record has the number it says.
proof fn lemma_framed_record(kind: CompressionType, count: nat, data: nat, body: Seq<u8>, id: RecordIdent)
    requires
        body.len() <= crate::write::record::MAX_BODY,
        4 * count <= u32::MAX,
        data <= u32::MAX,
    ensures
        ({
            let h = header_of(kind, count, data, body.len(), id);
            let out = framed(h, body);
            &&& RecordHeader::decoded(out) == Ok::<RecordHeader, HipoError>(h)
            &&& out.len() == h.record_length
            &&& renumbered(out, id.record_number) == out
        }),
{
    let h = header_of(kind, count, data, body.len(), id);
    let out = framed(h, body);
    lemma_header_writable(kind, count, data, body.len(), id);
    lemma_framed_reads_back(h, body);
    let b = le32(id.record_number);
    law_le32_round_trip(id.record_number);
    assert(h.words()[1] == id.record_number);
    assert forall|i: int| 4 <= i < 8 implies #[trigger] out[i] == b[i - 4] by {
        assert(out[i] == h.encoded()[i]);
        assert(i / 4 == 1 && i % 4 == i - 4);
    }
    assert(renumbered(out, id.record_number) =~= out);
}

/// What the header of a record says, and that the record has the number it says.
pub proof fn lemma_record_header(
    out: Seq<u8>,
    events: Seq<Seq<u8>>,
    dict: DictView,
    compression: Compression,
    id: RecordIdent,
)
    requires
        is_record(out, events, dict, compression, id),
    ensures
        ({
            let h = RecordHeader::decoded(out);
            &&& h is Ok
            &&& h->Ok_0.event_count == events.len()
            &&& h->Ok_0.index_array_length == 4 * events.len()
            &&& h->Ok_0.record_length == out.len()
            &&& h->Ok_0.header_length == 56
            &&& h->Ok_0.compression == compression.kind()
            &&& h->Ok_0.user_word_1 == id.user_word_1
            &&& h->Ok_0.user_word_2 == id.user_word_2
            &&& renumbered(out, id.record_number) == out
            &&& 56 <= out.len() <= 0x4000_0040
        }),
{
    let n = events.len();
    match compression {
        Compression::Lz4PerBank => {
            let p = choose|p: SplitParts| #[trigger] by_bank_written(out, events, id, p);
            let data = lengths(streams_of(p.tables));
            let dir = by_bank_dir(p, events);
            let s = split_section(
                EXT_FORMAT_VERSION_BY_BANK,
                p.tables.len(),
                n,
                p.dir_packed,
                dir.len(),
                p.packed,
            );
            lemma_framed_record(CompressionType::Lz4PerBank, n, data, s, id);
        },
        Compression::Lz4PerColumn => {
            let p = choose|p: SplitParts| #[trigger]
                per_column_written(out, events, dict, id, p);
            let data = lengths(flat_streams(p.tables, dict));
            let dir = per_column_dir(p, events, dict);
            let s = split_section(
                EXT_FORMAT_VERSION_PER_COLUMN,
                p.tables.len(),
                n,
                p.dir_packed,
                dir.len(),
                p.packed,
            );
            lemma_framed_record(CompressionType::Lz4PerColumn, n, data, s, id);
        },
        _ => {
            let kind = compression.kind();
            let packed = choose|packed: Seq<u8>| #[trigger]
                block_written(out, events, kind, id, packed);
            lemma_u32s_bytes_len(lens_of(events));
            lemma_framed_record(kind, n, concat(events).len(), packed, id);
        },
    }
}

/// One more record in the index.
proof fn lemma_index_push(records: Seq<Seq<u8>>, start: int, record: Seq<u8>)
    ensures
        concat(records.push(record)) == concat(records) + record,
        index_of_records(records.push(record), start) =~= index_of_records(records, start).push(
            entry_of(records.push(record), start, records.len() as int),
        ),
        run_start(records.push(record), records.len() as int) == concat(records).len(),
{
    let more = records.push(record);
    assert(more.drop_last() =~= records);
    assert(more.subrange(0, records.len() as int) =~= records);
    assert forall|k: int| 0 <= k < records.len() implies #[trigger] entry_of(more, start, k)
        == entry_of(records, start, k) by {
        assert(more.subrange(0, k) =~= records.subrange(0, k));
    }
}

impl Writer {
    /// Lay down one more record.
    fn push_record(&mut self, bytes: Vec<u8>, h: RecordHeader)
        requires
            old(self).wf(),
            RecordHeader::decoded(bytes@) == Ok::<RecordHeader, HipoError>(h),
            old(self)@.has_room(bytes@.len()),
        ensures
            final(self)@ == old(self)@.with_record(bytes@),
            final(self).wf(),
    {
        let entry = IndexEntry {
            position: self.cursor,
            record_length: bytes.len() as u64,
            event_count: h.event_count,
            user_word_1: h.user_word_1,
            user_word_2: h.user_word_2,
        };
        let ghost before = self@;
        let ghost start = self@.front().len() as int;
        self.cursor = self.cursor + bytes.len() as u64;
        push_bytes(&mut self.out, bytes.as_slice());
        self.index.push(entry);
        self.records = Ghost(self.records@.push(bytes@));
        proof {
            lemma_index_push(before.records, start, bytes@);
            assert(self@.front() == before.front());
            assert(self@.file() =~= before.file() + bytes@);
            let f = self@.file();
            assert(self@.kept =~= f.subrange(f.len() - self@.kept.len(), f.len() as int));
            assert(self.index@ =~= self@.index());
            assert(self@ =~= before.with_record(bytes@));
        }
    }

    /// Append a record that is already built. It gets the number of its place in the file.
    pub fn write_record(&mut self, bytes: Vec<u8>) -> (r: Result<()>)
        requires
            old(self).wf(),
        ensures
            final(self).wf(),
            ({
                let record = renumbered(bytes@, old(self)@.next_number());
                match r {
                    Ok(_) => {
                        &&& bytes.len() >= 56
                        &&& RecordHeader::decoded(record) is Ok
                        &&& old(self)@.has_room(bytes@.len())
                        &&& final(self)@ == old(self)@.with_record(record)
                    },
                    Err(e) => {
                        &&& final(self)@ == old(self)@
                        &&& if bytes.len() < 56 {
                            e == (HipoError::CorruptRecord {
                                offset: old(self)@.file().len() as u64,
                                reason: "prebuilt record shorter than the record header",
                            })
                        } else if RecordHeader::decoded(record) is Err {
                            e == RecordHeader::decoded(record)->Err_0
                        } else {
                            e is Internal && !old(self)@.has_room(bytes@.len())
                        }
                    },
                }
            }),
    {
        let mut bytes = bytes;
        if bytes.len() < 56 {
            return Err(
                HipoError::CorruptRecord {
                    offset: self.cursor,
                    reason: "prebuilt record shorter than the record header",
                },
            );
        }
        let n: u32 = self.index.len() as u32 + 1;
        let ghost given = bytes@;
        write_u32_le(bytes.as_mut_slice(), RH_RECORD_NUMBER, n);
        proof {
            law_le32_round_trip(n);
            assert(bytes@ == renumbered(given, n) && bytes@.len() == given.len());
        }
        let h = match RecordHeader::parse(bytes.as_slice()) {
            Ok(h) => h,
            Err(e) => {
                return Err(e);
            },
        };
        if bytes.len() as u64 > u64::MAX - self.cursor || self.index.len() >= u32::MAX as usize - 1 {
            return Err(HipoError::Internal("file too large"));
        }
        self.push_record(bytes, h);
        Ok(())
    }

    /// Write out the record to come, if it has any events.
    pub fn flush_record(&mut self) -> (r: Result<()>)
        requires
            old(self).wf(),
        ensures
            final(self).wf(),
            old(self)@.flushed(final(self)@, error_of(r)),
    {
        if self.builder.is_empty() {
            return Ok(());
        }
        let ghost before = self@;
        let n: u32 = self.index.len() as u32 + 1;
        let id = RecordIdent {
            record_number: n,
            user_word_1: self.builder.user_word_1(),
            user_word_2: self.builder.user_word_2(),
        };
        let record = match build_record_bytes(
            self.builder.event_slices(),
            &self.dict,
            self.opts.compression,
            id,
        ) {
            Ok(record) => record,
            Err(e) => {
                return Err(e);
            },
        };
        proof {
            assert(id == before.next_ident());
            lemma_record_header(
                record@,
                before.pending.events,
                before.dict,
                before.options.compression,
                id,
            );
        }
        let ghost bytes = record@;
        match self.write_record(record) {
            Ok(_) => {},
            Err(e) => {
                return Err(e);
            },
        }
        self.builder.reset();
        proof {
            assert(self@ =~= before.with_record(bytes).with_none_pending());
            assert(is_record(
                bytes,
                before.pending.events,
                before.dict,
                before.options.compression,
                before.next_ident(),
            ));
        }
        Ok(())
    }

    /// Append the bytes of an event. Where the record to come is full, or would become too
    /// large, it is written out first.
    pub fn append_raw(&mut self, event_bytes: &[u8]) -> (r: Result<()>)
        requires
            old(self).wf(),
        ensures
            final(self).wf(),
            appended(old(self)@, event_bytes@, final(self)@, error_of(r)),
    {
        let count: usize = self.builder.event_count();
        let size: usize = self.builder.estimated_payload_size().saturating_add(event_bytes.len());
        if count >= self.opts.max_record_events as usize || (count > 0 && size
            > self.opts.max_record_bytes) {
            match self.flush_record() {
                Ok(_) => {},
                Err(e) => {
                    return Err(e);
                },
            }
        }
        let ghost mid = self@;
        self.builder.add_event(event_bytes);
        assert(self@ =~= mid.with_event(event_bytes@));
        Ok(())
    }
}

/// What appending an event ends with.
pub open spec fn appended(
    before: WriterView,
    event: Seq<u8>,
    after: WriterView,
    failed: Option<HipoError>,
) -> bool {
    if !before.must_flush(event.len()) {
        failed is None && after == before.with_event(event)
    } else {
        match failed {
            None => exists|mid: WriterView| #[trigger]
                before.flushed(mid, None) && after == mid.with_event(event),
            Some(e) => before.flushed(after, Some(e)),
        }
    }
}

/// The events of the first `n` records.
pub open spec fn indexed_events(es: Seq<IndexEntry>, n: nat) -> nat
    decreases n,
{
    if n == 0 {
        0
    } else {
        indexed_events(es, (n - 1) as nat) + es[n - 1].event_count as nat
    }
}

impl WriterView {
    /// The whole file, once a trailer closes it.
    pub open spec fn closed(self, trailer: Seq<u8>) -> Seq<u8> {
        closed_header(self.dict_record.len() as u32, self.file().len() as u64).encoded()
            + self.dict_record + concat(self.records) + trailer
    }

    /// The file is closed with this trailer.
    pub open spec fn closes(self, trailer: Seq<u8>, f: Finished) -> bool {
        &&& is_trailer(trailer, self.index())
        &&& f.rest@ == self.kept + trailer
        &&& f.header@ == closed_header(
            self.dict_record.len() as u32,
            self.file().len() as u64,
        ).encoded()
        &&& f.summary.events == indexed_events(self.index(), self.index().len())
        &&& f.summary.records == self.records.len()
        &&& f.summary.bytes == self.closed(trailer).len()
    }
}

/// The first bytes of a file give way to the header it was finished with.
pub proof fn law_finished_file(w: WriterView, trailer: Seq<u8>, f: Finished)
    requires
        w.wf(),
        w.closes(trailer, f),
    ensures
        spliced(w.file() + trailer, 0, f.header@) == w.closed(trailer),
        f.header@.len() == 56,
{
    let a = open_header(w.dict_record.len() as u32).encoded();
    assert(a.len() == 56 && f.header@.len() == 56);
    assert(spliced(w.file() + trailer, 0, f.header@) =~= w.closed(trailer));
}

/// `f` finishes the file of `w`.
pub open spec fn is_finished(w: WriterView, f: Finished) -> bool {
    exists|mid: WriterView, trailer: Seq<u8>| #[trigger]
        mid.closes(trailer, f) && w.flushed(mid, None) && mid.wf()
}

/// Finishing the file of `w` fails, and `e` is the error.
pub open spec fn finish_fails(w: WriterView, e: HipoError) -> bool {
    ||| exists|mid: WriterView| #[trigger] w.flushed(mid, Some(e))
    ||| exists|mid: WriterView| #[trigger]
        w.flushed(mid, None) && {
            ||| e is InvalidUsage && trailer_data(mid.index()).len() > u32::MAX - 24
            ||| e is Compression && too_large(seq![trailer_event(mid.index())])
            ||| e is Internal && mid.file().len() + 0x4000_0040 > u64::MAX
        }
}

impl Writer {
    /// Append an event that was read. Its banks must be readable.
    pub fn append_owned(&mut self, event: &OwnedEvent) -> (r: Result<()>)
        requires
            old(self).wf(),
        ensures
            final(self).wf(),
            if event@.event.readable(event@.dict) {
                appended(
                    old(self)@,
                    event@.event.bytes(event@.dict),
                    final(self)@,
                    error_of(r),
                )
            } else {
                final(self)@ == old(self)@ && r is Err && r->Err_0 is CorruptRecord
            },
    {
        match event.try_bytes() {
            Some(bytes) => self.append_raw(bytes.as_slice()),
            None => Err(
                HipoError::CorruptRecord { offset: 0, reason: "event's banks cannot be read" },
            ),
        }
    }

    /// Let `f` put an event together, and append it. Where `f` fails nothing is appended.
    pub fn event<F: FnOnce(&mut EventWriter<'_>) -> Result<()>>(&mut self, f: F) -> (r: Result<()>)
        requires
            old(self).wf(),
            forall|w: &mut EventWriter<'_>| f.requires((w,)),
        ensures
            final(self).wf(),
            exists|w: &mut EventWriter<'_>, out: Result<()>| #[trigger]
                f.ensures((w,), out) && w@ == EventWriterView::fresh(old(self)@.dict) && match out {
                    Err(e) => r == Err::<(), HipoError>(e) && final(self)@ == old(self)@,
                    Ok(_) => if 16 + final(w)@.event.structures.len() <= u32::MAX {
                        appended(
                            old(self)@,
                            final(w)@.event.event(),
                            final(self)@,
                            error_of(r),
                        )
                    } else {
                        final(self)@ == old(self)@ && r is Err && r->Err_0 is InvalidUsage
                    },
                },
    {
        let mut ev = EventWriter::new(&self.dict);
        let out = f(&mut ev);
        match out {
            Ok(_) => {},
            Err(e) => {
                return Err(e);
            },
        }
        match ev.finish() {
            Ok(bytes) => self.append_raw(bytes.as_slice()),
            Err(e) => Err(e),
        }
    }

    /// Write out the last record and close the file with its index. The result holds the bytes
    /// that have not been taken, and the header that goes over the first 56 bytes.
    pub fn finish(self) -> (r: Result<Finished>)
        requires
            self.wf(),
        ensures
            match r {
                Ok(f) => is_finished(self@, f),
                Err(e) => finish_fails(self@, e),
            },
    {
        let mut w = self;
        match w.flush_record() {
            Ok(_) => {},
            Err(e) => {
                assert(self@.flushed(w@, Some(e)));
                return Err(e);
            },
        }
        let ghost mid = w@;
        assert(self@.flushed(mid, None));
        let trailer = match build_trailer_record(w.index.as_slice()) {
            Ok(trailer) => trailer,
            Err(e) => {
                return Err(e);
            },
        };
        proof {
            lemma_block_record_len(trailer@, seq![trailer_event(mid.index())]);
        }
        if trailer.len() as u64 > u64::MAX - w.cursor {
            return Err(HipoError::Internal("file too large"));
        }
        let mut events: u64 = 0;
        let mut i: usize = 0;
        while i < w.index.len()
            invariant
                i <= w.index.len(),
                w.index.len() < u32::MAX,
                events == indexed_events(w.index@, i as nat),
                events <= i * u32::MAX,
            decreases w.index.len() - i,
        {
            let n: u64 = w.index[i].event_count as u64;
            assert(i * u32::MAX + u32::MAX <= u32::MAX * u32::MAX) by (nonlinear_arith)
                requires
                    0 <= i < u32::MAX,
            ;
            assert((i + 1) * u32::MAX == i * u32::MAX + u32::MAX) by (nonlinear_arith);
            events = events + n;
            i = i + 1;
        }
        let header = file_header(w.dict_len, Some(w.cursor)).to_bytes();
        let summary = WriteSummary {
            events,
            records: w.index.len() as u64,
            bytes: w.cursor + trailer.len() as u64,
        };
        let mut rest = w.take_bytes();
        push_bytes(&mut rest, trailer.as_slice());
        let f = Finished { rest, header, summary };
        proof {
            assert(mid.closed(trailer@).len() == mid.file().len() + trailer@.len());
            assert(mid.closes(trailer@, f));
        }
        Ok(f)
    }
}

} // verus!
