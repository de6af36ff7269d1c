//! Writers: how events are cut into records, and what the records say of themselves.

use vstd::prelude::*;
use crate::error::HipoError;
use crate::event::owned::OwnedEvent;
#[allow(unused_imports)]
use crate::laws::bytes::law_le32_bytes;
#[allow(unused_imports)]
use crate::laws::headers::four;
use crate::read::skim::retag;
#[allow(unused_imports)]
use crate::seqs::concat;
use crate::wire::constants::CompressionType;
#[allow(unused_imports)]
use crate::wire::record_header::RecordHeader;
use crate::write::event_writer::EventWriter;
use crate::write::record::Compression;
#[allow(unused_imports)]
use crate::write::record_builder::is_record;
use crate::write::record_builder::RecordBuilder;
use crate::write::row::{BankWriter, RowWriter};
use crate::write::writer::{Writer, WriterBuilder, WriterOptions};
#[allow(unused_imports)]
use crate::write::writer::{appended, error_of, lemma_record_header, WriterView};

verus! {

/// A writer's compression is written as the tag of the same name.
pub proof fn law_compression_of_a_writer(c: Compression, t: CompressionType)
    requires
        call_ensures(Compression::wire_tag, (c,), t),
    ensures
        match c {
            Compression::Uncompressed => t == CompressionType::Uncompressed,
            Compression::Lz4 => t == CompressionType::Lz4,
            Compression::Lz4Best => t == CompressionType::Lz4Best,
            Compression::Gzip => t == CompressionType::Gzip,
            Compression::Lz4PerBank => t == CompressionType::Lz4PerBank,
            Compression::Lz4PerColumn => t == CompressionType::Lz4PerColumn,
        },
{
}

/// A writer compresses with LZ4, and cuts records at a million events or eight MiB, where nothing
/// else is asked for. What is asked for changes that, and nothing else.
pub proof fn law_writer_options(
    b: WriterBuilder,
    o: WriterOptions,
    c: Compression,
    n: u32,
    size: usize,
    fresh: WriterBuilder,
    with_c: WriterBuilder,
    with_n: WriterBuilder,
    with_size: WriterBuilder,
    oc: WriterOptions,
    on: WriterOptions,
    os: WriterOptions,
)
    requires
        call_ensures(WriterBuilder::new, (), fresh),
        call_ensures(WriterBuilder::compression, (b, c), with_c),
        call_ensures(WriterBuilder::max_record_events, (b, n), with_n),
        call_ensures(WriterBuilder::max_record_bytes, (b, size), with_size),
        call_ensures(WriterOptions::with_compression, (o, c), oc),
        call_ensures(WriterOptions::with_max_record_events, (o, n), on),
        call_ensures(WriterOptions::with_max_record_bytes, (o, size), os),
    ensures
        fresh@.options.compression == Compression::Lz4,
        fresh@.options.max_record_events == 1_000_000,
        fresh@.options.max_record_bytes == 8 * 1024 * 1024,
        fresh@.tags.len() == 0 && fresh@.dict.schemas.len() == 0,
        with_c@.options.compression == c && with_c@.options.max_record_events
            == b@.options.max_record_events && with_c@.options.max_record_bytes
            == b@.options.max_record_bytes && with_c@.dict == b@.dict && with_c@.tags == b@.tags,
        with_n@.options.max_record_events == n && with_n@.options.compression
            == b@.options.compression && with_n@.options.max_record_bytes
            == b@.options.max_record_bytes && with_n@.dict == b@.dict && with_n@.tags == b@.tags,
        with_size@.options.max_record_bytes == size && with_size@.options.compression
            == b@.options.compression && with_size@.options.max_record_events
            == b@.options.max_record_events && with_size@.dict == b@.dict && with_size@.tags
            == b@.tags,
        oc.compression == c && oc.max_record_events == o.max_record_events && oc.max_record_bytes
            == o.max_record_bytes,
        on.compression == o.compression && on.max_record_events == n && on.max_record_bytes
            == o.max_record_bytes,
        os.compression == o.compression && os.max_record_events == o.max_record_events
            && os.max_record_bytes == size,
{
}

/// The bytes of all events together.
pub open spec fn all_bytes(events: Seq<Seq<u8>>) -> int
    decreases events.len(),
{
    if events.len() == 0 {
        0
    } else {
        all_bytes(events.drop_last()) + events.last().len()
    }
}

proof fn lemma_all_bytes(events: Seq<Seq<u8>>)
    ensures
        concat(events).len() == all_bytes(events),
    decreases events.len(),
{
    if events.len() > 0 {
        lemma_all_bytes(events.drop_last());
    }
}

/// An event that is appended becomes the last of the record to come. That record is written out
/// before where it has as many events as a record may have, or where it has any and four bytes for
/// each, the events and this one together would go past the bytes that a record may have.
pub proof fn law_events_are_cut_into_records<'b>(
    w: &'b mut Writer,
    event: &[u8],
    r: Result<(), HipoError>,
)
    requires
        old(w).wf(),
        call_ensures(Writer::append_raw, (w, event), r),
        4 * old(w)@.pending.events.len() + all_bytes(old(w)@.pending.events) + event@.len()
            <= usize::MAX,
    ensures
        ({
            let b = old(w)@;
            let a = final(w)@;
            let n = b.pending.events.len();
            let full = n >= b.options.max_record_events || (n > 0 && 4 * n + all_bytes(
                b.pending.events,
            ) + event@.len() > b.options.max_record_bytes);
            &&& !full ==> r is Ok && a.pending.events == b.pending.events.push(event@) && a.records
                == b.records && a.kept == b.kept
            &&& full && n > 0 && r is Ok ==> {
                &&& a.pending.events == seq![event@]
                &&& a.records.len() == b.records.len() + 1
                &&& a.records.subrange(0, b.records.len() as int) == b.records
                &&& a.kept == b.kept + a.records[b.records.len() as int]
            }
            &&& r is Err ==> full && a.pending.events == b.pending.events && a.records == b.records
            &&& a.options == b.options && a.dict == b.dict && a.tags == b.tags
            &&& a.pending.user_word_1 == b.pending.user_word_1 && a.pending.user_word_2
                == b.pending.user_word_2
        }),
{
    let b = old(w)@;
    let a = final(w)@;
    lemma_all_bytes(b.pending.events);
    if b.must_flush(event@.len()) && r is Ok {
        let mid = choose|mid: WriterView| #[trigger]
            b.flushed(mid, None) && a == mid.with_event(event@);
        if b.pending.events.len() > 0 {
            assert(a.pending.events =~= seq![event@]);
            assert(a.records.subrange(0, b.records.len() as int) =~= b.records);
        }
    }
}

/// A record that is written out says of itself how many events it has, that its header has 56 bytes
/// and its index four for each event, how it is compressed, and the two words of the user; its
/// length is that of its bytes, and its number one more than that of the records before it.
#[verifier::rlimit(40)]
#[verifier::spinoff_prover]
pub proof fn law_written_record_says<'b>(w: &'b mut Writer)
    requires
        old(w).wf(),
        call_ensures(Writer::flush_record, (w,), Ok::<(), HipoError>(())),
        old(w)@.pending.events.len() > 0,
    ensures
        final(w)@.pending.events.len() == 0,
        final(w)@.records.len() == old(w)@.records.len() + 1,
        ({
            let b = old(w)@;
            let record = final(w)@.records[b.records.len() as int];
            let h = RecordHeader::decoded(record);
            &&& h is Ok
            &&& h->Ok_0.event_count == b.pending.events.len()
            &&& h->Ok_0.record_length == record.len()
            &&& h->Ok_0.header_length == 56
            &&& h->Ok_0.index_array_length == 4 * b.pending.events.len()
            &&& h->Ok_0.compression == b.options.compression.kind()
            &&& h->Ok_0.user_word_1 == b.pending.user_word_1
            &&& h->Ok_0.user_word_2 == b.pending.user_word_2
            &&& four(record, 4, false) == b.records.len() + 1
            &&& final(w)@.kept == b.kept + record
        }),
{
    let b = old(w)@;
    let record = choose|record: Seq<u8>| #[trigger]
        is_record(record, b.pending.events, b.dict, b.options.compression, b.next_ident())
            && b.has_room(record.len()) && final(w)@ == b.with_record(
            record,
        ).with_none_pending();
    lemma_record_header(record, b.pending.events, b.dict, b.options.compression, b.next_ident());
    let n = b.next_number();
    law_le32_bytes(n);
    let x = crate::wire::bytes::le32(n);
    let t = crate::write::writer::renumbered(record, n);
    assert(t[4] == x[0] && t[5] == x[1] && t[6] == x[2] && t[7] == x[3]);
    reveal(four);
}

/// The words of the user are those that were set last; setting one leaves the other.
pub proof fn law_user_words<'b>(w: &'b mut Writer, m: &'b mut Writer, x: u64, y: u64)
    requires
        old(w).wf(),
        old(m).wf(),
        call_ensures(Writer::set_user_word_1, (w, x), ()),
        call_ensures(Writer::set_user_word_2, (m, y), ()),
    ensures
        final(w)@.pending.user_word_1 == x,
        final(w)@.pending.user_word_2 == old(w)@.pending.user_word_2,
        final(w)@.pending.events == old(w)@.pending.events,
        final(w)@.records == old(w)@.records,
        final(m)@.pending.user_word_2 == y,
        final(m)@.pending.user_word_1 == old(m)@.pending.user_word_1,
        final(m)@.pending.events == old(m)@.pending.events,
        final(m)@.records == old(m)@.records,
{
}

/// Bytes are handed out once, in the order in which they were written.
pub proof fn law_bytes_are_taken<'b>(w: &'b mut Writer, bytes: Vec<u8>)
    requires
        old(w).wf(),
        call_ensures(Writer::take_bytes, (w,), bytes),
    ensures
        bytes@ == old(w)@.kept,
        final(w)@.kept.len() == 0,
        final(w)@.records == old(w)@.records,
        final(w)@.pending == old(w)@.pending,
{
}

/// A record builder holds the events that it was given, in order. Its payload takes four bytes for
/// each and the events.
pub proof fn law_record_builder<'b>(
    m: &'b mut RecordBuilder,
    event: &[u8],
    n: usize,
    b: RecordBuilder,
    size: usize,
    count: usize,
)
    requires
        call_ensures(RecordBuilder::add_event, (m, event), n),
        call_ensures(RecordBuilder::estimated_payload_size, (&b,), size),
        call_ensures(RecordBuilder::event_count, (&b,), count),
        4 * b@.events.len() + all_bytes(b@.events) <= usize::MAX,
    ensures
        final(m)@.events == old(m)@.events.push(event@),
        n == old(m)@.events.len() + 1,
        final(m)@.user_word_1 == old(m)@.user_word_1 && final(m)@.user_word_2
            == old(m)@.user_word_2,
        size == 4 * b@.events.len() + all_bytes(b@.events),
        count == b@.events.len(),
{
    lemma_all_bytes(b@.events);
}

/// An event with another tag has that tag in the four bytes from byte 8 on, the least significant
/// first, and every other byte as it was.
pub proof fn law_event_is_retagged(event: Vec<u8>, tag: u32, r: Vec<u8>, i: int)
    requires
        event@.len() >= 12,
        call_ensures(retag, (event, tag), r),
    ensures
        r@.len() == event@.len(),
        r@[8] == tag % 0x100,
        r@[9] == tag / 0x100 % 0x100,
        r@[10] == tag / 0x1_0000 % 0x100,
        r@[11] == tag / 0x100_0000 % 0x100,
        0 <= i < event@.len() && !(8 <= i < 12) ==> r@[i] == event@[i],
{
    law_le32_bytes(tag);
    let x = crate::wire::bytes::le32(tag);
    assert(r@[8] == x[0] && r@[9] == x[1] && r@[10] == x[2] && r@[11] == x[3]);
}

/// A record that was built elsewhere comes behind those that are there. Its bytes 4 to 7 hold the
/// number that it has in this file, the least significant byte first; every other byte stays.
#[verifier::rlimit(40)]
#[verifier::spinoff_prover]
pub proof fn law_prebuilt_record<'b>(
    w: &'b mut Writer,
    bytes: Vec<u8>,
    r: Result<(), HipoError>,
    i: int,
)
    requires
        old(w).wf(),
        call_ensures(Writer::write_record, (w, bytes), r),
    ensures
        ({
            let b = old(w)@;
            let a = final(w)@;
            &&& r is Ok ==> {
                let record = a.records[b.records.len() as int];
                &&& a.records.len() == b.records.len() + 1
                &&& a.records.subrange(0, b.records.len() as int) == b.records
                &&& a.kept == b.kept + record
                &&& a.pending == b.pending && a.options == b.options && a.dict == b.dict
                &&& record.len() == bytes@.len() >= 56
                &&& four(record, 4, false) == b.records.len() + 1
                &&& 0 <= i < record.len() && !(4 <= i < 8) ==> record[i] == bytes@[i]
            }
            &&& r is Err ==> a == b
            &&& bytes@.len() < 56 ==> r is Err
        }),
{
    let b = old(w)@;
    let a = final(w)@;
    if r is Ok {
        let n = b.next_number();
        law_le32_bytes(n);
        assert(b.records.len() + 1 <= u32::MAX);
        assert(a.records.subrange(0, b.records.len() as int) =~= b.records);
        let record = a.records[b.records.len() as int];
        assert(record == crate::write::writer::renumbered(bytes@, n));
        assert(four(record, 4, false) == n) by {
            reveal(four);
        }
    }
}

/// An event that was read is appended as the bytes that it is put together from; one that cannot be
/// put together changes nothing.
pub proof fn law_read_event_is_appended<'b>(
    w: &'b mut Writer,
    event: &OwnedEvent,
    r: Result<(), HipoError>,
    bytes: Option<Vec<u8>>,
)
    requires
        old(w).wf(),
        call_ensures(Writer::append_owned, (w, event), r),
        call_ensures(OwnedEvent::try_bytes, (event,), bytes),
    ensures
        bytes matches Some(b) ==> appended(old(w)@, b@, final(w)@, error_of(r)),
        bytes is None ==> final(w)@ == old(w)@ && (r matches Err(e) && e is CorruptRecord),
{
}

/// The records of a writer are listed in order, each with its place in the file, which is behind the
/// file header, the dictionary record and the records before it, and its length.
pub proof fn law_records_are_listed(w: WriterView, k: int)
    requires
        w.wf(),
        0 <= k < w.records.len(),
    ensures
        w.index().len() == w.records.len(),
        w.index()[k].position == 56 + w.dict_record.len() + all_bytes(w.records.subrange(0, k)),
        w.index()[k].record_length == w.records[k].len(),
        RecordHeader::decoded(w.records[k]) matches Ok(h) && w.index()[k].event_count
            == h.event_count && w.index()[k].user_word_1 == h.user_word_1
            && w.index()[k].user_word_2 == h.user_word_2,
{
    crate::seqs::lemma_concat_at(w.records, k);
    lemma_all_bytes(w.records.subrange(0, k));
    crate::wire::bytes::law_le32_round_trip(0);
    crate::wire::bytes::law_le64_round_trip(0);
    let h = crate::write::file::open_header(w.dict_record.len() as u32);
    assert(h.encoded().len() == 56);
    assert(RecordHeader::decoded(w.records[k]) is Ok);
}

/// A row is written by a closure that is handed a writer with one more row, all zero, and what the
/// closure leaves there is the bank.
pub proof fn law_row_is_written<'a, 'b, F: FnOnce(&mut RowWriter<'a>) -> Result<(), HipoError>>(
    w: &'b mut BankWriter<'a>,
    f: F,
    r: Result<(), HipoError>,
)
    requires
        old(w)@.wf(),
        old(w)@.rows < u32::MAX,
        call_ensures(BankWriter::<'a>::row::<F>, (w, f), r),
    ensures
        exists|x: &mut RowWriter<'a>| #[trigger]
            f.ensures((x,), r) && x@.rows == old(w)@.rows + 1 && x@.schema == old(w)@.schema
                && final(x)@ == final(w)@,
{
}

/// An event is written by a closure that is handed an event without tag and structures, over the
/// dictionary of the writer. What the closure leaves there is appended; its error comes back, and
/// nothing is.
pub proof fn law_event_is_written<'b, F: FnOnce(&mut EventWriter<'_>) -> Result<(), HipoError>>(
    w: &'b mut Writer,
    f: F,
    r: Result<(), HipoError>,
)
    requires
        old(w).wf(),
        call_ensures(Writer::event::<F>, (w, f), r),
    ensures
        exists|x: &mut EventWriter<'_>, out: Result<(), HipoError>| #[trigger]
            f.ensures((x,), out) && x@.event.tag == 0 && x@.event.structures.len() == 0 && x@.dict
                == old(w)@.dict && (out matches Err(e) ==> r == Err::<(), HipoError>(e)
                && final(w)@ == old(w)@) && (out is Ok && 16 + final(x)@.event.structures.len()
                <= u32::MAX ==> appended(
                old(w)@,
                final(x)@.event.event(),
                final(w)@,
                error_of(r),
            )),
{
}

/// A bank of an event is written by a closure that is handed a bank without rows, of the schema with
/// that name. What the closure leaves there becomes the last structure of the event. A name that the
/// dictionary does not have comes back in the error, and nothing changes.
pub proof fn law_bank_is_written<'a, 'b, F: FnOnce(&mut BankWriter<'a>) -> Result<(), HipoError>>(
    w: &'b mut EventWriter<'a>,
    name: &str,
    f: F,
    r: Result<&'b mut EventWriter<'a>, HipoError>,
)
    requires
        call_ensures(EventWriter::<'a>::bank::<F>, (w, name, f), r),
    ensures
        old(w)@.dict.named(name@) is None ==> final(w)@ == old(w)@ && (r matches Err(
            HipoError::UnknownSchema { name: n },
        ) && n@ == name@),
        old(w)@.dict.named(name@) matches Some(s) ==> exists|
            x: &mut BankWriter<'a>,
            out: Result<(), HipoError>,
        | #[trigger]
            f.ensures((x,), out) && x@.rows == 0 && x@.schema == s && (r matches Ok(y) ==> out is Ok
                && y@.event.structures == old(w)@.event.structures + final(x)@.structure()
                && y@.event.tag == old(w)@.event.tag) && (out is Err ==> final(w)@ == old(w)@),
{
}

} // verus!
