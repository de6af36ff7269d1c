//! Copying the events of a chain into a new file.
//!
//! [`Chain::skim`] makes the new file in memory. To store it piece by piece, a skim starts with
//! [`Chain::skim_writer`] or [`Chain::retag_writer`], copies one event after the other, and ends
//! with [`Writer::finish`]. Between events the caller stores what [`Writer::take_bytes`] hands
//! out.

use vstd::prelude::*;
use crate::error::{HipoError, Result};
use crate::event::owned::OwnedEvent;
#[allow(unused_imports)]
use crate::event::event::{event_end, event_structures, event_tag, lemma_structures_same};
use crate::read::chain::{Chain, ChainEventIter};
#[allow(unused_imports)]
use crate::read::chain::{all_intact, is_fault_of, ChainView};
#[allow(unused_imports)]
use crate::read::inner::FileView;
#[allow(unused_imports)]
use crate::read::iter::Item;
use crate::read::source::ReadAt;
#[allow(unused_imports)]
use crate::schema::dict::DictView;
#[allow(unused_imports)]
use crate::tag::declared_tags;
use crate::wire::bytes::{write_bytes, write_u32_le};
#[allow(unused_imports)]
use crate::wire::bytes::{
    law_le32_round_trip, le32, lemma_u32_at_same, lemma_u32_at_spliced, spliced,
};
use crate::wire::constants::EH_TAG;
#[allow(unused_imports)]
use crate::write::file::{dictionary_events, entry_too_large, is_trailer, too_large};
#[allow(unused_imports)]
use crate::write::history::{
    has_written, law_append_adds_last, law_flush_keeps_events, law_fresh_writer_holds_nothing,
    law_summary_counts_events, lemma_append_keeps, lemma_flush_keeps,
};
use crate::write::record::Compression;
use crate::write::writer::{Finished, WriteSummary, Writer, WriterBuilder, WriterOptions};
#[allow(unused_imports)]
use crate::write::writer::{
    appended, error_of, finish_fails, is_finished, law_finished_file, tags_valid, WriterView,
};

verus! {

/// An event with another tag.
pub open spec fn retagged(event: Seq<u8>, tag: u32) -> Seq<u8> {
    spliced(event, 8, le32(tag))
}

/// An event with another tag has that tag, and the same structures and size as before.
pub proof fn law_retagged(event: Seq<u8>, tag: u32)
    requires
        event.len() >= 16,
    ensures
        event_tag(retagged(event, tag)) == tag,
        event_structures(retagged(event, tag)) == event_structures(event),
        retagged(event, tag).len() == event.len(),
{
    let t = retagged(event, tag);
    law_le32_round_trip(tag);
    assert(t.len() == event.len());
    lemma_u32_at_spliced(event, 8, tag);
    lemma_u32_at_same(t, 4, event, 4);
    assert(event_end(t) == event_end(event));
    lemma_structures_same(t, event, 0, 16, event_end(event));
}

/// How copying the next event ends. `failed` is the error, if there is one, and `copied` says
/// whether an event was copied.
pub open spec fn copied_next(
    files: Seq<FileView>,
    rest: Seq<(int, Item)>,
    before: WriterView,
    after: WriterView,
    r: Result<bool>,
) -> bool {
    match r {
        Ok(false) => rest.len() == 0 && after == before,
        Ok(true) => rest.len() > 0 && event_copied(files, rest[0], before, after, None),
        Err(err) => rest.len() > 0 && (event_copied(files, rest[0], before, after, Some(err)) || (
        is_fault_of(files, rest[0], err) && after == before)),
    }
}

/// An event, put together under the dictionary of its file, was appended, or it was not and
/// `failed` says why.
pub open spec fn event_copied(
    files: Seq<FileView>,
    item: (int, Item),
    before: WriterView,
    after: WriterView,
    failed: Option<HipoError>,
) -> bool {
    let d = files[item.0].info.dictionary.dict;
    &&& 0 <= item.0 < files.len()
    &&& item.1 matches Item::Event(e) && if e.readable(d) {
        appended(before, e.bytes(d), after, failed)
    } else {
        after == before && (failed matches Some(err) && err is CorruptRecord)
    }
}

/// A file with this dictionary and these tag names cannot be started, and `e` is the error.
pub open spec fn build_fails(dict: DictView, tags: Seq<(Seq<char>, u32)>, e: HipoError) -> bool {
    ||| !tags_valid(tags) && e is InvalidTagName
    ||| tags_valid(tags) && e is InvalidUsage && entry_too_large(dict, tags)
    ||| tags_valid(tags) && e is Compression && too_large(dictionary_events(dict, tags))
}

/// `bytes` are those of the event `item`, put together under the dictionary of its file.
pub open spec fn is_copy(files: Seq<FileView>, item: (int, Item), bytes: Seq<u8>) -> bool {
    let d = files[item.0].info.dictionary.dict;
    &&& 0 <= item.0 < files.len()
    &&& item.1 matches Item::Event(e) && e.readable(d) && bytes == e.bytes(d)
}

/// `events` are the bytes of the first items.
pub open spec fn are_copies(
    files: Seq<FileView>,
    items: Seq<(int, Item)>,
    events: Seq<Seq<u8>>,
) -> bool {
    &&& events.len() <= items.len()
    &&& forall|k: int| 0 <= k < events.len() ==> is_copy(files, items[k], #[trigger] events[k])
}

/// A writer for a copy of a chain that holds these events.
pub open spec fn copies_into(
    c: ChainView,
    compression: Compression,
    w: WriterView,
    events: Seq<Seq<u8>>,
) -> bool {
    &&& w.wf()
    &&& w.dict == c.dict
    &&& w.tags == c.tags
    &&& w.options == (WriterOptions { compression, ..WriterOptions::standard() })
    &&& has_written(w, events)
    &&& are_copies(c.files, c.stream(), events)
}

/// What is copied of a chain is fixed by the chain: two copies that come equally far hold the same
/// events.
pub proof fn law_copies_are_determined(
    files: Seq<FileView>,
    items: Seq<(int, Item)>,
    a: Seq<Seq<u8>>,
    b: Seq<Seq<u8>>,
)
    requires
        are_copies(files, items, a),
        are_copies(files, items, b),
        a.len() == b.len(),
    ensures
        a == b,
{
    assert forall|k: int| 0 <= k < a.len() implies a[k] == b[k] by {
        assert(is_copy(files, items[k], a[k]));
        assert(is_copy(files, items[k], b[k]));
    }
    assert(a =~= b);
}

/// `bytes` are a finished file of these events, and `s` says what was written.
pub open spec fn copy_finished(
    c: ChainView,
    compression: Compression,
    events: Seq<Seq<u8>>,
    bytes: Seq<u8>,
    s: WriteSummary,
) -> bool {
    exists|w: WriterView, trailer: Seq<u8>| #[trigger]
        is_trailer(trailer, w.index()) && {
            &&& copies_into(c, compression, w, events)
            &&& w.pending.events.len() == 0
            &&& bytes == w.closed(trailer)
            &&& s.events == events.len()
            &&& s.records == w.records.len()
            &&& s.bytes == bytes.len()
        }
}

/// The copy stops behind these events with the error `e`: the next record cannot be read, the
/// next event cannot be put together or written, or the file cannot be finished.
pub open spec fn copy_stops(
    c: ChainView,
    compression: Compression,
    events: Seq<Seq<u8>>,
    e: HipoError,
) -> bool {
    exists|w: WriterView| #[trigger]
        copies_into(c, compression, w, events) && {
            if events.len() == c.stream().len() {
                finish_fails(w, e)
            } else {
                let item = c.stream()[events.len() as int];
                is_fault_of(c.files, item, e) || exists|after: WriterView| #[trigger]
                    event_copied(c.files, item, w, after, Some(e))
            }
        }
}

/// How copying a chain ends: with a file of every event that passes the filter, or with an
/// error.
pub open spec fn skim_end(
    c: ChainView,
    compression: Compression,
    r: Result<(Vec<u8>, WriteSummary)>,
) -> bool {
    match r {
        Ok((bytes, s)) => exists|events: Seq<Seq<u8>>| #[trigger]
            copy_finished(c, compression, events, bytes@, s) && events.len() == c.stream().len(),
        Err(e) => build_fails(c.dict, c.tags, e) || exists|events: Seq<Seq<u8>>| #[trigger]
            copy_stops(c, compression, events, e),
    }
}

/// A writer of which nothing was taken, and which holds copies of the first events of a chain.
pub open spec fn copying(
    c: ChainView,
    compression: Compression,
    w: WriterView,
    events: Seq<Seq<u8>>,
) -> bool {
    copies_into(c, compression, w, events) && w.kept == w.file()
}

/// A fresh writer has copied nothing.
proof fn lemma_copy_starts(c: ChainView, compression: Compression, w: WriterView)
    requires
        w.wf(),
        w.dict == c.dict,
        w.tags == c.tags,
        w.options == (WriterOptions { compression, ..WriterOptions::standard() }),
        w.records.len() == 0,
        w.pending.events.len() == 0,
        w.kept == w.file(),
    ensures
        copying(c, compression, w, Seq::empty()),
{
    law_fresh_writer_holds_nothing(w);
}

/// One more event was copied.
proof fn lemma_copy_goes_on(
    c: ChainView,
    compression: Compression,
    before: WriterView,
    after: WriterView,
    events: Seq<Seq<u8>>,
) -> (next: Seq<Seq<u8>>)
    requires
        copying(c, compression, before, events),
        events.len() < c.stream().len(),
        event_copied(c.files, c.stream()[events.len() as int], before, after, None),
        after.wf(),
    ensures
        copying(c, compression, after, next),
        next.len() == events.len() + 1,
{
    let item = c.stream()[events.len() as int];
    let d = c.files[item.0].info.dictionary.dict;
    let ev = item.1->Event_0;
    let next = events.push(ev.bytes(d));
    law_append_adds_last(before, ev.bytes(d), after, events);
    lemma_append_keeps(before, ev.bytes(d), after);
    assert forall|k: int| 0 <= k < next.len() implies is_copy(
        c.files,
        c.stream()[k],
        #[trigger] next[k],
    ) by {
        if k < events.len() {
            assert(is_copy(c.files, c.stream()[k], events[k]));
        }
    }
    next
}

/// The bytes of a writer that was finished, under their last header, are a finished file.
proof fn lemma_copy_finished(
    c: ChainView,
    compression: Compression,
    w: WriterView,
    events: Seq<Seq<u8>>,
    f: Finished,
)
    requires
        copying(c, compression, w, events),
        is_finished(w, f),
    ensures
        f.header@.len() == 56,
        f.rest@.len() >= 56,
        copy_finished(c, compression, events, spliced(f.rest@, 0, f.header@), f.summary),
{
    let (mid, trailer) = choose|mid: WriterView, trailer: Seq<u8>| #[trigger]
        mid.closes(trailer, f) && w.flushed(mid, None) && mid.wf();
    law_finished_file(mid, trailer, f);
    law_summary_counts_events(w, f, events);
    law_flush_keeps_events(w, mid, events);
    lemma_flush_keeps(w, mid);
    assert(f.rest@ == mid.file() + trailer);
    assert(copies_into(c, compression, mid, events));
    assert(is_trailer(trailer, mid.index()));
}

/// A file that cannot be finished ends the copy.
proof fn lemma_copy_not_finished(
    c: ChainView,
    compression: Compression,
    w: WriterView,
    events: Seq<Seq<u8>>,
    e: HipoError,
)
    requires
        copying(c, compression, w, events),
        events.len() == c.stream().len(),
        finish_fails(w, e),
    ensures
        copy_stops(c, compression, events, e),
{
    assert(copies_into(c, compression, w, events));
}

/// The bytes of a file of which nothing was taken, under its last header.
fn whole_file(f: Finished) -> (r: (Vec<u8>, WriteSummary))
    requires
        f.header@.len() == 56,
        f.rest@.len() >= 56,
    ensures
        r.0@ == spliced(f.rest@, 0, f.header@),
        r.1 == f.summary,
{
    let Finished { rest, header, summary } = f;
    let mut bytes = rest;
    write_bytes(&mut bytes, 0, header.as_slice());
    (bytes, summary)
}

/// Finish the file of a writer that has copied every event.
#[verifier::spinoff_prover]
#[verifier::rlimit(40)]
fn finish_copy(
    w: Writer,
    Ghost(c): Ghost<ChainView>,
    compression: Compression,
    Ghost(events): Ghost<Seq<Seq<u8>>>,
) -> (r: Result<(Vec<u8>, WriteSummary)>)
    requires
        w.wf(),
        copying(c, compression, w@, events),
        events.len() == c.stream().len(),
    ensures
        match r {
            Ok((bytes, s)) => copy_finished(c, compression, events, bytes@, s),
            Err(e) => copy_stops(c, compression, events, e),
        },
{
    let ghost last = w@;
    match w.finish() {
        Ok(f) => {
            proof {
                lemma_copy_finished(c, compression, last, events, f);
            }
            Ok(whole_file(f))
        },
        Err(e) => {
            proof {
                lemma_copy_not_finished(c, compression, last, events, e);
            }
            Err(e)
        },
    }
}

/// Append the next event of a walk. False where the walk is over.
pub fn copy_next<S: ReadAt>(events: &mut ChainEventIter<S>, w: &mut Writer) -> (r: Result<bool>)
    requires
        old(w).wf(),
    ensures
        final(w).wf(),
        final(events).files() == old(events).files(),
        final(events).filter() == old(events).filter(),
        all_intact(old(events).files()) || r is Ok ==> {
            &&& copied_next(old(events).files(), old(events).rest(), old(w)@, final(w)@, r)
            &&& r is Ok && old(events).rest().len() > 0 ==> final(events).rest() == old(
                events,
            ).rest().drop_first()
        },
{
    match events.next() {
        None => Ok(false),
        Some(Err(e)) => Err(e),
        Some(Ok(ev)) => match w.append_owned(&ev) {
            Ok(_) => Ok(true),
            Err(e) => Err(e),
        },
    }
}

/// Give the bytes of an event another tag.
pub fn retag(event: Vec<u8>, tag: u32) -> (r: Vec<u8>)
    requires
        event.len() >= 12,
    ensures
        r@ == retagged(event@, tag),
{
    let mut out = event;
    write_u32_le(&mut out, EH_TAG, tag);
    out
}

/// Append an event with another tag.
pub fn append_tagged(w: &mut Writer, event: &OwnedEvent, tag: u32) -> (r: Result<()>)
    requires
        old(w).wf(),
        event@.event.readable(event@.dict) ==> event@.event.bytes(event@.dict).len() >= 12,
    ensures
        final(w).wf(),
        if event@.event.readable(event@.dict) {
            appended(
                old(w)@,
                retagged(event@.event.bytes(event@.dict), tag),
                final(w)@,
                error_of(r),
            )
        } else {
            final(w)@ == old(w)@ && r is Err && r->Err_0 is CorruptRecord
        },
{
    match event.try_bytes() {
        Some(bytes) => w.append_raw(retag(bytes, tag).as_slice()),
        None => Err(HipoError::CorruptRecord { offset: 0, reason: "event's banks cannot be read" }),
    }
}

impl<S: ReadAt> Chain<S> {
    /// A writer for a copy of the chain: it declares the same banks and tag names.
    pub fn skim_writer(&self, compression: Compression) -> (r: Result<Writer>)
        ensures
            match r {
                Ok(w) => {
                    &&& w.wf()
                    &&& w@.dict == self@.dict
                    &&& w@.tags == self@.tags
                    &&& w@.options == (WriterOptions { compression, ..WriterOptions::standard() })
                    &&& w@.records.len() == 0
                    &&& w@.pending.events.len() == 0
                    &&& w@.kept == w@.file()
                    &&& tags_valid(self@.tags)
                },
                Err(e) => build_fails(self@.dict, self@.tags, e),
            },
    {
        WriterBuilder::new().schemas(self.schemas()).tag_registry(
            self.tag_registry(),
        ).compression(compression).build()
    }

    /// A file of every event that passes the filter, in order: the same banks, the same tags.
    pub fn skim(&self, compression: Compression) -> (r: Result<(Vec<u8>, WriteSummary)>)
        ensures
            self@.intact() || r is Ok ==> skim_end(self@, compression, r),
    {
        let mut w = match self.skim_writer(compression) {
            Ok(w) => w,
            Err(e) => {
                return Err(e);
            },
        };
        let mut events = self.events();
        let ghost c = self@;
        let ghost mut done: Seq<Seq<u8>> = Seq::empty();
        proof {
            w.lemma_wf();
            lemma_copy_starts(c, compression, w@);
            assert(events.rest() =~= c.stream().skip(0));
        }
        loop
            invariant_except_break
                events.rest() == c.stream().skip(done.len() as int),
            invariant
                c == self@,
                w.wf(),
                copying(c, compression, w@, done),
                events.files() == c.files,
                done.len() <= c.stream().len(),
            ensures
                done.len() == c.stream().len(),
            decreases c.stream().len() - done.len(),
        {
            let ghost before = w@;
            let ghost rest = events.rest();
            let more = match copy_next(&mut events, &mut w) {
                Ok(more) => more,
                Err(e) => {
                    proof {
                        if c.intact() {
                            assert(rest[0] == c.stream()[done.len() as int]);
                            assert(copies_into(c, compression, before, done));
                            assert(copy_stops(c, compression, done, e));
                        }
                    }
                    return Err(e);
                },
            };
            if !more {
                break;
            }
            proof {
                w.lemma_wf();
                assert(rest[0] == c.stream()[done.len() as int]);
                let next = lemma_copy_goes_on(c, compression, before, w@, done);
                assert(rest.drop_first() =~= c.stream().skip(next.len() as int));
                done = next;
            }
        }
        finish_copy(w, Ghost(c), compression, Ghost(done))
    }

    /// A writer for a copy of the chain with tags of its own: it declares the same banks, and
    /// the given tag names.
    pub fn retag_writer(&self, compression: Compression, tag_names: &[(&str, u32)]) -> (r: Result<
        Writer,
    >)
        ensures
            ({
                let tags = declared_tags(tag_names@.map_values(|n: (&str, u32)| (n.0@, n.1)));
                match r {
                    Ok(w) => {
                        &&& w.wf()
                        &&& w@.dict == self@.dict
                        &&& w@.tags == tags
                        &&& w@.options == (WriterOptions {
                            compression,
                            ..WriterOptions::standard()
                        })
                        &&& w@.records.len() == 0
                        &&& w@.pending.events.len() == 0
                        &&& w@.kept == w@.file()
                        &&& tags_valid(tags)
                    },
                    Err(e) => build_fails(self@.dict, tags, e),
                }
            }),
    {
        WriterBuilder::new().schemas(self.schemas()).tag_names(tag_names).compression(
            compression,
        ).build()
    }
}

} // verus!
