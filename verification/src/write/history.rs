//! What was appended to a writer, in order, and that a reader gives it back in that order.

use vstd::prelude::*;
#[allow(unused_imports)]
use crate::error::HipoError;
#[allow(unused_imports)]
use crate::event::event::event_structures;
#[allow(unused_imports)]
use crate::event::view::EventView;
#[allow(unused_imports)]
use crate::read::chain::{events_base, ChainView, Place};
#[allow(unused_imports)]
use crate::read::inner::{file_opened, FileInfo};
#[allow(unused_imports)]
use crate::read::iter::record_at;
#[allow(unused_imports)]
use crate::read::stored::{stored_decoded, StoredView};
#[allow(unused_imports)]
use crate::schema::dict::DictView;
#[allow(unused_imports)]
use crate::schema::types::SchemaView;
#[allow(unused_imports)]
use crate::wire::event_index::events_in;
#[allow(unused_imports)]
use crate::write::columns::per_column_written;
#[allow(unused_imports)]
use crate::write::file_round_trip::{
    law_finished_file_opens, law_written_record_is_found, lemma_all_numbered, lemma_block_event,
    lemma_listed_events, lemma_one_file, listed_spans, sound_file,
};
#[allow(unused_imports)]
use crate::write::layout_round_trip::{
    law_by_bank_event_reads_back, law_per_column_event_reads_back, same_bank,
};
#[allow(unused_imports)]
use crate::write::record::{
    block_written, by_bank_written, Compression, RecordIdent, SplitParts,
};
#[allow(unused_imports)]
use crate::write::record_builder::is_record;
#[allow(unused_imports)]
use crate::write::round_trip::{events_once, ids_once};
#[allow(unused_imports)]
use crate::write::writer::{
    appended, indexed_events, is_finished, lemma_record_header, Finished, WriterView,
};

verus! {

/// The events of batches, one batch after the other.
pub open spec fn in_order(batches: Seq<Seq<Seq<u8>>>) -> Seq<Seq<u8>>
    decreases batches.len(),
{
    if batches.len() == 0 {
        Seq::empty()
    } else {
        in_order(batches.drop_last()) + batches.last()
    }
}

/// Record `k` of a writer was built of the events of batch `k`.
pub open spec fn is_batch(w: WriterView, batches: Seq<Seq<Seq<u8>>>, k: int) -> bool {
    exists|id: RecordIdent| #[trigger]
        is_record(w.records[k], batches[k], w.dict, w.options.compression, id)
}

/// The most events that one record of a writer may hold: what its options say, and one where they
/// say none.
pub open spec fn batch_limit(w: WriterView) -> int {
    if w.options.max_record_events == 0 {
        1
    } else {
        w.options.max_record_events as int
    }
}

/// A writer holds these events in this order: those of its records, batch by batch, and then
/// those of the record to come. No record is empty, and none holds more events than the options
/// allow.
pub open spec fn holds(w: WriterView, batches: Seq<Seq<Seq<u8>>>, events: Seq<Seq<u8>>) -> bool {
    &&& batches.len() == w.records.len()
    &&& forall|k: int| 0 <= k < batches.len() ==> #[trigger] is_batch(w, batches, k)
    &&& forall|k: int|
        0 <= k < batches.len() ==> 1 <= (#[trigger] batches[k]).len() <= batch_limit(w)
    &&& w.pending.events.len() <= batch_limit(w)
    &&& events == in_order(batches) + w.pending.events
}

/// A writer holds these events in this order.
pub open spec fn has_written(w: WriterView, events: Seq<Seq<u8>>) -> bool {
    exists|batches: Seq<Seq<Seq<u8>>>| #[trigger] holds(w, batches, events)
}

/// A writer that has written no record and has no event to come holds none.
pub proof fn law_fresh_writer_holds_nothing(w: WriterView)
    requires
        w.records.len() == 0,
        w.pending.events.len() == 0,
    ensures
        has_written(w, Seq::empty()),
{
    let none = Seq::<Seq<Seq<u8>>>::empty();
    assert(in_order(none) + w.pending.events =~= Seq::<Seq<u8>>::empty());
    assert(holds(w, none, Seq::empty()));
}

/// Writing out the record to come changes neither the events nor their order.
pub proof fn law_flush_keeps_events(before: WriterView, after: WriterView, events: Seq<Seq<u8>>)
    requires
        has_written(before, events),
        before.flushed(after, None),
    ensures
        has_written(after, events),
        after.pending.events.len() == 0,
{
    let batches = choose|batches: Seq<Seq<Seq<u8>>>| #[trigger] holds(before, batches, events);
    if before.pending.events.len() > 0 {
        let pending = before.pending.events;
        let record = choose|record: Seq<u8>| #[trigger]
            is_record(
                record,
                pending,
                before.dict,
                before.options.compression,
                before.next_ident(),
            ) && before.has_room(record.len()) && after == before.with_record(
                record,
            ).with_none_pending();
        let next = batches.push(pending);
        assert(next.drop_last() =~= batches);
        assert(in_order(next) + after.pending.events =~= in_order(batches) + pending);
        assert forall|k: int| 0 <= k < next.len() implies #[trigger] is_batch(after, next, k) by {
            if k < batches.len() {
                assert(is_batch(before, batches, k));
                let id = choose|id: RecordIdent| #[trigger]
                    is_record(
                        before.records[k],
                        batches[k],
                        before.dict,
                        before.options.compression,
                        id,
                    );
                assert(is_record(
                    after.records[k],
                    next[k],
                    after.dict,
                    after.options.compression,
                    id,
                ));
            } else {
                assert(is_record(
                    after.records[k],
                    next[k],
                    after.dict,
                    after.options.compression,
                    before.next_ident(),
                ));
            }
        }
        assert(holds(after, next, events));
    }
}

/// The index of a writer lists no record without events, and none with more than the options
/// allow.
pub proof fn law_record_sizes_are_bounded(w: WriterView, events: Seq<Seq<u8>>, k: int)
    requires
        has_written(w, events),
        0 <= k < w.records.len(),
    ensures
        1 <= w.index()[k].event_count <= batch_limit(w),
{
    let batches = choose|batches: Seq<Seq<Seq<u8>>>| #[trigger] holds(w, batches, events);
    assert(is_batch(w, batches, k));
    let id = choose|id: RecordIdent| #[trigger]
        is_record(w.records[k], batches[k], w.dict, w.options.compression, id);
    lemma_record_header(w.records[k], batches[k], w.dict, w.options.compression, id);
}

/// The summary of a finished file counts the events that were appended.
pub proof fn law_summary_counts_events(w: WriterView, f: Finished, events: Seq<Seq<u8>>)
    requires
        has_written(w, events),
        is_finished(w, f),
    ensures
        f.summary.events == events.len(),
{
    let (mid, trailer) = choose|mid: WriterView, trailer: Seq<u8>| #[trigger]
        mid.closes(trailer, f) && w.flushed(mid, None) && mid.wf();
    law_flush_keeps_events(w, mid, events);
    let batches = choose|batches: Seq<Seq<Seq<u8>>>| #[trigger] holds(mid, batches, events);
    lemma_batches_counted(mid, batches, batches.len());
    assert(batches.subrange(0, batches.len() as int) =~= batches);
    assert(events =~= in_order(batches));
}

/// Writing out the record to come changes nothing that was chosen, and takes no bytes.
pub proof fn lemma_flush_keeps(before: WriterView, after: WriterView)
    requires
        before.flushed(after, None),
    ensures
        after.dict == before.dict,
        after.tags == before.tags,
        after.options == before.options,
        before.kept == before.file() ==> after.kept == after.file(),
{
    if before.pending.events.len() > 0 {
        let record = choose|record: Seq<u8>| #[trigger]
            is_record(
                record,
                before.pending.events,
                before.dict,
                before.options.compression,
                before.next_ident(),
            ) && before.has_room(record.len()) && after == before.with_record(
                record,
            ).with_none_pending();
        assert(after.records.drop_last() =~= before.records);
        assert(after.file() =~= before.file() + record);
    }
}

/// Appending an event changes nothing that was chosen, and takes no bytes.
pub proof fn lemma_append_keeps(before: WriterView, event: Seq<u8>, after: WriterView)
    requires
        appended(before, event, after, None),
    ensures
        after.dict == before.dict,
        after.tags == before.tags,
        after.options == before.options,
        before.kept == before.file() ==> after.kept == after.file(),
{
    if before.must_flush(event.len()) {
        let mid = choose|mid: WriterView| #[trigger]
            before.flushed(mid, None) && after == mid.with_event(event);
        lemma_flush_keeps(before, mid);
    }
}

/// An event that was appended comes behind all events that were there, whether or not a record
/// was written out on the way.
pub proof fn law_append_adds_last(
    before: WriterView,
    event: Seq<u8>,
    after: WriterView,
    events: Seq<Seq<u8>>,
)
    requires
        has_written(before, events),
        appended(before, event, after, None),
    ensures
        has_written(after, events.push(event)),
{
    let mid = if before.must_flush(event.len()) {
        let mid = choose|mid: WriterView| #[trigger]
            before.flushed(mid, None) && after == mid.with_event(event);
        law_flush_keeps_events(before, mid, events);
        mid
    } else {
        before
    };
    let batches = choose|batches: Seq<Seq<Seq<u8>>>| #[trigger] holds(mid, batches, events);
    assert(in_order(batches) + after.pending.events =~= events.push(event));
    assert forall|k: int| 0 <= k < batches.len() implies #[trigger] is_batch(after, batches, k) by {
        assert(is_batch(mid, batches, k));
        let id = choose|id: RecordIdent| #[trigger]
            is_record(mid.records[k], batches[k], mid.dict, mid.options.compression, id);
        assert(is_record(
            after.records[k],
            batches[k],
            after.dict,
            after.options.compression,
            id,
        ));
    }
    assert(holds(after, batches, events.push(event)));
}

/// Where event `i` of batches stands: its batch, and its number there.
proof fn lemma_event_of_batch(batches: Seq<Seq<Seq<u8>>>, i: int) -> (r: (int, int))
    requires
        0 <= i < in_order(batches).len(),
    ensures
        0 <= r.0 < batches.len(),
        0 <= r.1 < batches[r.0].len(),
        in_order(batches)[i] == batches[r.0][r.1],
        in_order(batches.subrange(0, r.0)).len() + r.1 == i,
    decreases batches.len(),
{
    let front = batches.drop_last();
    let n = batches.len() - 1;
    if i < in_order(front).len() {
        let (k, e) = lemma_event_of_batch(front, i);
        assert(front.subrange(0, k) =~= batches.subrange(0, k));
        (k, e)
    } else {
        assert(batches.subrange(0, n) =~= front);
        (n, i - in_order(front).len())
    }
}

/// What holds of every event holds of the events of one batch.
proof fn lemma_batch_once(batches: Seq<Seq<Seq<u8>>>, k: int)
    requires
        0 <= k < batches.len(),
        events_once(in_order(batches)),
    ensures
        events_once(batches[k]),
    decreases batches.len(),
{
    let front = in_order(batches.drop_last());
    let all = in_order(batches);
    if k == batches.len() - 1 {
        assert forall|e: int| 0 <= e < batches[k].len() implies ids_once(
            #[trigger] event_structures(batches[k][e]),
        ) by {
            assert(all[front.len() + e] == batches[k][e]);
            assert(ids_once(event_structures(all[front.len() + e])));
        }
    } else {
        assert forall|e: int| 0 <= e < front.len() implies ids_once(
            #[trigger] event_structures(front[e]),
        ) by {
            assert(all[e] == front[e]);
            assert(ids_once(event_structures(all[e])));
        }
        lemma_batch_once(batches.drop_last(), k);
    }
}

/// The index counts the events of the batches.
proof fn lemma_batches_counted(w: WriterView, batches: Seq<Seq<Seq<u8>>>, n: nat)
    requires
        batches.len() == w.records.len(),
        forall|k: int| 0 <= k < batches.len() ==> #[trigger] is_batch(w, batches, k),
        n <= batches.len(),
    ensures
        indexed_events(w.index(), n) == in_order(batches.subrange(0, n as int)).len(),
    decreases n,
{
    if n > 0 {
        let k = n - 1;
        lemma_batches_counted(w, batches, k as nat);
        assert(batches.subrange(0, n as int).drop_last() =~= batches.subrange(0, k));
        assert(is_batch(w, batches, k));
        let id = choose|id: RecordIdent| #[trigger]
            is_record(w.records[k], batches[k], w.dict, w.options.compression, id);
        lemma_record_header(w.records[k], batches[k], w.dict, w.options.compression, id);
    }
}

/// Is every record stored as one block?
pub open spec fn in_blocks(compression: Compression) -> bool {
    !(compression is Lz4PerBank) && !(compression is Lz4PerColumn)
}

/// An event of a record is read back.
proof fn lemma_batch_event(
    record: Seq<u8>,
    events: Seq<Seq<u8>>,
    dict: DictView,
    compression: Compression,
    id: RecordIdent,
    read: DictView,
    e: int,
    s: SchemaView,
)
    requires
        is_record(record, events, dict, compression, id),
        in_blocks(compression) || events_once(events),
        dict.wf(),
        compression is Lz4PerColumn ==> dict.by_id(s.group, s.item) is None || dict.by_id(
            s.group,
            s.item,
        ) == Some(s),
        0 <= e < events.len(),
    ensures
        stored_decoded(record, Some(read)) matches Some(v) && v.events() == events.len()
            && same_bank(v.event(e), EventView::Bytes(events[e]), s) && (in_blocks(compression)
            ==> v.event(e) == EventView::Bytes(events[e])),
{
    match compression {
        Compression::Lz4PerBank => {
            let p = choose|p: SplitParts| #[trigger] by_bank_written(record, events, id, p);
            law_by_bank_event_reads_back(record, events, id, p, read, e, s);
        },
        Compression::Lz4PerColumn => {
            let p = choose|p: SplitParts| #[trigger]
                per_column_written(record, events, dict, id, p);
            law_per_column_event_reads_back(record, events, dict, id, p, read, e, s);
        },
        _ => {
            let packed = choose|packed: Seq<u8>| #[trigger]
                block_written(record, events, compression.kind(), id, packed);
            assert(block_written(record, events, compression.kind(), id, packed));
            lemma_block_event(record, events, compression.kind(), read, e);
        },
    }
}

/// The event that a record decodes to is the event of the chain with its number.
proof fn lemma_record_event(
    w: WriterView,
    trailer: Seq<u8>,
    c: ChainView,
    k: int,
    e: int,
    v: StoredView,
)
    requires
        sound_file(w, trailer),
        c.files.len() == 1,
        c.files[0].bytes == w.closed(trailer),
        file_opened(w.closed(trailer)) == Ok::<FileInfo, HipoError>(c.files[0].info),
        0 <= k < w.records.len(),
        stored_decoded(w.records[k], Some(c.dict)) == Some(v),
        0 <= e < v.events(),
        e < w.index()[k].event_count,
    ensures
        c.event_at(indexed_events(w.index(), k as nat) + e) == Some(v.event(e)),
{
    let es = w.index();
    law_finished_file_opens(w, trailer);
    law_written_record_is_found(w, trailer, k);
    let p = Place { file: 0, record: k, event: e };
    let span = c.files[0].info.spans[k];
    assert(span == listed_spans(es)[k]);
    assert(record_at(c.files[0].bytes, span, c.dict) == Some(v));
    assert(c.event_in(p) == Some(v.event(e)));
    lemma_listed_events(es, k as nat);
    lemma_all_numbered(es);
    lemma_one_file(c, indexed_events(es, k as nat) + e, p);
}

/// A chain of one finished file has the events that its index counts.
proof fn lemma_total(w: WriterView, trailer: Seq<u8>, c: ChainView)
    requires
        sound_file(w, trailer),
        c.files.len() == 1,
        file_opened(w.closed(trailer)) == Ok::<FileInfo, HipoError>(c.files[0].info),
    ensures
        c.total() == indexed_events(w.index(), w.index().len()),
{
    law_finished_file_opens(w, trailer);
    lemma_listed_events(w.index(), w.index().len());
    assert(events_base(c.files, 0) == 0);
    assert(c.total() == events_in(listed_spans(w.index())));
}

/// A chain of one finished file gives back what was appended, in order: as many events, each
/// with its tag and its banks, and byte for byte where records are stored as one block. A record
/// that splits events into banks keeps no second bank of the same id. One that splits banks into
/// columns is read under the schemas it was written with: `s` is one of them, or a schema of a
/// bank that none of them describes.
pub proof fn law_file_gives_events_back(
    w: WriterView,
    trailer: Seq<u8>,
    events: Seq<Seq<u8>>,
    c: ChainView,
    i: int,
    s: SchemaView,
)
    requires
        sound_file(w, trailer),
        has_written(w, events),
        w.pending.events.len() == 0,
        in_blocks(w.options.compression) || events_once(events),
        c.files.len() == 1,
        c.files[0].bytes == w.closed(trailer),
        file_opened(w.closed(trailer)) == Ok::<FileInfo, HipoError>(c.files[0].info),
        w.options.compression is Lz4PerColumn ==> w.dict.by_id(s.group, s.item) is None
            || w.dict.by_id(s.group, s.item) == Some(s),
        0 <= i < events.len(),
    ensures
        c.total() == events.len(),
        c.event_at(i) matches Some(v) && same_bank(v, EventView::Bytes(events[i]), s) && (in_blocks(
            w.options.compression,
        ) ==> v == EventView::Bytes(events[i])),
{
    let batches = choose|batches: Seq<Seq<Seq<u8>>>| #[trigger] holds(w, batches, events);
    assert(events =~= in_order(batches));
    let (k, e) = lemma_event_of_batch(batches, i);
    lemma_batches_counted(w, batches, k as nat);
    lemma_batches_counted(w, batches, batches.len());
    assert(batches.subrange(0, batches.len() as int) =~= batches);
    assert(is_batch(w, batches, k));
    let id = choose|id: RecordIdent| #[trigger]
        is_record(w.records[k], batches[k], w.dict, w.options.compression, id);
    if !in_blocks(w.options.compression) {
        lemma_batch_once(batches, k);
    }
    lemma_batch_event(w.records[k], batches[k], w.dict, w.options.compression, id, c.dict, e, s);
    let v = stored_decoded(w.records[k], Some(c.dict))->0;
    assert(w.index()[k].event_count == batches[k].len()) by {
        lemma_record_header(w.records[k], batches[k], w.dict, w.options.compression, id);
    }
    lemma_record_event(w, trailer, c, k, e, v);
    lemma_total(w, trailer, c);
}

} // verus!
