//! A file whose header is lost still holds what was written: the records are found again.

use vstd::prelude::*;
#[allow(unused_imports)]
use crate::error::HipoError;
#[allow(unused_imports)]
use crate::read::inner::{
    file_opened, file_salvaged, first_record, header_in, record_fits, salvage_start, scanned, without_trailer,
};
#[allow(unused_imports)]
use crate::seqs::{concat, lemma_concat_step, run_start};
#[allow(unused_imports)]
use crate::wire::bytes::{be32_at, u32_at};
#[allow(unused_imports)]
use crate::wire::event_index::{events_in, with_span, RecordSpan};
#[allow(unused_imports)]
use crate::wire::file_header::law_file_header_round_trip;
#[allow(unused_imports)]
use crate::wire::record_header::RecordHeader;
#[allow(unused_imports)]
use crate::write::file::{closed_header, dictionary_events, is_trailer, no_ident, trailer_event};
#[allow(unused_imports)]
use crate::write::file_round_trip::{
    added, law_finished_file_opens, lemma_dictionary_found, lemma_header_found, lemma_listed_events, lemma_parts,
    lemma_record_in, lemma_trailer_bank, listed_spans, sound_file, sound_record,
};
#[allow(unused_imports)]
use crate::write::record::Compression;
#[allow(unused_imports)]
use crate::write::writer::{indexed_events, lemma_record_header, WriterView};

verus! {

/// A finished file with other bytes in place of its header.
pub open spec fn beheaded(w: WriterView, head: Seq<u8>, trailer: Seq<u8>) -> Seq<u8> {
    head + w.dict_record + concat(w.records) + trailer
}

/// The span of the trailer, behind the spans of the records.
pub open spec fn trailer_span(w: WriterView, trailer: Seq<u8>) -> RecordSpan {
    RecordSpan {
        file_offset: w.file().len() as u64,
        record_length: trailer.len() as u64,
        first_event: indexed_events(w.index(), w.index().len()) as u64,
        event_count: 1,
    }
}

/// A record of one event.
pub open spec fn is_tail(trailer: Seq<u8>) -> bool {
    &&& 56 <= trailer.len() <= usize::MAX
    &&& RecordHeader::decoded(trailer) matches Ok(h) && h.record_length == trailer.len()
        && h.event_count == 1 && h.index_array_length == 4
}

/// The walk ends with the trailer.
proof fn lemma_walk_ends(w: WriterView, head: Seq<u8>, trailer: Seq<u8>)
    requires
        sound_file(w, trailer),
        head.len() == 56,
        is_tail(trailer),
    ensures
        scanned(
            beheaded(w, head, trailer),
            w.file().len() as int,
            0,
            true,
            listed_spans(w.index()),
        ) == Ok::<Seq<RecordSpan>, HipoError>(
            listed_spans(w.index()).push(trailer_span(w, trailer)),
        ),
{
    let f = beheaded(w, head, trailer);
    let es = w.index();
    let all = listed_spans(es);
    let end = w.file().len() as int;
    lemma_parts(w, head, trailer, 0);
    lemma_listed_events(es, es.len());
    let n = es.len();
    assert(n * u32::MAX + 1 <= u64::MAX) by (nonlinear_arith)
        requires
            n <= 0x100_0000,
    ;
    lemma_record_in(f, end, trailer);
    let last = with_span(all, end as u64, trailer.len() as u64, 1);
    assert(last =~= all.push(trailer_span(w, trailer)));
    assert(scanned(f, f.len() as int, 0, true, last) == Ok::<Seq<RecordSpan>, HipoError>(last));
}

/// The records from number `k` on are found by walking over damage, behind the spans of those
/// before, and the trailer comes last.
proof fn lemma_walk_on(w: WriterView, head: Seq<u8>, trailer: Seq<u8>, k: nat)
    requires
        sound_file(w, trailer),
        head.len() == 56,
        k <= w.records.len(),
        forall|i: int| 0 <= i < w.records.len() ==> (#[trigger] w.index()[i]).event_count > 0,
        is_tail(trailer),
    ensures
        scanned(
            beheaded(w, head, trailer),
            w.front().len() + run_start(w.records, k as int),
            0,
            true,
            listed_spans(w.index()).subrange(0, k as int),
        ) == Ok::<Seq<RecordSpan>, HipoError>(
            listed_spans(w.index()).push(trailer_span(w, trailer)),
        ),
    decreases w.records.len() - k,
{
    let f = beheaded(w, head, trailer);
    let es = w.index();
    let all = listed_spans(es);
    let front = all.subrange(0, k as int);
    let at = w.front().len() + run_start(w.records, k as int);
    lemma_parts(w, head, trailer, k as int);
    lemma_listed_events(es, k);
    crate::wire::event_index::lemma_events_same(front, all, k);
    assert(events_in(front) == indexed_events(es, k));
    if k < w.records.len() {
        let record = w.records[k as int];
        let e = es[k as int];
        assert(sound_record(record));
        lemma_record_in(f, at, record);
        lemma_listed_events(es, k + 1);
        assert(with_span(front, e.position, e.record_length, e.event_count) =~= all.subrange(
            0,
            (k + 1) as int,
        ));
        lemma_concat_step(w.records, k as int);
        lemma_walk_on(w, head, trailer, k + 1);
    } else {
        assert(w.records.subrange(0, k as int) =~= w.records);
        assert(front =~= all);
        lemma_walk_ends(w, head, trailer);
    }
}

/// The trailer is a record of one event.
proof fn lemma_trailer_is_tail(w: WriterView, trailer: Seq<u8>)
    requires
        is_trailer(trailer, w.index()),
    ensures
        is_tail(trailer),
{
    let events = seq![trailer_event(w.index())];
    lemma_record_header(trailer, events, w.dict, Compression::Uncompressed, no_ident());
}

/// The dictionary record fits where it stands.
proof fn lemma_dictionary_fits(w: WriterView, head: Seq<u8>, trailer: Seq<u8>)
    requires
        w.wf(),
        head.len() == 56,
    ensures
        record_fits(beheaded(w, head, trailer), 56),
        header_in(beheaded(w, head, trailer), 56)->Ok_0.record_length == w.dict_record.len(),
{
    let events = dictionary_events(w.dict, w.tags);
    lemma_record_header(w.dict_record, events, w.dict, Compression::Uncompressed, no_ident());
    lemma_parts(w, head, trailer, 0);
    lemma_record_in(beheaded(w, head, trailer), 56, w.dict_record);
}

/// A dictionary record without events is walked over.
proof fn lemma_empty_dictionary_passed_over(w: WriterView, head: Seq<u8>, trailer: Seq<u8>)
    requires
        w.wf(),
        head.len() == 56,
        w.dict.schemas.len() == 0,
        w.tags.len() == 0,
        beheaded(w, head, trailer).len() <= u64::MAX,
    ensures
        scanned(beheaded(w, head, trailer), 56, 0, true, Seq::empty()) == scanned(
            beheaded(w, head, trailer),
            (56 + w.dict_record.len()) as int,
            0,
            true,
            Seq::empty(),
        ),
{
    let f = beheaded(w, head, trailer);
    let events = dictionary_events(w.dict, w.tags);
    assert(events.len() == 0);
    lemma_record_header(w.dict_record, events, w.dict, Compression::Uncompressed, no_ident());
    lemma_dictionary_fits(w, head, trailer);
    lemma_parts(w, head, trailer, 0);
    lemma_record_in(f, 56, w.dict_record);
}

/// A finished file whose header was overwritten is salvaged whole: its schemas, its tag names,
/// and the place and event count of every record, in order. The header that stands in for the
/// lost one names no trailer. The new bytes must not pass for a record themselves. Where there
/// are tag names there must be a schema: without one a dictionary record with an event in it
/// cannot be told from the others.
pub proof fn law_salvage_finds_everything(w: WriterView, head: Seq<u8>, trailer: Seq<u8>)
    requires
        sound_file(w, trailer),
        head.len() == 56,
        first_record(beheaded(w, head, trailer), salvage_start(beheaded(w, head, trailer)))
            == Some(56int),
        w.dict.schemas.len() > 0 || w.tags.len() == 0,
        forall|i: int| 0 <= i < w.records.len() ==> (#[trigger] w.index()[i]).event_count > 0,
    ensures
        file_salvaged(beheaded(w, head, trailer)) matches Ok(info) && {
            &&& info.dictionary.dict.schemas == w.dict.schemas
            &&& info.dictionary.dict == added(w.dict.schemas, w.dict.schemas.len())
            &&& info.dictionary.tags == w.tags
            &&& info.dictionary.config.len() == 0
            &&& info.spans == listed_spans(w.index())
            &&& info.header.trailer_position == 0
            &&& info.header.record_count == info.spans.len()
        },
{
    let f = beheaded(w, head, trailer);
    let all = listed_spans(w.index());
    lemma_trailer_is_tail(w, trailer);
    lemma_dictionary_fits(w, head, trailer);
    lemma_dictionary_found(w, head, trailer);
    lemma_parts(w, head, trailer, 0);
    lemma_walk_on(w, head, trailer, 0);
    assert(w.records.subrange(0, 0) =~= Seq::<Seq<u8>>::empty());
    assert(all.subrange(0, 0) =~= Seq::<RecordSpan>::empty());
    if w.dict.schemas.len() == 0 {
        lemma_empty_dictionary_passed_over(w, head, trailer);
    }
    lemma_trailer_bank(w, head, trailer);
    let found = all.push(trailer_span(w, trailer));
    assert(without_trailer(f, found) =~= all);
}

/// A finished file that is sound is salvaged whole: what is found is what opening it finds, but
/// for the header.
pub proof fn law_sound_file_is_salvaged(w: WriterView, trailer: Seq<u8>)
    requires
        sound_file(w, trailer),
        w.dict.schemas.len() > 0 || w.tags.len() == 0,
        forall|i: int| 0 <= i < w.records.len() ==> (#[trigger] w.index()[i]).event_count > 0,
    ensures
        file_salvaged(w.closed(trailer)) matches Ok(info) && info.spans == listed_spans(w.index())
            && info.dictionary.dict.schemas == w.dict.schemas && info.dictionary.tags == w.tags
            && info.header.trailer_position == 0 && info.header.record_count == info.spans.len()
            && (file_opened(w.closed(trailer)) matches Ok(opened) && opened.dictionary
            == info.dictionary && opened.spans == info.spans),
{
    let h = closed_header(w.dict_record.len() as u32, w.file().len() as u64);
    let f = beheaded(w, h.encoded(), trailer);
    lemma_header_found(w, h, trailer);
    law_file_header_round_trip(h);
    assert(salvage_start(f) == 56);
    lemma_dictionary_fits(w, h.encoded(), trailer);
    assert(first_record(f, 56) == Some(56int));
    law_salvage_finds_everything(w, h.encoded(), trailer);
    law_finished_file_opens(w, trailer);
}

/// No record stands in zeros.
proof fn lemma_no_record_in_zeros(f: Seq<u8>, off: int)
    requires
        0 <= off,
        off + 56 <= f.len(),
        forall|i: int| off <= i < off + 4 ==> f[i] == 0,
    ensures
        !record_fits(f, off),
{
    let s = f.subrange(off, off + 56);
    reveal(u32_at);
    reveal(be32_at);
    assert(s[0] == 0 && s[1] == 0 && s[2] == 0 && s[3] == 0);
    assert(u32_at(s, 0) == 0);
    assert(be32_at(s, 0) == 0);
}

/// From every fourth byte of a zeroed header on, the first record is the one behind it.
proof fn lemma_zeros_passed_over(f: Seq<u8>, off: int)
    requires
        f.len() >= 112,
        0 <= off <= 56,
        off % 4 == 0,
        forall|i: int| 0 <= i < 56 ==> f[i] == 0,
        record_fits(f, 56),
    ensures
        first_record(f, off) == Some(56int),
    decreases 56 - off,
{
    if off < 56 {
        lemma_no_record_in_zeros(f, off);
        lemma_zeros_passed_over(f, off + 4);
    }
}

/// A finished file whose header was zeroed is salvaged whole.
pub proof fn law_zeroed_header_is_salvaged(w: WriterView, head: Seq<u8>, trailer: Seq<u8>)
    requires
        sound_file(w, trailer),
        head.len() == 56,
        forall|i: int| 0 <= i < 56 ==> head[i] == 0,
        w.dict.schemas.len() > 0 || w.tags.len() == 0,
        forall|i: int| 0 <= i < w.records.len() ==> (#[trigger] w.index()[i]).event_count > 0,
    ensures
        file_salvaged(beheaded(w, head, trailer)) matches Ok(info) && info.spans == listed_spans(
            w.index(),
        ) && info.dictionary.dict.schemas == w.dict.schemas && info.dictionary.tags == w.tags
            && info.header.trailer_position == 0 && info.header.record_count == info.spans.len()
            && (file_opened(w.closed(trailer)) matches Ok(opened) && opened.dictionary
            == info.dictionary && opened.spans == info.spans),
{
    let f = beheaded(w, head, trailer);
    lemma_dictionary_fits(w, head, trailer);
    lemma_parts(w, head, trailer, 0);
    assert forall|i: int| 0 <= i < 56 implies f[i] == 0 by {
        assert(f.subrange(0, 56)[i] == head[i]);
    }
    lemma_zeros_passed_over(f, 0);
    assert(salvage_start(f) == 0) by {
        let s = f.subrange(0, 56);
        reveal(u32_at);
        assert(s[0] == 0 && s[1] == 0 && s[2] == 0 && s[3] == 0);
    }
    law_salvage_finds_everything(w, head, trailer);
    law_finished_file_opens(w, trailer);
}

} // verus!
