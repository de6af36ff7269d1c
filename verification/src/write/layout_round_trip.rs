//! A record gives back the same banks whatever its layout.

use vstd::prelude::*;
#[allow(unused_imports)]
use crate::event::event::{event_structures, found, law_found_iff_present};
#[allow(unused_imports)]
use crate::event::view::EventView;
#[allow(unused_imports)]
use crate::read::stored::{stored_decoded, StoredView};
#[allow(unused_imports)]
use crate::schema::dict::DictView;
#[allow(unused_imports)]
use crate::schema::types::SchemaView;
#[allow(unused_imports)]
use crate::wire::per_column::{id_order, PerColumnView};
#[allow(unused_imports)]
use crate::write::column_round_trip::law_per_column_record_reads_back;
#[allow(unused_imports)]
use crate::write::columns::{is_per_column_record, per_column_written};
#[allow(unused_imports)]
use crate::write::gather::{gathered, pieces_of, TableView};
#[allow(unused_imports)]
use crate::write::record::{
    by_bank_written, is_by_bank_record, Compression, RecordIdent, SplitParts,
};
#[allow(unused_imports)]
use crate::write::round_trip::{
    data_in, events_once, law_by_bank_record_reads_back, law_gathered_banks_cover,
};
#[allow(unused_imports)]
use crate::write::writer::lemma_record_header;

verus! {

/// Two events have the same tag, and the same data in the bank that `s` describes. No column of
/// it is missing in one and there in the other.
pub open spec fn same_bank(a: EventView, b: EventView, s: SchemaView) -> bool {
    &&& a.tag() == b.tag()
    &&& a.has(s.group, s.item) == b.has(s.group, s.item)
    &&& a.bank_data(s) == b.bank_data(s)
    &&& a.lost(s) == b.lost(s)
}

/// An event has a structure only of an id that some table of its record has.
proof fn lemma_untabled(ts: Seq<TableView>, events: Seq<Seq<u8>>, e: int, group: u16, item: u8)
    requires
        gathered(ts, pieces_of(events), events.len()),
        0 <= e < events.len(),
        forall|b: int|
            0 <= b < ts.len() ==> !((#[trigger] ts[b]).group == group && ts[b].item == item),
    ensures
        found(event_structures(events[e]), group, item) is None,
{
    let sts = event_structures(events[e]);
    law_found_iff_present(sts, group, item);
    if found(sts, group, item) is Some {
        let k = choose|k: int|
            0 <= k < sts.len() && (#[trigger] sts[k]).header.group == group && sts[k].header.item
                == item;
        law_gathered_banks_cover(ts, events, e, k);
    }
}

/// An event of a per-bank record has the tag and the banks of the event that was written.
pub proof fn law_by_bank_event_reads_back(
    out: Seq<u8>,
    events: Seq<Seq<u8>>,
    id: RecordIdent,
    p: SplitParts,
    dict: DictView,
    e: int,
    s: SchemaView,
)
    requires
        by_bank_written(out, events, id, p),
        events_once(events),
        0 <= e < events.len(),
    ensures
        stored_decoded(out, Some(dict)) matches Some(v) && v.events() == events.len() && same_bank(
            v.event(e),
            EventView::Bytes(events[e]),
            s,
        ),
{
    let v = law_by_bank_record_reads_back(out, events, id, p);
    assert(is_by_bank_record(out, events, id));
    lemma_record_header(out, events, dict, Compression::Lz4PerBank, id);
    assert(stored_decoded(out, Some(dict)) == Some(StoredView::ByBank(v)));
    let (g, i) = (s.group, s.item);
    match v.bank_at(g, i) {
        Some(b) => {
            assert(v.is_bank(b, g, i));
            assert(v.has(e, b) == (found(event_structures(events[e]), g, i) is Some));
            assert(v.bank_data(e, b) == Some(data_in(event_structures(events[e]), g, i)));
        },
        None => {
            assert forall|b: int| 0 <= b < p.tables.len() implies !((#[trigger] p.tables[b]).group
                == g && p.tables[b].item == i) by {
                if p.tables[b].group == g && p.tables[b].item == i {
                    assert forall|c: int| 0 <= c < b implies !((
                    #[trigger] v.descriptors[c]).group == g && v.descriptors[c].item == i) by {
                        assert(p.tables[c].order() < p.tables[b].order());
                    }
                    assert(v.descriptors[b].group == g);
                    assert(v.is_bank(b, g, i));
                }
            }
            lemma_untabled(p.tables, events, e, g, i);
        },
    }
}

/// Bisection finds the bank of an id among sorted banks.
proof fn lemma_bisection(v: PerColumnView, key: int, lo: nat, hi: nat)
    requires
        v.sorted(),
        hi <= v.banks(),
    ensures
        match v.bisected(key, lo, hi) {
            Some(b) => lo <= b < hi && id_order(v.descriptors[b as int]) == key,
            None => forall|b: int|
                lo <= b < hi ==> id_order(#[trigger] v.descriptors[b]) != key,
        },
    decreases hi - lo,
{
    if lo < hi {
        let mid = lo + (hi - lo) as nat / 2;
        lemma_bisection(v, key, mid + 1, hi);
        lemma_bisection(v, key, lo, mid);
    }
}

/// An event of a per-column record has the tag and the banks of the event that was written,
/// under the schemas that it was written with, whichever dictionary `read` it is decoded with.
pub proof fn law_per_column_event_reads_back(
    out: Seq<u8>,
    events: Seq<Seq<u8>>,
    dict: DictView,
    id: RecordIdent,
    p: SplitParts,
    read: DictView,
    e: int,
    s: SchemaView,
)
    requires
        per_column_written(out, events, dict, id, p),
        events_once(events),
        dict.wf(),
        0 <= e < events.len(),
        dict.by_id(s.group, s.item) is None || dict.by_id(s.group, s.item) == Some(s),
    ensures
        stored_decoded(out, Some(read)) matches Some(v) && v.events() == events.len() && same_bank(
            v.event(e),
            EventView::Bytes(events[e]),
            s,
        ),
{
    let v = law_per_column_record_reads_back(out, events, dict, id, p);
    assert(is_per_column_record(out, events, dict, id));
    lemma_record_header(out, events, dict, Compression::Lz4PerColumn, id);
    assert(stored_decoded(out, Some(read)) == Some(StoredView::PerColumn(v)));
    let (g, i) = (s.group, s.item);
    lemma_bisection(v, g * 256 + i, 0, v.banks());
    match v.bank_at(g, i) {
        Some(b) => {
            let d = v.descriptors[b as int];
            assert(d.group == g && d.item == i);
            assert(v.has(e, b as int) == (found(event_structures(events[e]), g, i) is Some));
            assert(v.bank_data(e, b as int, s) == Some(
                data_in(event_structures(events[e]), g, i),
            ));
        },
        None => {
            assert forall|b: int| 0 <= b < p.tables.len() implies !((#[trigger] p.tables[b]).group
                == g && p.tables[b].item == i) by {
                assert(id_order(v.descriptors[b]) != g * 256 + i);
            }
            lemma_untabled(p.tables, events, e, g, i);
        },
    }
}

} // verus!
