//! A walk over a chain and a lookup by number agree.

use vstd::prelude::*;
#[allow(unused_imports)]
use crate::read::chain::{
    at_file, dicts_of, events_base, files_stream, law_one_place, ChainView, Place,
};
#[allow(unused_imports)]
use crate::compress::decompressed;
#[allow(unused_imports)]
use crate::event::event::header_at;
#[allow(unused_imports)]
use crate::event::view::EventView;
#[allow(unused_imports)]
use crate::read::inner::record_in;
#[allow(unused_imports)]
use crate::read::iter::{events_stream, records_stream, visit, Item, Visit};
#[allow(unused_imports)]
use crate::read::stored::{stored_decoded, StoredView};
#[allow(unused_imports)]
use crate::read::union::{extends, law_union_extends, union_of};
#[allow(unused_imports)]
use crate::schema::dict::DictView;
#[allow(unused_imports)]
use crate::wire::bytes::u32_at;
#[allow(unused_imports)]
use crate::wire::bytes::Endianness;
#[allow(unused_imports)]
use crate::wire::endian::{
    event_swapped, events_swapped, magic_righted, reversed_at, structure_swapped,
    structures_swapped, swapped_run,
};
#[allow(unused_imports)]
use crate::wire::per_column::PerColumnView;
#[allow(unused_imports)]
use crate::wire::record::{block_of, little_payload};
#[allow(unused_imports)]
use crate::wire::record_header::RecordHeader;
#[allow(unused_imports)]
use crate::wire::event_index::{events_before, events_in, law_each_event_in_one_span, numbered};

verus! {

/// The events of a record.
pub open spec fn record_items(v: StoredView) -> Seq<Item> {
    Seq::new(v.events(), |e: int| Item::Event(v.event(e)))
}

/// The first `n` runs, one after the other.
pub open spec fn joined<T>(runs: Seq<Seq<T>>, n: nat) -> Seq<T>
    decreases n,
{
    if n == 0 {
        Seq::empty()
    } else {
        joined(runs, (n - 1) as nat) + runs[n - 1]
    }
}

/// Where the items of a run stand among those of all runs.
proof fn lemma_joined_at<T>(runs: Seq<Seq<T>>, n: nat, r: int, e: int)
    requires
        n <= runs.len(),
        0 <= r < n,
        0 <= e < runs[r].len(),
    ensures
        joined(runs, r as nat).len() + e < joined(runs, n).len(),
        joined(runs, n)[joined(runs, r as nat).len() + e] == runs[r][e],
    decreases n,
{
    let a = joined(runs, (n - 1) as nat);
    let at = joined(runs, r as nat).len() + e;
    if r < n - 1 {
        lemma_joined_at(runs, (n - 1) as nat, r, e);
        assert((a + runs[n - 1])[at] == a[at]);
    } else {
        assert((a + runs[n - 1])[at] == runs[r][e]);
    }
}

/// One run more.
proof fn lemma_joined_next<T>(runs: Seq<Seq<T>>, n: nat, rest: Seq<T>)
    ensures
        joined(runs, n) + (runs[n as int] + rest) == joined(runs, n + 1) + rest,
{
    assert(joined(runs, n) + (runs[n as int] + rest) =~= joined(runs, n + 1) + rest);
}

impl ChainView {
    /// The events of every record of file `f`.
    pub open spec fn record_runs(self, f: int) -> Seq<Seq<Item>> {
        Seq::new(
            self.files[f].info.spans.len(),
            |r: int| record_items(self.stored(f, r)->0),
        )
    }

    /// The events of every file, each with the number of its file.
    pub open spec fn file_runs(self) -> Seq<Seq<(int, Item)>> {
        Seq::new(
            self.files.len(),
            |f: int| at_file(f, joined(self.record_runs(f), self.record_runs(f).len())),
        )
    }

    /// Record `r` of file `f` can be read, and holds as many events as the index says.
    pub open spec fn sound_at(self, f: int, r: int) -> bool {
        self.stored(f, r) matches Some(v) && v.events() == self.files[f].info.spans[r].event_count
    }

    /// Record `r` of file `f` says the same under the dictionary of the chain as under that of
    /// its file.
    pub open spec fn alike_at(self, f: int, r: int) -> bool {
        self.record_of(f, r) == self.stored(f, r)
    }

    /// Record `r` of file `f` is stored in big-endian order.
    pub open spec fn big_endian_at(self, f: int, r: int) -> bool {
        record_in(
            self.files[f].bytes,
            self.files[f].info.spans[r].file_offset as int,
        ) matches Ok((_, b)) && (RecordHeader::decoded(b) matches Ok(h) && h.endianness
            == Endianness::Big)
    }

    /// Every record can be read, and holds as many events as the index says.
    pub open spec fn sound(self) -> bool {
        &&& forall|i: int| 0 <= i < self.files.len() ==> numbered((#[trigger] self.files[i]).info.spans)
        &&& forall|f: int, r: int|
            0 <= f < self.files.len() && 0 <= r < self.files[f].info.spans.len()
                ==> #[trigger] self.sound_at(f, r)
    }
}

/// Without a filter every event of a record is handed out.
proof fn lemma_record_items(v: StoredView, e: int)
    requires
        0 <= e <= v.events(),
    ensures
        record_items(v).subrange(0, e) + events_stream(v, None, e) == record_items(v),
    decreases v.events() - e,
{
    let all = record_items(v);
    if e < v.events() {
        lemma_record_items(v, e + 1);
        assert(all.subrange(0, e + 1) =~= all.subrange(0, e) + seq![Item::Event(v.event(e))]);
        assert(all.subrange(0, e) + events_stream(v, None, e) =~= all.subrange(0, e + 1)
            + events_stream(v, None, e + 1));
    } else {
        assert(all.subrange(0, e) + events_stream(v, None, e) =~= all);
    }
}

/// Without a filter a walk over a file comes to the events of its records.
proof fn lemma_file_walk(c: ChainView, f: int, r: nat)
    requires
        c.sound(),
        0 <= f < c.files.len(),
        r <= c.files[f].info.spans.len(),
    ensures
        joined(c.record_runs(f), r) + records_stream(c.files[f], None, r as int) == joined(
            c.record_runs(f),
            c.record_runs(f).len(),
        ),
    decreases c.files[f].info.spans.len() - r,
{
    let runs = c.record_runs(f);
    let n = c.files[f].info.spans.len();
    if r < n {
        assert(c.sound_at(f, r as int));
        let v = c.stored(f, r as int)->0;
        assert(visit(c.files[f], None, r as int) == Visit::Read(v));
        lemma_record_items(v, 0);
        assert(record_items(v).subrange(0, 0) + events_stream(v, None, 0) =~= events_stream(
            v,
            None,
            0,
        ));
        lemma_file_walk(c, f, r + 1);
        let rest = records_stream(c.files[f], None, (r + 1) as int);
        assert(runs[r as int] == record_items(v));
        lemma_joined_next(runs, r, rest);
    } else {
        assert(joined(runs, r) + records_stream(c.files[f], None, r as int) =~= joined(runs, n));
    }
}

/// The records of a file hold as many events as the index says, and nothing else.
proof fn lemma_file_len(c: ChainView, f: int, n: nat)
    requires
        c.sound(),
        0 <= f < c.files.len(),
        n <= c.files[f].info.spans.len(),
    ensures
        joined(c.record_runs(f), n).len() == events_before(c.files[f].info.spans, n),
        joined(c.record_runs(f), n).len() > 0 ==> joined(c.record_runs(f), n).last() is Event,
    decreases n,
{
    if n > 0 {
        lemma_file_len(c, f, (n - 1) as nat);
        assert(c.sound_at(f, n - 1));
        let a = joined(c.record_runs(f), (n - 1) as nat);
        let b = record_items(c.stored(f, n - 1)->0);
        assert(c.record_runs(f)[n - 1] == b);
        if b.len() > 0 {
            assert((a + b).last() == b.last());
        } else {
            assert(a + b =~= a);
        }
    }
}

/// Without a filter a walk comes to the events of file `f` and then to those of the next.
proof fn lemma_file_then_rest(c: ChainView, f: int)
    requires
        c.sound(),
        0 <= f < c.files.len(),
    ensures
        files_stream(c.files, None, f) == c.file_runs()[f] + files_stream(c.files, None, f + 1),
{
    let n = c.files[f].info.spans.len();
    let items = records_stream(c.files[f], None, 0);
    lemma_file_walk(c, f, 0);
    assert(joined(c.record_runs(f), 0) + items =~= items);
    lemma_file_len(c, f, n);
}

/// Without a filter a walk over the files comes to their events.
#[verifier::spinoff_prover]
proof fn lemma_chain_walk(c: ChainView, f: nat)
    requires
        c.sound(),
        f <= c.files.len(),
    ensures
        joined(c.file_runs(), f) + files_stream(c.files, None, f as int) == joined(
            c.file_runs(),
            c.files.len(),
        ),
    decreases c.files.len() - f,
{
    let runs = c.file_runs();
    if f < c.files.len() {
        let rest = files_stream(c.files, None, (f + 1) as int);
        lemma_file_then_rest(c, f as int);
        lemma_chain_walk(c, f + 1);
        lemma_joined_next(runs, f, rest);
    } else {
        assert(joined(runs, f) + files_stream(c.files, None, f as int) =~= joined(runs, f));
    }
}

/// The files of a chain hold as many events as the indexes say.
proof fn lemma_chain_len(c: ChainView, n: nat)
    requires
        c.sound(),
        n <= c.files.len(),
    ensures
        joined(c.file_runs(), n).len() == events_base(c.files, n),
    decreases n,
{
    if n > 0 {
        lemma_chain_len(c, (n - 1) as nat);
        lemma_file_len(c, n - 1, c.files[n - 1].info.spans.len());
    }
}

/// Every event of a chain is in one of its files.
proof fn lemma_file_of_event(c: ChainView, idx: int, n: nat) -> (f: int)
    requires
        n <= c.files.len(),
        0 <= idx < events_base(c.files, n),
    ensures
        0 <= f < n,
        c.base(f) <= idx < c.base(f + 1),
    decreases n,
{
    if idx < events_base(c.files, (n - 1) as nat) {
        lemma_file_of_event(c, idx, (n - 1) as nat)
    } else {
        n - 1
    }
}

/// Where the items of a run stand among those of all files, where file `f` is made of runs.
proof fn lemma_joined_twice(
    files: Seq<Seq<(int, Item)>>,
    runs: Seq<Seq<Item>>,
    f: int,
    r: int,
    e: int,
    idx: int,
)
    requires
        0 <= f < files.len(),
        files[f] == at_file(f, joined(runs, runs.len())),
        0 <= r < runs.len(),
        0 <= e < runs[r].len(),
        idx == joined(files, f as nat).len() + joined(runs, r as nat).len() + e,
    ensures
        joined(files, files.len())[idx] == (f, runs[r][e]),
{
    lemma_joined_at(runs, runs.len(), r, e);
    lemma_joined_at(files, files.len(), f, joined(runs, r as nat).len() + e);
}

/// A record holds as many events as the index says.
proof fn lemma_run_len(c: ChainView, f: int, r: int)
    requires
        c.sound(),
        0 <= f < c.files.len(),
        0 <= r < c.files[f].info.spans.len(),
    ensures
        c.stored(f, r) is Some,
        c.record_runs(f)[r] == record_items(c.stored(f, r)->0),
        c.record_runs(f)[r].len() == c.files[f].info.spans[r].event_count,
        c.stored(f, r)->0.events() == c.files[f].info.spans[r].event_count,
{
    assert(c.sound_at(f, r));
}

/// Item `idx` of a walk is that of its place.
proof fn lemma_item_at(c: ChainView, p: Place, idx: int)
    requires
        c.sound(),
        c.is_place(idx, p),
    ensures
        joined(c.file_runs(), c.file_runs().len())[idx] == (
            p.file,
            c.record_runs(p.file)[p.record][p.event],
        ),
{
    let (f, r, e) = (p.file, p.record, p.event);
    lemma_run_len(c, f, r);
    lemma_file_len(c, f, r as nat);
    lemma_chain_len(c, f as nat);
    assert(numbered(c.files[f].info.spans));
    lemma_joined_twice(c.file_runs(), c.record_runs(f), f, r, e, idx);
}

/// The structures of an event are swapped alike under dictionaries that agree on every id.
proof fn lemma_structures_alike(
    s: Seq<u8>,
    pos: int,
    end: int,
    d1: Option<DictView>,
    d2: Option<DictView>,
)
    requires
        same_ids(d1, d2),
    ensures
        structures_swapped(s, pos, end, d1) == structures_swapped(s, pos, end, d2),
    decreases end - pos,
{
    if pos + 8 <= end {
        let t = reversed_at(reversed_at(s, pos, 2), pos + 4, 4);
        let h = header_at(t, pos);
        if pos + 8 + h.data_size <= end {
            let next = pos + 8 + h.data_size;
            assert(structure_swapped(t, pos + 8, next, h, d1) == structure_swapped(
                t,
                pos + 8,
                next,
                h,
                d2,
            ));
            lemma_structures_alike(structure_swapped(t, pos + 8, next, h, d1), next, end, d1, d2);
        }
    }
}

/// Events are swapped alike under dictionaries that agree on every id.
proof fn lemma_events_alike(
    s: Seq<u8>,
    off: int,
    i: nat,
    events: nat,
    d1: Option<DictView>,
    d2: Option<DictView>,
)
    requires
        same_ids(d1, d2),
    ensures
        events_swapped(s, off, i, events, d1) == events_swapped(s, off, i, events, d2),
    decreases events - i,
{
    if i < events {
        let size = if 4 * i + 4 <= s.len() {
            u32_at(s, 4 * i as int)
        } else {
            0
        };
        if off + size <= s.len() {
            let end = off + size;
            if end - off >= 16 {
                let t = reversed_at(
                    reversed_at(reversed_at(magic_righted(s, off), off + 4, 4), off + 8, 4),
                    off + 12,
                    4,
                );
                let stop = if u32_at(t, off + 4) < end - off {
                    off + u32_at(t, off + 4)
                } else {
                    end
                };
                lemma_structures_alike(t, off + 16, stop, d1, d2);
            }
            lemma_events_alike(event_swapped(s, off, end, d1), end, i + 1, events, d1, d2);
        }
    }
}

/// The dictionaries say the same of every id.
pub open spec fn same_ids(d1: Option<DictView>, d2: Option<DictView>) -> bool {
    match (d1, d2) {
        (Some(a), Some(b)) => forall|group: u16, item: u8| #[trigger]
            a.by_id(group, item) == b.by_id(group, item),
        (None, None) => true,
        _ => false,
    }
}

/// A record says the same under two dictionaries, unless it is stored in big-endian order and
/// they differ on some id: only putting such a payload in order takes a dictionary.
pub proof fn law_record_reads_alike(src: Seq<u8>, d1: DictView, d2: DictView)
    requires
        (RecordHeader::decoded(src) matches Ok(h) && h.endianness == Endianness::Big) ==> same_ids(
            Some(d1),
            Some(d2),
        ),
    ensures
        stored_decoded(src, Some(d1)) == stored_decoded(src, Some(d2)),
{
    if let Ok(h) = RecordHeader::decoded(src) {
        if h.endianness == Endianness::Big {
            if let Some(b) = decompressed(
                h.compression.spec_codec(),
                block_of(src, h),
                h.payload_size(),
            ) {
                let index = if h.index_array_length < b.len() {
                    h.index_array_length as nat
                } else {
                    b.len()
                };
                let t = swapped_run(b, 0, index / 4, 4);
                lemma_events_alike(
                    t,
                    h.data_start() as int,
                    0,
                    h.event_count as nat,
                    Some(d1),
                    Some(d2),
                );
                assert(little_payload(h, b, Some(d1)) == little_payload(h, b, Some(d2)));
            }
        }
    }
}

/// An event that is put together comes out the same under the dictionary of its file as under
/// one that says all that it says, where the first knows every bank that the event keeps in
/// columns.
pub proof fn law_event_bytes_carry_over(e: EventView, d1: DictView, d2: DictView)
    requires
        extends(d1, d2),
        knows_columns(d1, e),
    ensures
        e.readable(d1) == e.readable(d2),
        e.bytes(d1) == e.bytes(d2),
{
    if let EventView::PerColumn(v, i) = e {
        lemma_blob_carries_over(v, i, d1, d2, v.banks());
    }
}

proof fn lemma_blob_carries_over(v: PerColumnView, i: int, d1: DictView, d2: DictView, n: nat)
    requires
        n <= v.banks(),
        extends(d1, d2),
        forall|b: int|
            0 <= b < v.banks() && v.cols[b] != 0 && #[trigger] v.has(i, b) ==> d1.by_id(
                v.descriptors[b].group,
                v.descriptors[b].item,
            ) is Some,
    ensures
        v.blob(i, d1, n) == v.blob(i, d2, n),
    decreases n,
{
    if n > 0 {
        lemma_blob_carries_over(v, i, d1, d2, (n - 1) as nat);
        if v.has(i, n - 1) {
            let id = v.descriptors[n - 1];
            assert(v.cols[n - 1] != 0 ==> d1.by_id(id.group, id.item) == d2.by_id(
                id.group,
                id.item,
            ));
            assert(v.bank_filled(i, n - 1, d1) == v.bank_filled(i, n - 1, d2));
        }
    }
}

/// The dictionary of a chain says all that the dictionary of each of its files says.
pub proof fn law_chain_dictionary_extends(c: ChainView, f: int)
    requires
        union_of(dicts_of(c.files)) == Some(c.dict),
        forall|i: int| 0 <= i < c.files.len() ==> (#[trigger] c.files[i]).info.dictionary.dict.wf(),
        0 <= f < c.files.len(),
    ensures
        extends(c.files[f].info.dictionary.dict, c.dict),
{
    let dicts = dicts_of(c.files);
    assert forall|i: int| 0 <= i < dicts.len() implies (#[trigger] dicts[i]).wf() by {
        assert(dicts[i] == c.files[i].info.dictionary.dict);
    }
    law_union_extends(dicts, f);
    assert(dicts[f] == c.files[f].info.dictionary.dict);
}

/// Without a filter, a walk over a chain hands out the events by their numbers: as many as the
/// chain has, and number `idx` is what a lookup of `idx` finds, in the file where it finds it.
/// Every record must be readable and hold as many events as the index says. A lookup reads with
/// the dictionary of the chain, a walk with that of the file: a record in big-endian order must
/// say the same under both, any other does.
pub proof fn law_walk_goes_by_number(c: ChainView, idx: int)
    requires
        c.sound(),
        c.filter is None,
        forall|f: int, r: int|
            0 <= f < c.files.len() && 0 <= r < c.files[f].info.spans.len() && #[trigger]
                c.big_endian_at(f, r) ==> c.alike_at(f, r),
        0 <= idx < c.total(),
    ensures
        c.stream().len() == c.total(),
        c.event_at(idx) is Some,
        c.stream()[idx].1 == Item::Event(c.event_at(idx)->0),
        exists|p: Place| #[trigger] c.is_place(idx, p) && c.stream()[idx].0 == p.file,
{
    let n = c.files.len();
    lemma_chain_walk(c, 0);
    assert(joined(c.file_runs(), 0) + c.stream() =~= c.stream());
    lemma_chain_len(c, n);
    let f = lemma_file_of_event(c, idx, n);
    let spans = c.files[f].info.spans;
    let local = (idx - c.base(f)) as nat;
    assert(c.base(f + 1) == c.base(f) + events_in(spans));
    let r = law_each_event_in_one_span(spans, local);
    let e = local - spans[r].first_event;
    let p = Place { file: f, record: r, event: e };
    assert(c.is_place(idx, p));
    lemma_item_at(c, p, idx);
    lemma_run_len(c, f, r);
    let q = choose|q: Place| c.is_place(idx, q);
    law_one_place(c, idx, p, q);
    assert(c.alike_at(f, r)) by {
        let bytes = c.files[f].bytes;
        if let Ok((_, b)) = record_in(bytes, spans[r].file_offset as int) {
            if !c.big_endian_at(f, r) {
                law_record_reads_alike(b, c.files[f].info.dictionary.dict, c.dict);
            }
        }
    }
    assert(c.event_in(p) == Some(c.stored(f, r)->0.event(e)));
}

/// The banks that an event keeps in columns are known to a dictionary.
pub open spec fn knows_columns(d: DictView, e: EventView) -> bool {
    e matches EventView::PerColumn(v, i) ==> forall|b: int|
        0 <= b < v.banks() && v.cols[b] != 0 && #[trigger] v.has(i, b) ==> d.by_id(
            v.descriptors[b].group,
            v.descriptors[b].item,
        ) is Some
}

/// A walk and a lookup give the same bytes, though each puts an event together under a dictionary
/// of its own: the walk under that of the file, the lookup under that of the chain. Beside what
/// [`law_walk_goes_by_number`] asks, the file must declare the banks that the event keeps in
/// columns.
pub proof fn law_walk_and_lookup_give_the_same_bytes(c: ChainView, idx: int)
    requires
        c.sound(),
        c.filter is None,
        forall|f: int, r: int|
            0 <= f < c.files.len() && 0 <= r < c.files[f].info.spans.len() && #[trigger]
                c.big_endian_at(f, r) ==> c.alike_at(f, r),
        union_of(dicts_of(c.files)) == Some(c.dict),
        forall|i: int| 0 <= i < c.files.len() ==> (#[trigger] c.files[i]).info.dictionary.dict.wf(),
        0 <= idx < c.total(),
        c.event_at(idx) matches Some(e) ==> knows_columns(
            c.files[c.stream()[idx].0].info.dictionary.dict,
            e,
        ),
    ensures
        ({
            let d = c.files[c.stream()[idx].0].info.dictionary.dict;
            &&& c.event_at(idx) matches Some(e) && c.stream()[idx].1 == Item::Event(e)
                && e.readable(c.dict) == e.readable(d) && e.bytes(c.dict) == e.bytes(d)
        }),
{
    law_walk_goes_by_number(c, idx);
    let p = choose|p: Place| #[trigger] c.is_place(idx, p) && c.stream()[idx].0 == p.file;
    let f = c.stream()[idx].0;
    law_chain_dictionary_extends(c, f);
    law_event_bytes_carry_over(
        c.event_at(idx)->0,
        c.files[f].info.dictionary.dict,
        c.dict,
    );
}

} // verus!
