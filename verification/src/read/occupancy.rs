//! Occupancy: which banks carry data, in how many events, and how many rows. Every number
//! comes from the extents of banks, so no bank stream is decompressed.

use core::ops::Range;

use vstd::prelude::*;
use crate::error::Result;
use crate::event::event::Event;
#[allow(unused_imports)]
use crate::event::event::{event_structures, StructView};
#[allow(unused_imports)]
use crate::event::view::EventView;
#[allow(unused_imports)]
use crate::read::cells::events_of;
use crate::read::chain::Chain;
#[allow(unused_imports)]
use crate::read::chain::{task_views, ChainView};
#[allow(unused_imports)]
use crate::read::columns::range_pair;
#[allow(unused_imports)]
use crate::read::iter::record_fault;
#[allow(unused_imports)]
use crate::read::merge::flat;
use crate::read::ranges::EventWindow;
#[allow(unused_imports)]
use crate::read::scan::{cap64, window_view};
use crate::read::source::ReadAt;
use crate::read::stored::StoredRecord;
#[allow(unused_imports)]
use crate::read::stored::StoredView;
use crate::schema::types::Schema;
#[allow(unused_imports)]
use crate::schema::types::SchemaView;
use crate::text::owned;

verus! {

/// How much of a chain one bank occupies.
#[derive(Debug, PartialEq, Eq)]
pub struct BankOccupancy {
    pub name: String,
    /// Events with at least one row of the bank.
    pub events: u64,
    pub total_rows: u64,
    /// The most rows that one event has.
    pub max_rows: u32,
}

/// Occupancy of every bank, and the events that it was measured on.
#[derive(Debug, PartialEq, Eq)]
pub struct Occupancy {
    /// Events that lie in the range and pass the filter.
    pub events_scanned: u64,
    /// One entry per schema, in the order of the dictionary.
    pub banks: Vec<BankOccupancy>,
}

/// Counts for one bank. They stay at the largest number that fits.
#[derive(Debug, Clone, Copy, PartialEq, Eq, Structural)]
pub struct Tally {
    pub events: u64,
    pub total_rows: u64,
    pub max_rows: u32,
}

impl Tally {
    /// Nothing counted yet.
    pub open spec fn none() -> Tally {
        Tally { events: 0, total_rows: 0, max_rows: 0 }
    }

    /// One more event, with `rows` rows; without rows it does not count.
    pub open spec fn noted(self, rows: u32) -> Tally {
        if rows == 0 {
            self
        } else {
            Tally {
                events: cap64((self.events + 1) as nat),
                total_rows: cap64((self.total_rows + rows) as nat),
                max_rows: if self.max_rows < rows {
                    rows
                } else {
                    self.max_rows
                },
            }
        }
    }

    /// The counts of two sets of events together.
    pub open spec fn merged(self, other: Tally) -> Tally {
        Tally {
            events: cap64((self.events + other.events) as nat),
            total_rows: cap64((self.total_rows + other.total_rows) as nat),
            max_rows: if self.max_rows < other.max_rows {
                other.max_rows
            } else {
                self.max_rows
            },
        }
    }

    /// Add the counts of other events.
    fn merge(self, other: Tally) -> (r: Tally)
        ensures
            r == self.merged(other),
    {
        Tally {
            events: self.events.saturating_add(other.events),
            total_rows: self.total_rows.saturating_add(other.total_rows),
            max_rows: if self.max_rows < other.max_rows {
                other.max_rows
            } else {
                self.max_rows
            },
        }
    }

    /// Count one more event, with `rows` rows.
    fn note(self, rows: u32) -> (r: Tally)
        ensures
            r == self.noted(rows),
    {
        if rows == 0 {
            return self;
        }
        Tally {
            events: self.events.saturating_add(1),
            total_rows: self.total_rows.saturating_add(rows as u64),
            max_rows: if self.max_rows < rows {
                rows
            } else {
                self.max_rows
            },
        }
    }
}

/// Schema `slot` is the first with this id.
pub open spec fn is_slot(schemas: Seq<SchemaView>, group: u16, item: u8, slot: int) -> bool {
    &&& 0 <= slot < schemas.len()
    &&& schemas[slot].group == group && schemas[slot].item == item
    &&& forall|k: int|
        0 <= k < slot ==> !((#[trigger] schemas[k]).group == group && schemas[k].item == item)
}

/// The counts of bank `slot` after one more structure.
pub open spec fn structure_tally(
    t: Tally,
    st: StructView,
    schemas: Seq<SchemaView>,
    slot: int,
) -> Tally {
    if is_slot(schemas, st.header.group, st.header.item, slot) && schemas[slot].row_size > 0 {
        t.noted((st.data.len() / schemas[slot].row_size as nat) as u32)
    } else {
        t
    }
}

/// The counts of bank `slot` after more structures.
pub open spec fn structures_tally(
    t: Tally,
    st: Seq<StructView>,
    schemas: Seq<SchemaView>,
    slot: int,
) -> Tally
    decreases st.len(),
{
    if st.len() == 0 {
        t
    } else {
        structures_tally(
            structure_tally(t, st[0], schemas, slot),
            st.drop_first(),
            schemas,
            slot,
        )
    }
}

/// The counts of bank `slot` after one more event.
pub open spec fn event_tally(t: Tally, ev: EventView, schemas: Seq<SchemaView>, slot: int) -> Tally {
    let s = schemas[slot];
    match ev {
        EventView::Bytes(x) => structures_tally(t, event_structures(x), schemas, slot),
        EventView::ByBank(v, e) => match v.bank_at(s.group, s.item) {
            Some(b) => if v.has(e, b) && s.row_size > 0 {
                t.noted((v.size(e, b) / s.row_size as int) as u32)
            } else {
                t
            },
            None => t,
        },
        EventView::PerColumn(v, e) => match v.bank_at(s.group, s.item) {
            Some(b) => if v.has(e, b as int) && s.row_size > 0 {
                t.noted((v.size(e, b as int) / s.row_size as int) as u32)
            } else {
                t
            },
            None => t,
        },
    }
}

/// The counts of bank `slot` over the first `n` events.
pub open spec fn events_tally(
    evs: Seq<EventView>,
    schemas: Seq<SchemaView>,
    slot: int,
    n: nat,
) -> Tally
    decreases n,
{
    if n == 0 {
        Tally::none()
    } else {
        event_tally(events_tally(evs, schemas, slot, (n - 1) as nat), evs[n - 1], schemas, slot)
    }
}

/// Only the first events count.
pub(crate) proof fn lemma_tally_prefix(
    a: Seq<EventView>,
    b: Seq<EventView>,
    schemas: Seq<SchemaView>,
    slot: int,
    n: nat,
)
    requires
        n <= a.len(),
        n <= b.len(),
        forall|i: int| 0 <= i < n ==> a[i] == b[i],
    ensures
        events_tally(a, schemas, slot, n) == events_tally(b, schemas, slot, n),
    decreases n,
{
    if n > 0 {
        lemma_tally_prefix(a, b, schemas, slot, (n - 1) as nat);
    }
}

/// What schemas say.
pub open spec fn schema_list(schemas: Seq<Schema>) -> Seq<SchemaView> {
    schemas.map_values(|s: Schema| s@)
}

/// The first schema with this id.
fn slot_of(schemas: &[Schema], group: u16, item: u8) -> (r: Option<usize>)
    ensures
        match r {
            Some(k) => is_slot(schema_list(schemas@), group, item, k as int),
            None => forall|k: int| !is_slot(schema_list(schemas@), group, item, k),
        },
{
    let ghost views = schema_list(schemas@);
    let mut k: usize = 0;
    while k < schemas.len()
        invariant
            k <= schemas.len(),
            views == schema_list(schemas@),
            forall|j: int|
                0 <= j < k ==> !((#[trigger] views[j]).group == group && views[j].item == item),
        decreases schemas.len() - k,
    {
        assert(views[k as int] == schemas@[k as int]@);
        if schemas[k].group() == group && schemas[k].item() == item {
            return Some(k);
        }
        k = k + 1;
    }
    None
}

/// Count the structures of an event.
fn note_structures(event: &Event<'_>, schemas: &[Schema], tallies: &mut Vec<Tally>)
    requires
        old(tallies).len() == schemas.len(),
    ensures
        final(tallies).len() == schemas.len(),
        forall|slot: int|
            0 <= slot < schemas.len() ==> #[trigger] final(tallies)@[slot] == event_tally(
                old(tallies)@[slot],
                EventView::Bytes(event@),
                schema_list(schemas@),
                slot,
            ),
{
    let ghost views = schema_list(schemas@);
    let ghost start = tallies@;
    let ghost all = event_structures(event@);
    let mut it = event.iter_structures();
    loop
        invariant
            it.inv(),
            tallies.len() == schemas.len(),
            start.len() == schemas.len(),
            views == schema_list(schemas@),
            forall|slot: int|
                0 <= slot < schemas.len() ==> structures_tally(
                    #[trigger] tallies@[slot],
                    it@,
                    views,
                    slot,
                ) == structures_tally(start[slot], all, views, slot),
        ensures
            tallies.len() == schemas.len(),
            forall|slot: int|
                0 <= slot < schemas.len() ==> #[trigger] tallies@[slot] == structures_tally(
                    start[slot],
                    all,
                    views,
                    slot,
                ),
        decreases it.left(),
    {
        let ghost rest = it@;
        let ghost before = tallies@;
        match it.next() {
            Some((h, data)) => {
                let ghost st = rest[0];
                match slot_of(schemas, h.group, h.item) {
                    Some(k) => {
                        let row_size: u32 = schemas[k].row_size();
                        assert(views[k as int] == schemas@[k as int]@);
                        if row_size > 0 {
                            let t = tallies[k];
                            tallies.set(k, t.note(data.len() as u32 / row_size));
                        }
                    },
                    None => {},
                }
                assert forall|slot: int| 0 <= slot < schemas.len() implies structures_tally(
                    #[trigger] tallies@[slot],
                    it@,
                    views,
                    slot,
                ) == structures_tally(start[slot], all, views, slot) by {
                    assert(structures_tally(before[slot], rest, views, slot) == structures_tally(
                        start[slot],
                        all,
                        views,
                        slot,
                    ));
                    assert(tallies@[slot] == structure_tally(before[slot], st, views, slot));
                }
            },
            None => {
                break ;
            },
        }
    }
}

/// The record's bank for every schema, where it has one; none of a single-block record.
fn banks_of(rec: &StoredRecord, schemas: &[Schema]) -> (r: Vec<Option<u32>>)
    ensures
        r.len() == schemas.len(),
        forall|k: int|
            0 <= k < r.len() ==> is_bank_of(rec@, schemas@[k]@, #[trigger] r@[k]),
{
    let mut out: Vec<Option<u32>> = Vec::new();
    let mut k: usize = 0;
    while k < schemas.len()
        invariant
            k <= schemas.len(),
            out.len() == k,
            forall|j: int| 0 <= j < k ==> is_bank_of(rec@, schemas@[j]@, #[trigger] out@[j]),
        decreases schemas.len() - k,
    {
        let (g, i) = (schemas[k].group(), schemas[k].item());
        let b = match rec {
            StoredRecord::Chunk(_) => None,
            StoredRecord::ByBank(r) => r.bank_index(g, i),
            StoredRecord::PerColumn(r) => r.bank_index(g, i),
        };
        out.push(b);
        k = k + 1;
    }
    out
}

/// `b` is the bank that the record has for the schema.
pub open spec fn is_bank_of(v: StoredView, s: SchemaView, b: Option<u32>) -> bool {
    match v {
        StoredView::Chunk(_) => b is None,
        StoredView::ByBank(v) => match b {
            Some(b) => b < v.banks() && v.bank_at(s.group, s.item) == Some(b as int),
            None => v.bank_at(s.group, s.item) is None,
        },
        StoredView::PerColumn(v) => match b {
            Some(b) => b < v.banks() && v.bank_at(s.group, s.item) == Some(b as nat),
            None => v.bank_at(s.group, s.item) is None,
        },
    }
}

/// Count event `e` of a record.
fn note_event(
    rec: &StoredRecord,
    e: u32,
    schemas: &[Schema],
    banks: &Vec<Option<u32>>,
    tallies: &mut Vec<Tally>,
)
    requires
        e < rec@.events(),
        banks.len() == schemas.len(),
        forall|k: int|
            0 <= k < banks.len() ==> is_bank_of(rec@, schemas@[k]@, #[trigger] banks@[k]),
        old(tallies).len() == schemas.len(),
    ensures
        final(tallies).len() == schemas.len(),
        forall|slot: int|
            0 <= slot < schemas.len() ==> #[trigger] final(tallies)@[slot] == event_tally(
                old(tallies)@[slot],
                rec@.event(e as int),
                schema_list(schemas@),
                slot,
            ),
{
    if let StoredRecord::Chunk(c) = rec {
        note_structures(&Event::new(c.event(e)), schemas, tallies);
        return;
    }
    let ghost views = schema_list(schemas@);
    let ghost start = tallies@;
    let mut k: usize = 0;
    while k < schemas.len()
        invariant
            k <= schemas.len(),
            rec !is Chunk,
            e < rec@.events(),
            banks.len() == schemas.len(),
            forall|k: int|
                0 <= k < banks.len() ==> is_bank_of(rec@, schemas@[k]@, #[trigger] banks@[k]),
            tallies.len() == schemas.len(),
            start.len() == schemas.len(),
            views == schema_list(schemas@),
            forall|slot: int|
                0 <= slot < k ==> #[trigger] tallies@[slot] == event_tally(
                    start[slot],
                    rec@.event(e as int),
                    views,
                    slot,
                ),
            forall|slot: int| k <= slot < schemas.len() ==> #[trigger] tallies@[slot] == start[slot],
        decreases schemas.len() - k,
    {
        let row_size: u32 = schemas[k].row_size();
        assert(views[k as int] == schemas@[k as int]@);
        assert(is_bank_of(rec@, schemas@[k as int]@, banks@[k as int]));
        if let Some(b) = banks[k] {
            if row_size > 0 {
                let (has, size): (bool, u32) = match rec {
                    StoredRecord::Chunk(_) => (false, 0),
                    StoredRecord::ByBank(r) => (r.has(e, b), r.bank_size(e, b)),
                    StoredRecord::PerColumn(r) => (r.has(e, b), r.bank_size(e, b)),
                };
                if has {
                    let t = tallies[k];
                    tallies.set(k, t.note(size / row_size));
                }
            }
        }
        k = k + 1;
    }
}

impl ChainView {
    /// How a measurement of occupancy ends. Without schemas there is nothing to measure, and
    /// nothing is read.
    pub open spec fn occupancy_end(self, range: Option<(u64, u64)>, r: Result<Occupancy>) -> bool {
        let ts = self.tasks(self.files.len());
        let evs = self.kept(range);
        match r {
            Ok(o) => if self.dict.schemas.len() == 0 {
                o.events_scanned == 0 && o.banks.len() == 0
            } else {
                &&& self.parts_stored(range, ts, ts.len())
                &&& o.events_scanned == cap64(evs.len())
                &&& o.banks.len() == self.dict.schemas.len()
                &&& forall|k: int|
                    0 <= k < o.banks.len() ==> occupies(
                        #[trigger] o.banks@[k],
                        self.dict.schemas[k].name,
                        events_tally(evs, self.dict.schemas, k, evs.len()),
                    )
            },
            Err(e) => self.dict.schemas.len() > 0 && exists|k: int| #[trigger]
                self.part_fails_at(range, ts, k, e),
        }
    }
}

/// The bank has this name and these counts.
pub open spec fn occupies(b: BankOccupancy, name: Seq<char>, t: Tally) -> bool {
    b.name@ == name && b.events == t.events && b.total_rows == t.total_rows && b.max_rows
        == t.max_rows
}

/// The tallies are those of the given events.
pub open spec fn tallied(
    tallies: Seq<Tally>,
    evs: Seq<EventView>,
    schemas: Seq<SchemaView>,
) -> bool {
    &&& tallies.len() == schemas.len()
    &&& forall|slot: int|
        0 <= slot < schemas.len() ==> #[trigger] tallies[slot] == events_tally(
            evs,
            schemas,
            slot,
            evs.len(),
        )
}

/// One more event counted.
proof fn lemma_tallied_push(
    before: Seq<Tally>,
    after: Seq<Tally>,
    evs: Seq<EventView>,
    ev: EventView,
    schemas: Seq<SchemaView>,
)
    requires
        tallied(before, evs, schemas),
        after.len() == schemas.len(),
        forall|slot: int|
            0 <= slot < schemas.len() ==> #[trigger] after[slot] == event_tally(
                before[slot],
                ev,
                schemas,
                slot,
            ),
    ensures
        tallied(after, evs.push(ev), schemas),
{
    let more = evs.push(ev);
    assert forall|slot: int| 0 <= slot < schemas.len() implies #[trigger] after[slot]
        == events_tally(more, schemas, slot, more.len()) by {
        lemma_tally_prefix(more, evs, schemas, slot, evs.len());
        assert(before[slot] == events_tally(evs, schemas, slot, evs.len()));
    }
}

/// What some of a chain's events hold of every bank: how many events they are, and the counts of
/// each schema, in the order of the dictionary.
#[derive(Debug, PartialEq, Eq)]
pub struct RecordTally {
    pub events: u64,
    pub banks: Vec<Tally>,
}

impl RecordTally {
    /// These are the counts of the given events.
    pub open spec fn counts(self, evs: Seq<EventView>, schemas: Seq<SchemaView>) -> bool {
        self.events == cap64(evs.len()) && tallied(self.banks@, evs, schemas)
    }

    /// These are the counts of two sets of events together.
    pub open spec fn is_merged(self, a: RecordTally, b: RecordTally) -> bool {
        &&& self.events == cap64((a.events + b.events) as nat)
        &&& self.banks.len() == a.banks.len()
        &&& forall|k: int|
            0 <= k < self.banks.len() ==> #[trigger] self.banks@[k] == a.banks@[k].merged(
                b.banks@[k],
            )
    }

    /// No events, for `banks` banks.
    fn none(banks: usize) -> (r: Self)
        ensures
            r.events == 0,
            r.banks.len() == banks,
            forall|k: int| 0 <= k < banks ==> #[trigger] r.banks@[k] == Tally::none(),
    {
        let mut tallies: Vec<Tally> = Vec::new();
        let mut k: usize = 0;
        while k < banks
            invariant
                k <= banks,
                tallies.len() == k,
                forall|j: int| 0 <= j < k ==> #[trigger] tallies@[j] == Tally::none(),
            decreases banks - k,
        {
            tallies.push(Tally { events: 0, total_rows: 0, max_rows: 0 });
            k = k + 1;
        }
        RecordTally { events: 0, banks: tallies }
    }

    /// Add the counts of other events of the same chain.
    pub fn merge(&mut self, other: &RecordTally)
        requires
            old(self).banks.len() == other.banks.len(),
        ensures
            final(self).is_merged(*old(self), *other),
    {
        self.events = self.events.saturating_add(other.events);
        let mut k: usize = 0;
        while k < self.banks.len()
            invariant
                k <= self.banks.len(),
                self.banks.len() == old(self).banks.len(),
                self.banks.len() == other.banks.len(),
                self.events == cap64((old(self).events + other.events) as nat),
                forall|j: int|
                    0 <= j < k ==> #[trigger] self.banks@[j] == old(self).banks@[j].merged(
                        other.banks@[j],
                    ),
                forall|j: int|
                    k <= j < self.banks.len() ==> #[trigger] self.banks@[j] == old(self).banks@[j],
            decreases self.banks.len() - k,
        {
            let t = self.banks[k].merge(other.banks[k]);
            self.banks.set(k, t);
            k = k + 1;
        }
    }
}

/// Structures add to counts alike, whatever was counted before.
proof fn lemma_merged_structures(
    a: Tally,
    b: Tally,
    st: Seq<StructView>,
    schemas: Seq<SchemaView>,
    slot: int,
)
    ensures
        a.merged(structures_tally(b, st, schemas, slot)) == structures_tally(
            a.merged(b),
            st,
            schemas,
            slot,
        ),
    decreases st.len(),
{
    if st.len() > 0 {
        lemma_merged_structures(
            a,
            structure_tally(b, st[0], schemas, slot),
            st.drop_first(),
            schemas,
            slot,
        );
    }
}

/// The counts of one bank over two runs of events are merged from those of each.
proof fn lemma_merged_events(
    x: Seq<EventView>,
    y: Seq<EventView>,
    schemas: Seq<SchemaView>,
    slot: int,
    n: nat,
)
    requires
        n <= y.len(),
    ensures
        events_tally(x, schemas, slot, x.len()).merged(events_tally(y, schemas, slot, n))
            == events_tally(x + y, schemas, slot, x.len() + n),
    decreases n,
{
    let a = events_tally(x, schemas, slot, x.len());
    if n == 0 {
        lemma_tally_prefix(x, x + y, schemas, slot, x.len());
    } else {
        let m = (n - 1) as nat;
        lemma_merged_events(x, y, schemas, slot, m);
        let b = events_tally(y, schemas, slot, m);
        let ev = y[m as int];
        assert((x + y)[(x.len() + n) - 1] == ev);
        match ev {
            EventView::Bytes(s) => {
                lemma_merged_structures(a, b, event_structures(s), schemas, slot);
            },
            _ => {},
        }
        assert(a.merged(event_tally(b, ev, schemas, slot)) == event_tally(
            a.merged(b),
            ev,
            schemas,
            slot,
        ));
    }
}

/// Counts of records, merged in any grouping, are the counts of all their events: the records of
/// a chain can be counted apart.
pub proof fn law_merged_counts(
    a: RecordTally,
    b: RecordTally,
    both: RecordTally,
    x: Seq<EventView>,
    y: Seq<EventView>,
    schemas: Seq<SchemaView>,
)
    requires
        a.counts(x, schemas),
        b.counts(y, schemas),
        both.is_merged(a, b),
    ensures
        both.counts(x + y, schemas),
{
    assert forall|slot: int| 0 <= slot < schemas.len() implies #[trigger] both.banks@[slot]
        == events_tally(x + y, schemas, slot, (x + y).len()) by {
        lemma_merged_events(x, y, schemas, slot, y.len());
        assert(a.banks@[slot] == events_tally(x, schemas, slot, x.len()));
        assert(b.banks@[slot] == events_tally(y, schemas, slot, y.len()));
    }
}

impl<S: ReadAt> Chain<S> {
    /// The counts of no events, one for each schema of the chain.
    pub fn no_tally(&self) -> (r: RecordTally)
        ensures
            r.counts(Seq::empty(), self@.dict.schemas),
    {
        let schemas = self.schemas().iter();
        assert(schema_list(schemas@) =~= self@.dict.schemas);
        RecordTally::none(schemas.len())
    }

    /// Count the events of record `rec` of file `f` that lie in the range and pass the filter.
    pub fn record_tally(&self, f: usize, rec: usize, range: Option<(u64, u64)>) -> (r: Result<
        RecordTally,
    >)
        requires
            f < self@.files.len(),
            rec < self@.files[f as int].info.spans.len(),
        ensures
            r matches Ok(t) ==> t.banks.len() == self@.dict.schemas.len(),
            self@.intact() || r is Ok ==> if self@.reads(range, f as int, rec as int) && self@.stored(
                f as int,
                rec as int,
            ) is None {
                r is Err && record_fault(
                    self@.files[f as int].bytes,
                    self@.files[f as int].info.spans[rec as int],
                    self@.files[f as int].info.dictionary.dict,
                    r->Err_0,
                )
            } else {
                r is Ok && r->Ok_0.counts(
                    self@.kept_in(range, f as int, rec as int),
                    self@.dict.schemas,
                )
            },
    {
        let schemas = self.schemas().iter();
        assert(schema_list(schemas@) =~= self@.dict.schemas);
        let none = self.no_tally();
        let mut ranges: Vec<(u64, u64)> = Vec::new();
        let (start, end) = self.record_bounds(f, rec);
        let ghost evs = self@.kept_in(range, f as int, rec as int);
        let ghost views = schema_list(schemas@);
        if let Some((a, b)) = range {
            if end <= a || start >= b {
                assert(evs =~= Seq::empty());
                return Ok(none);
            }
            ranges.push((a, b));
        }
        let window = match range {
            Some(_) => Some(EventWindow { record_start: start, ranges: ranges.as_slice() }),
            None => None,
        };
        proof {
            match range {
                Some(p) => {
                    assert(ranges@ =~= seq![p]);
                },
                None => {},
            }
            assert(window_view(window) == self@.range_window(range, f as int, rec as int));
        }
        let s = match self.process_record(f, rec, window) {
            Ok(s) => s,
            Err(e) => {
                return Err(e);
            },
        };
        let banks = banks_of(&s.record, schemas);
        let mut tallies = none.banks;
        let mut i: usize = 0;
        assert(evs.subrange(0, 0) =~= Seq::empty());
        while i < s.events.len()
            invariant
                i <= s.events.len(),
                views == schema_list(schemas@),
                evs == events_of(s.record@, s.events@),
                forall|k: int|
                    0 <= k < s.events.len() ==> (#[trigger] s.events@[k]) < s.record@.events(),
                banks.len() == schemas.len(),
                forall|k: int|
                    0 <= k < banks.len() ==> is_bank_of(
                        s.record@,
                        schemas@[k]@,
                        #[trigger] banks@[k],
                    ),
                tallies.len() == schemas.len(),
                tallied(tallies@, evs.subrange(0, i as int), views),
            decreases s.events.len() - i,
        {
            let ghost earlier = tallies@;
            note_event(&s.record, s.events[i], schemas, &banks, &mut tallies);
            proof {
                let done = evs.subrange(0, i as int);
                lemma_tallied_push(earlier, tallies@, done, evs[i as int], views);
                assert(done.push(evs[i as int]) =~= evs.subrange(0, i + 1));
            }
            i = i + 1;
        }
        assert(evs.subrange(0, evs.len() as int) =~= evs);
        Ok(RecordTally { events: s.events.len() as u64, banks: tallies })
    }

    /// Occupancy of every bank of the dictionary over the events that lie in the range and pass
    /// the filter. Banks without data are listed with zero counts.
    pub fn bank_occupancy(&self, range: Option<Range<u64>>) -> (r: Result<Occupancy>)
        ensures
            self@.told(r is Ok) ==> self@.occupancy_end(range_pair(range), r),
    {
        match range {
            Some(r) => self.occupancy_in(Some((r.start, r.end))),
            None => self.occupancy_in(None),
        }
    }

    /// [`Self::bank_occupancy`] for a range as a pair of numbers.
    fn occupancy_in(&self, range: Option<(u64, u64)>) -> (r: Result<Occupancy>)
        ensures
            self@.told(r is Ok) ==> self@.occupancy_end(range, r),
    {
        let schemas = self.schemas().iter();
        let ghost views = schema_list(schemas@);
        assert(views =~= self@.dict.schemas);
        if schemas.len() == 0 {
            return Ok(Occupancy { events_scanned: 0, banks: Vec::new() });
        }
        let mut total = self.no_tally();
        let tasks = self.build_tasks();
        let ghost ts = task_views(tasks@);
        let ghost parts = self@.kept_parts(range, ts);
        let mut k: usize = 0;
        while k < tasks.len()
            invariant
                k <= tasks.len(),
                ts == task_views(tasks@),
                views == self@.dict.schemas,
                parts == self@.kept_parts(range, ts),
                total.banks.len() == views.len(),
                forall|i: int|
                    0 <= i < tasks.len() ==> (#[trigger] tasks@[i]).0 < self@.files.len()
                        && tasks@[i].1 < self@.files[tasks@[i].0 as int].info.spans.len(),
                self@.steady() ==> self@.parts_stored(range, ts, k as nat) && total.counts(
                    flat(parts, k as nat),
                    views,
                ),
                self@.steady() ==> ts == self@.tasks(self@.files.len()),
                self@.dict.schemas.len() > 0,
            decreases tasks.len() - k,
        {
            let (f, rec) = tasks[k];
            assert(ts[k as int] == (f as int, rec as int));
            match self.record_tally(f, rec, range) {
                Ok(t) => {
                    let ghost before = total;
                    total.merge(&t);
                    proof {
                        if self@.steady() {
                            law_merged_counts(
                                before,
                                t,
                                total,
                                flat(parts, k as nat),
                                parts[k as int],
                                views,
                            );
                        }
                    }
                },
                Err(e) => {
                    assert(self@.intact() ==> self@.part_fails_at(range, ts, k as int, e));
                    return Err(e);
                },
            }
            k = k + 1;
        }
        Ok(self.occupancy_of(&total))
    }

    /// Counts, under the names of the chain's banks.
    pub fn occupancy_of(&self, total: &RecordTally) -> (r: Occupancy)
        requires
            total.banks.len() == self@.dict.schemas.len(),
        ensures
            r.events_scanned == total.events,
            r.banks.len() == total.banks.len(),
            forall|k: int|
                0 <= k < r.banks.len() ==> occupies(
                    #[trigger] r.banks@[k],
                    self@.dict.schemas[k].name,
                    total.banks@[k],
                ),
    {
        let schemas = self.schemas().iter();
        let ghost views = schema_list(schemas@);
        assert(views =~= self@.dict.schemas);
        let mut banks: Vec<BankOccupancy> = Vec::new();
        let mut k: usize = 0;
        while k < schemas.len()
            invariant
                k <= schemas.len(),
                banks.len() == k,
                total.banks.len() == schemas.len(),
                views == schema_list(schemas@),
                forall|j: int|
                    0 <= j < k ==> occupies(#[trigger] banks@[j], views[j].name, total.banks@[j]),
            decreases schemas.len() - k,
        {
            let t = total.banks[k];
            assert(views[k as int] == schemas@[k as int]@);
            banks.push(
                BankOccupancy {
                    name: owned(schemas[k].name()),
                    events: t.events,
                    total_rows: t.total_rows,
                    max_rows: t.max_rows,
                },
            );
            k = k + 1;
        }
        Occupancy { events_scanned: total.events, banks }
    }
}

} // verus!
