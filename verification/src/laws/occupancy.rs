//! Occupancy: counts are sums over the events that were scanned.

use core::ops::Range;

use vstd::prelude::*;
use crate::error::HipoError;
#[allow(unused_imports)]
use crate::event::event::{
    event_end, event_structures, next_structure, structure_fits, structures, StructView,
};
#[allow(unused_imports)]
use crate::event::view::EventView;
use crate::read::chain::Chain;
#[allow(unused_imports)]
use crate::read::columns::range_pair;
#[allow(unused_imports)]
use crate::read::occupancy::{event_tally, events_tally, structures_tally, Tally};
use crate::read::occupancy::Occupancy;
use crate::read::source::ReadAt;
#[allow(unused_imports)]
use crate::schema::types::SchemaView;

verus! {

/// The rows that each structure of an event holds of the bank that `s` describes.
pub open spec fn structure_rows(st: Seq<StructView>, s: SchemaView) -> Seq<nat> {
    Seq::new(
        st.len(),
        |i: int|
            if st[i].header.group == s.group && st[i].header.item == s.item && s.row_size > 0 {
                st[i].data.len() / (s.row_size as nat)
            } else {
                0
            },
    )
}

/// The rows that an event holds of the bank that `s` describes, for each time that it has it: once
/// for every structure of that id, or once where the record keeps banks apart.
pub open spec fn rows_of_event(ev: EventView, s: SchemaView) -> Seq<nat> {
    match ev {
        EventView::Bytes(x) => structure_rows(event_structures(x), s),
        EventView::ByBank(v, e) => match v.bank_at(s.group, s.item) {
            Some(b) => if v.has(e, b) && s.row_size > 0 {
                seq![(v.size(e, b) / s.row_size as int) as nat]
            } else {
                seq![]
            },
            None => seq![],
        },
        EventView::PerColumn(v, e) => match v.bank_at(s.group, s.item) {
            Some(b) => if v.has(e, b as int) && s.row_size > 0 {
                seq![(v.size(e, b as int) / s.row_size as int) as nat]
            } else {
                seq![]
            },
            None => seq![],
        },
    }
}

/// The sum of the numbers.
pub open spec fn sum(v: Seq<nat>) -> nat
    decreases v.len(),
{
    if v.len() == 0 {
        0
    } else {
        v[0] + sum(v.drop_first())
    }
}

/// How many of the numbers are not zero.
pub open spec fn positive(v: Seq<nat>) -> nat
    decreases v.len(),
{
    if v.len() == 0 {
        0
    } else {
        positive(v.drop_first()) + (if v[0] > 0 {
            1nat
        } else {
            0
        })
    }
}

/// `m` is the largest of the numbers; zero where there is none.
pub open spec fn is_largest(v: Seq<nat>, m: nat) -> bool {
    &&& forall|i: int| 0 <= i < v.len() ==> #[trigger] v[i] <= m
    &&& m > 0 ==> exists|i: int| 0 <= i < v.len() && v[i] == m
}

/// The rows of every event, one after the other.
pub open spec fn rows_of_events(evs: Seq<EventView>, s: SchemaView) -> Seq<nat>
    decreases evs.len(),
{
    if evs.len() == 0 {
        Seq::empty()
    } else {
        rows_of_events(evs.drop_last(), s) + rows_of_event(evs.last(), s)
    }
}

/// The counts are those of these numbers of rows: their sum, how many are not zero, and the
/// largest. What goes past 64 bits stays at the largest number.
pub open spec fn counts_rows(t: Tally, v: Seq<nat>) -> bool {
    &&& t.total_rows == (if sum(v) <= u64::MAX {
        sum(v)
    } else {
        u64::MAX as nat
    })
    &&& t.events == (if positive(v) <= u64::MAX {
        positive(v)
    } else {
        u64::MAX as nat
    })
    &&& is_largest(v, t.max_rows as nat)
}

proof fn lemma_push(v: Seq<nat>, x: nat)
    ensures
        sum(v.push(x)) == sum(v) + x,
        positive(v.push(x)) == positive(v) + (if x > 0 {
            1nat
        } else {
            0
        }),
    decreases v.len(),
{
    let more = v.push(x);
    if v.len() == 0 {
        assert(more.drop_first() =~= Seq::empty());
        reveal_with_fuel(sum, 2);
        reveal_with_fuel(positive, 2);
    } else {
        assert(more.drop_first() =~= v.drop_first().push(x));
        lemma_push(v.drop_first(), x);
    }
}

/// One more number.
proof fn lemma_noted(t: Tally, v: Seq<nat>, rows: nat)
    requires
        counts_rows(t, v),
        rows <= u32::MAX,
    ensures
        counts_rows(t.noted(rows as u32), v.push(rows)),
{
    lemma_push(v, rows);
    let more = v.push(rows);
    let n = t.noted(rows as u32);
    assert(forall|i: int| 0 <= i < v.len() ==> more[i] == v[i]);
    assert(more[v.len() as int] == rows);
    if n.max_rows > 0 && n.max_rows != rows {
        let i = choose|i: int| 0 <= i < v.len() && v[i] == t.max_rows as nat;
        assert(more[i] == n.max_rows as nat);
    }
}

/// A number of rows that is zero changes nothing.
proof fn lemma_nothing_noted(t: Tally, v: Seq<nat>)
    requires
        counts_rows(t, v),
    ensures
        counts_rows(t, v.push(0)),
{
    lemma_noted(t, v, 0);
}

/// Structures are shorter than 16 MiB.
proof fn lemma_short(s: Seq<u8>, pos: int, end: int, i: int)
    requires
        0 <= pos,
        end <= s.len(),
        0 <= i < structures(s, pos, end).len(),
    ensures
        structures(s, pos, end)[i].data.len() < 0x100_0000,
    decreases end - pos,
{
    if structure_fits(s, pos, end) {
        if i > 0 {
            lemma_short(s, next_structure(s, pos), end, i - 1);
        }
    }
}

/// No schema before `slot` has its id.
pub open spec fn first_with_id(schemas: Seq<SchemaView>, slot: int) -> bool {
    &&& 0 <= slot < schemas.len()
    &&& forall|k: int|
        0 <= k < slot ==> (#[trigger] schemas[k]).group != schemas[slot].group || schemas[k].item
            != schemas[slot].item
}

/// The structures of an event.
proof fn lemma_structures(
    t: Tally,
    v: Seq<nat>,
    st: Seq<StructView>,
    schemas: Seq<SchemaView>,
    slot: int,
)
    requires
        counts_rows(t, v),
        first_with_id(schemas, slot),
        forall|i: int| 0 <= i < st.len() ==> (#[trigger] st[i]).data.len() <= u32::MAX,
    ensures
        counts_rows(
            structures_tally(t, st, schemas, slot),
            v + structure_rows(st, schemas[slot]),
        ),
    decreases st.len(),
{
    let s = schemas[slot];
    if st.len() == 0 {
        assert(v + structure_rows(st, s) =~= v);
    } else {
        let all = structure_rows(st, s);
        let x = all[0];
        assert(v + all =~= v.push(x) + structure_rows(st.drop_first(), s));
        if st[0].header.group == s.group && st[0].header.item == s.item && s.row_size > 0 {
            assert(x <= u32::MAX) by (nonlinear_arith)
                requires
                    x == st[0].data.len() / (s.row_size as nat),
                    st[0].data.len() <= u32::MAX,
                    s.row_size > 0,
            ;
            lemma_noted(t, v, x);
        } else {
            lemma_nothing_noted(t, v);
        }
        lemma_structures(
            crate::read::occupancy::structure_tally(t, st[0], schemas, slot),
            v.push(x),
            st.drop_first(),
            schemas,
            slot,
        );
    }
}

/// One more event.
proof fn lemma_event(
    t: Tally,
    v: Seq<nat>,
    ev: EventView,
    schemas: Seq<SchemaView>,
    slot: int,
)
    requires
        counts_rows(t, v),
        first_with_id(schemas, slot),
        ev.wf(),
    ensures
        counts_rows(event_tally(t, ev, schemas, slot), v + rows_of_event(ev, schemas[slot])),
{
    let s = schemas[slot];
    let more = rows_of_event(ev, s);
    match ev {
        EventView::Bytes(x) => {
            let st = event_structures(x);
            assert forall|i: int| 0 <= i < st.len() implies (#[trigger] st[i]).data.len()
                <= u32::MAX by {
                lemma_short(x, 16, event_end(x), i);
            }
            lemma_structures(t, v, st, schemas, slot);
        },
        EventView::ByBank(w, e) => {
            if more.len() == 0 {
                assert(v + more =~= v);
            } else {
                let b = w.bank_at(s.group, s.item)->0;
                let size = w.size(e, b);
                lemma_by_bank_size(w, e, s);
                lemma_quotient(size, s.row_size as int);
                lemma_noted(t, v, more[0]);
                assert(v + more =~= v.push(more[0]));
            }
        },
        EventView::PerColumn(w, e) => {
            if more.len() == 0 {
                assert(v + more =~= v);
            } else {
                let b = w.bank_at(s.group, s.item)->0;
                w.lemma_bisected(s.group * 256 + s.item, 0, w.banks());
                assert(crate::wire::per_column::offsets_grow(w.offsets[b as int], w.events()));
                let size = w.size(e, b as int);
                lemma_quotient(size, s.row_size as int);
                lemma_noted(t, v, more[0]);
                assert(v + more =~= v.push(more[0]));
            }
        },
    }
}

proof fn lemma_quotient(a: int, b: int)
    by (nonlinear_arith)
    requires
        0 <= a <= u32::MAX,
        b > 0,
    ensures
        0 <= a / b <= u32::MAX,
{
}

/// The bytes of a bank in an event of a per-bank record fit 32 bits.
proof fn lemma_by_bank_size(w: crate::wire::by_bank::ByBankView, e: int, s: SchemaView)
    requires
        w.wf(),
        0 <= e < w.events(),
        w.bank_at(s.group, s.item) is Some,
    ensures
        0 <= w.size(e, w.bank_at(s.group, s.item)->0) <= u32::MAX,
{
    let b = w.bank_at(s.group, s.item)->0;
    assert(crate::wire::by_bank::offsets_ok(w.offsets[b], w.events(), w.sizes[b]));
}

/// The counts of a bank over events are the sum of the rows that the events hold of it, the number
/// of times that there is at least one, and the most that there are at one time.
pub proof fn law_tally_is_a_sum(
    evs: Seq<EventView>,
    schemas: Seq<SchemaView>,
    slot: int,
)
    requires
        first_with_id(schemas, slot),
        forall|i: int| 0 <= i < evs.len() ==> (#[trigger] evs[i]).wf(),
    ensures
        counts_rows(
            events_tally(evs, schemas, slot, evs.len()),
            rows_of_events(evs, schemas[slot]),
        ),
    decreases evs.len(),
{
    if evs.len() > 0 {
        let front = evs.drop_last();
        law_tally_is_a_sum(front, schemas, slot);
        crate::read::occupancy::lemma_tally_prefix(evs, front, schemas, slot, front.len());
        lemma_event(
            events_tally(front, schemas, slot, front.len()),
            rows_of_events(front, schemas[slot]),
            evs.last(),
            schemas,
            slot,
        );
    }
}

/// [`Chain::bank_occupancy`] counts every event that lies in the range and passes the filter; for
/// bank `k` of the dictionary, it gives the sum of the rows that those events hold of it, the
/// number of times that there is at least one, and the most that there are at one time.
pub proof fn law_occupancy_is_a_sum<S: ReadAt>(
    chain: Chain<S>,
    range: Option<Range<u64>>,
    o: Occupancy,
    k: int,
)
    requires
        call_ensures(
            Chain::<S>::bank_occupancy,
            (&chain, range),
            Ok::<Occupancy, HipoError>(o),
        ),
        chain@.steady(),
        forall|i: int|
            0 <= i < chain@.kept(range_pair(range)).len() ==> (#[trigger] chain@.kept(
                range_pair(range),
            )[i]).wf(),
        first_with_id(chain@.dict.schemas, k),
    ensures
        ({
            let evs = chain@.kept(range_pair(range));
            let v = rows_of_events(evs, chain@.dict.schemas[k]);
            &&& o.events_scanned == (if evs.len() <= u64::MAX {
                evs.len()
            } else {
                u64::MAX as nat
            })
            &&& o.banks@.len() == chain@.dict.schemas.len()
            &&& o.banks@[k].name@ == chain@.dict.schemas[k].name
            &&& o.banks@[k].total_rows == (if sum(v) <= u64::MAX {
                sum(v)
            } else {
                u64::MAX as nat
            })
            &&& o.banks@[k].events == (if positive(v) <= u64::MAX {
                positive(v)
            } else {
                u64::MAX as nat
            })
            &&& is_largest(v, o.banks@[k].max_rows as nat)
        }),
{
    law_tally_is_a_sum(chain@.kept(range_pair(range)), chain@.dict.schemas, k);
    let b = o.banks@[k];
}

} // verus!
