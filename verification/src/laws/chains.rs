//! Chains: how events are numbered, and which of them a read goes through.

use vstd::prelude::*;
use crate::event::owned::OwnedEvent;
#[allow(unused_imports)]
use crate::event::view::EventView;
use crate::read::chain::Chain;
#[allow(unused_imports)]
use crate::read::chain::{task_views, ChainView, Place};
#[allow(unused_imports)]
use crate::read::filter::FilterView;
#[allow(unused_imports)]
use crate::read::iter::lets_through;
#[allow(unused_imports)]
use crate::read::merge::flat;
#[allow(unused_imports)]
use crate::read::ranges::holds_at;
#[allow(unused_imports)]
use crate::read::scan::{in_window, law_picked, picked, WindowView};
use crate::read::source::ReadAt;
#[allow(unused_imports)]
use crate::read::stored::StoredView;
#[allow(unused_imports)]
use crate::wire::event_index::{events_before, events_in, numbered};

verus! {

/// Events are numbered through: the first record of the first file starts at zero, every record
/// where the one before it ends, and the first record of a file where the file before it ends.
pub proof fn law_events_are_numbered_through<S: ReadAt>(chain: Chain<S>, f: int, r: int)
    requires
        chain.inv(),
        0 <= f < chain@.files.len(),
        0 <= r < chain@.files[f].info.spans.len(),
    ensures
        f == 0 && r == 0 ==> chain@.record_start(f, r) == 0,
        chain@.record_end(f, r) == chain@.record_start(f, r)
            + chain@.files[f].info.spans[r].event_count,
        r + 1 < chain@.files[f].info.spans.len() ==> chain@.record_start(f, r + 1)
            == chain@.record_end(f, r),
        r + 1 == chain@.files[f].info.spans.len() && f + 1 < chain@.files.len()
            && chain@.files[f + 1].info.spans.len() > 0 ==> chain@.record_start(f + 1, 0)
            == chain@.record_end(f, r),
        r + 1 == chain@.files[f].info.spans.len() && f + 1 == chain@.files.len() ==> chain@.total()
            == chain@.record_end(f, r),
{
    crate::read::chain::law_chain_is_numbered(chain);
    let c = chain@;
    let spans = c.files[f].info.spans;
    assert(numbered(spans));
    assert(spans[0].first_event == events_before(spans, 0));
    assert(events_before(spans, (r + 1) as nat) == events_before(spans, r as nat)
        + spans[r].event_count);
    assert(c.base(f + 1) == c.base(f) + events_in(spans));
    assert(c.base(0) == 0);
    if r + 1 < spans.len() {
        assert(spans[r + 1].first_event == events_before(spans, (r + 1) as nat));
    } else if f + 1 < c.files.len() && c.files[f + 1].info.spans.len() > 0 {
        let next = c.files[f + 1].info.spans;
        assert(numbered(next));
        assert(next[0].first_event == events_before(next, 0));
    }
}

/// A look-up by number finds the file, the record and the event with that number: the record's
/// start and the event's place in it add up to the number. It finds every number below the count
/// of events and no other.
pub proof fn law_number_is_located<S: ReadAt>(
    chain: Chain<S>,
    idx: u64,
    r: Option<(usize, usize, u32)>,
    count: u64,
)
    requires
        call_ensures(Chain::<S>::locate, (&chain, idx), r),
        call_ensures(Chain::<S>::event_count, (&chain,), count),
    ensures
        (r is Some) == (idx < count),
        r matches Some((f, rec, e)) ==> f < chain@.files.len() && rec
            < chain@.files[f as int].info.spans.len() && e
            < chain@.files[f as int].info.spans[rec as int].event_count && chain@.record_start(
            f as int,
            rec as int,
        ) + e == idx,
{
}

/// The event with a number is the one that a look-up of the number finds in its record.
pub proof fn law_event_by_number<S: ReadAt>(
    chain: Chain<S>,
    idx: u64,
    place: Option<(usize, usize, u32)>,
    ev: Option<OwnedEvent>,
)
    requires
        chain.inv(),
        call_ensures(Chain::<S>::locate, (&chain, idx), place),
        call_ensures(Chain::<S>::event, (&chain, idx), ev),
    ensures
        place is None ==> ev is None,
        ev matches Some(x) ==> x@.dict == chain@.dict && (place matches Some((f, rec, e))
            && chain@.record_of(f as int, rec as int) matches Some(v) && e < v.events() && x@.event
            == v.event(e as int)),
        chain@.intact() && ev is None ==> (place matches Some((f, rec, e)) ==> (chain@.record_of(
            f as int,
            rec as int,
        ) matches Some(v) ==> e >= v.events())),
{
    crate::read::chain::law_chain_is_numbered(chain);
    if let Some((f, rec, e)) = place {
        let p = Place { file: f as int, record: rec as int, event: e as int };
        assert(chain@.is_place(idx as int, p));
        let q = choose|q: Place| chain@.is_place(idx as int, q);
        crate::read::chain::law_one_place(chain@, idx as int, p, q);
    }
}

/// Event `e` of record `r` of file `f` is one that a read goes through: the record is wanted and can
/// be read, the event's number lies in the range, where there is one, and the event has every bank
/// that the filter asks for.
pub open spec fn goes_through(
    c: ChainView,
    range: Option<(u64, u64)>,
    f: int,
    r: int,
    e: int,
) -> bool {
    &&& 0 <= f < c.files.len()
    &&& 0 <= r < c.files[f].info.spans.len()
    &&& c.wants(f, r)
    &&& range matches Some((a, b)) ==> a <= c.record_start(f, r) + e < b
    &&& c.stored(f, r) matches Some(v) && 0 <= e < v.events() && has_required(c, v.event(e))
}

/// The event has every bank that the chain's filter asks for.
pub open spec fn has_required(c: ChainView, ev: EventView) -> bool {
    c.filter matches Some(x) ==> forall|i: int|
        0 <= i < x.ids.len() ==> ev.has((#[trigger] x.ids[i]).0, x.ids[i].1)
}

/// `a` comes before `b`: in an earlier file, or an earlier record, or earlier in the record.
pub open spec fn before(a: (int, int, int), b: (int, int, int)) -> bool {
    a.0 < b.0 || (a.0 == b.0 && (a.1 < b.1 || (a.1 == b.1 && a.2 < b.2)))
}

/// `evs` are the events that a read goes through, all of them and in order; event `i` of them is at
/// `at[i]`: file, record, event.
pub open spec fn are_all(
    c: ChainView,
    range: Option<(u64, u64)>,
    evs: Seq<EventView>,
    at: Seq<(int, int, int)>,
) -> bool {
    &&& at.len() == evs.len()
    &&& forall|i: int|
        0 <= i < at.len() ==> {
            &&& goes_through(c, range, (#[trigger] at[i]).0, at[i].1, at[i].2)
            &&& evs[i] == c.stored(at[i].0, at[i].1)->0.event(at[i].2)
        }
    &&& forall|i: int, j: int|
        0 <= i < j < at.len() ==> before(#[trigger] at[i], #[trigger] at[j])
    &&& forall|f: int, r: int, e: int| #[trigger]
        goes_through(c, range, f, r, e) ==> at.contains((f, r, e))
}

/// The records of a chain that are wanted: each once, in order.
proof fn lemma_file_tasks(c: ChainView, f: int, n: nat)
    ensures
        forall|i: int|
            0 <= i < c.file_tasks(f, n).len() ==> (#[trigger] c.file_tasks(f, n)[i]).0 == f && 0
                <= c.file_tasks(f, n)[i].1 < n && c.wants(f, c.file_tasks(f, n)[i].1),
        forall|i: int, j: int|
            0 <= i < j < c.file_tasks(f, n).len() ==> (#[trigger] c.file_tasks(f, n)[i]).1 < (
            #[trigger] c.file_tasks(f, n)[j]).1,
        forall|r: int|
            0 <= r < n && #[trigger] c.wants(f, r) ==> c.file_tasks(f, n).contains((f, r)),
    decreases n,
{
    if n > 0 {
        lemma_file_tasks(c, f, (n - 1) as nat);
        let a = c.file_tasks(f, (n - 1) as nat);
        let b = c.file_tasks(f, n);
        assert forall|r: int| 0 <= r < n && #[trigger] c.wants(f, r) implies b.contains((f, r)) by {
            if r == n - 1 {
                assert(b[b.len() - 1] == (f, r));
            } else {
                let k = choose|k: int| 0 <= k < a.len() && a[k] == (f, r);
                assert(b[k] == (f, r));
            }
        }
    }
}

/// `ts` are the wanted records of the first `n` files: each once, in order.
pub open spec fn are_wanted_records(c: ChainView, ts: Seq<(int, int)>, n: int) -> bool {
    &&& forall|i: int|
        0 <= i < ts.len() ==> 0 <= (#[trigger] ts[i]).0 < n && 0 <= ts[i].1
            < c.files[ts[i].0].info.spans.len() && c.wants(ts[i].0, ts[i].1)
    &&& forall|i: int, j: int|
        0 <= i < j < ts.len() ==> (#[trigger] ts[i]).0 < (#[trigger] ts[j]).0 || (ts[i].0
            == ts[j].0 && ts[i].1 < ts[j].1)
    &&& forall|f: int, r: int|
        0 <= f < n && 0 <= r < c.files[f].info.spans.len() && #[trigger] c.wants(f, r)
            ==> ts.contains((f, r))
}

pub(crate) proof fn lemma_tasks(c: ChainView, n: nat)
    requires
        n <= c.files.len(),
    ensures
        are_wanted_records(c, c.tasks(n), n as int),
    decreases n,
{
    if n > 0 {
        let m = (n - 1) as nat;
        lemma_tasks(c, m);
        let k = c.files[m as int].info.spans.len();
        lemma_file_tasks(c, m as int, k);
        let a = c.tasks(m);
        let b = c.file_tasks(m as int, k);
        let ts = c.tasks(n);
        assert(ts == a + b);
        assert forall|i: int| 0 <= i < ts.len() implies 0 <= (#[trigger] ts[i]).0 < n && 0
            <= ts[i].1 < c.files[ts[i].0].info.spans.len() && c.wants(ts[i].0, ts[i].1) by {
            if i >= a.len() {
                assert(ts[i] == b[i - a.len()]);
            }
        }
        assert forall|i: int, j: int| 0 <= i < j < ts.len() implies (#[trigger] ts[i]).0 < (
        #[trigger] ts[j]).0 || (ts[i].0 == ts[j].0 && ts[i].1 < ts[j].1) by {
            if i >= a.len() {
                assert(ts[i] == b[i - a.len()]);
            }
            if j >= a.len() {
                assert(ts[j] == b[j - a.len()]);
            }
        }
        assert forall|f: int, r: int|
            0 <= f < n && 0 <= r < c.files[f].info.spans.len() && #[trigger] c.wants(
                f,
                r,
            ) implies ts.contains((f, r)) by {
            if f < m {
                let i = choose|i: int| 0 <= i < a.len() && a[i] == (f, r);
                assert(ts[i] == (f, r));
            } else {
                let i = choose|i: int| 0 <= i < b.len() && b[i] == (f, r);
                assert(ts[a.len() + i] == (f, r));
            }
        }
    }
}

/// The records that a read goes through are those that the filter's record tags want, each once
/// and in order. (Where some reads fail, those of them that were found.)
pub proof fn law_tasks_are_wanted_records<S: ReadAt>(chain: Chain<S>, r: Vec<(usize, usize)>)
    requires
        call_ensures(Chain::<S>::build_tasks, (&chain,), r),
        chain@.steady(),
    ensures
        are_wanted_records(chain@, task_views(r@), chain@.files.len() as int),
        r@.len() == task_views(r@).len(),
        forall|i: int|
            0 <= i < r@.len() ==> task_views(r@)[i] == ((#[trigger] r@[i]).0 as int, r@[i].1 as int),
{
    lemma_tasks(chain@, chain@.files.len());
}

/// Where the events of the first `n` of the records `ts` are.
spec fn places(
    c: ChainView,
    range: Option<(u64, u64)>,
    ts: Seq<(int, int)>,
    n: nat,
) -> Seq<(int, int, int)>
    decreases n,
{
    if n == 0 {
        Seq::empty()
    } else {
        places(c, range, ts, (n - 1) as nat) + places_in(c, range, ts[n - 1].0, ts[n - 1].1)
    }
}

/// Where the events of a record are.
spec fn places_in(c: ChainView, range: Option<(u64, u64)>, f: int, r: int) -> Seq<(int, int, int)> {
    if c.reads(range, f, r) {
        let v = c.stored(f, r)->0;
        let es = picked(v, c.filter, c.range_window(range, f, r), v.events());
        Seq::new(es.len(), |i: int| (f, r, es[i] as int))
    } else {
        Seq::empty()
    }
}

/// Picked events come in order.
proof fn lemma_picked_order(v: StoredView, f: Option<FilterView>, w: Option<WindowView>, n: nat)
    requires
        n <= u32::MAX + 1,
    ensures
        forall|i: int, j: int|
            0 <= i < j < picked(v, f, w, n).len() ==> (#[trigger] picked(v, f, w, n)[i]) < (
            #[trigger] picked(v, f, w, n)[j]),
        forall|i: int| 0 <= i < picked(v, f, w, n).len() ==> (#[trigger] picked(v, f, w, n)[i]) < n,
    decreases n,
{
    if n > 0 {
        lemma_picked_order(v, f, w, (n - 1) as nat);
        let a = picked(v, f, w, (n - 1) as nat);
        let b = picked(v, f, w, n);
        assert forall|i: int| 0 <= i < b.len() implies (#[trigger] b[i]) < n by {
            if i < a.len() {
                assert(b[i] == a[i]);
            }
        }
        assert forall|i: int, j: int| 0 <= i < j < b.len() implies (#[trigger] b[i]) < (
        #[trigger] b[j]) by {
            assert(b[i] == a[i]);
            if j < a.len() {
                assert(b[j] == a[j]);
            }
        }
    }
}

/// A range holds a number exactly where the number is not before its start and before its end.
proof fn lemma_in_range(c: ChainView, range: Option<(u64, u64)>, f: int, r: int, e: int)
    ensures
        in_window(c.range_window(range, f, r), e) == (range matches Some((a, b)) ==> a
            <= c.record_start(f, r) + e < b),
{
    if let Some(p) = range {
        let x = c.record_start(f, r) + e;
        assert(seq![p][0] == p);
        if p.0 <= x < p.1 {
            assert(holds_at(seq![p], 0, x));
        }
    }
}

/// The events of one record.
proof fn lemma_places_in(c: ChainView, range: Option<(u64, u64)>, f: int, r: int)
    requires
        0 <= f < c.files.len(),
        0 <= r < c.files[f].info.spans.len(),
        c.wants(f, r),
        c.sound_at(f, r),
    ensures
        c.kept_in(range, f, r).len() == places_in(c, range, f, r).len(),
        forall|i: int|
            0 <= i < places_in(c, range, f, r).len() ==> {
                let p = #[trigger] places_in(c, range, f, r)[i];
                &&& p.0 == f && p.1 == r
                &&& goes_through(c, range, f, r, p.2)
                &&& c.kept_in(range, f, r)[i] == c.stored(f, r)->0.event(p.2)
            },
        forall|i: int, j: int|
            0 <= i < j < places_in(c, range, f, r).len() ==> (#[trigger] places_in(
                c,
                range,
                f,
                r,
            )[i]).2 < (#[trigger] places_in(c, range, f, r)[j]).2,
        forall|e: int| #[trigger]
            goes_through(c, range, f, r, e) ==> places_in(c, range, f, r).contains((f, r, e)),
{
    let v = c.stored(f, r)->0;
    let w = c.range_window(range, f, r);
    let es = picked(v, c.filter, w, v.events());
    let ps = places_in(c, range, f, r);
    lemma_picked_order(v, c.filter, w, v.events());
    if c.reads(range, f, r) {
        assert forall|i: int| 0 <= i < ps.len() implies {
            let p = #[trigger] ps[i];
            &&& p.0 == f && p.1 == r
            &&& goes_through(c, range, f, r, p.2)
            &&& c.kept_in(range, f, r)[i] == v.event(p.2)
        } by {
            assert(es.contains(es[i]));
            law_picked(v, c.filter, w, v.events(), es[i]);
            lemma_in_range(c, range, f, r, es[i] as int);
            assert(lets_through(c.filter, v.event(es[i] as int)));
            assert(has_required(c, v.event(es[i] as int)));
        }
    }
    assert forall|e: int| #[trigger] goes_through(c, range, f, r, e) implies ps.contains(
        (f, r, e),
    ) by {
        lemma_in_range(c, range, f, r, e);
        assert(c.reads(range, f, r));
        assert(lets_through(c.filter, v.event(e)));
        law_picked(v, c.filter, w, v.events(), e as u32);
        let i = choose|i: int| 0 <= i < es.len() && es[i] == e as u32;
        assert(ps[i] == (f, r, e));
    }
}

/// What is known of the places of the first `n` records.
spec fn placed(c: ChainView, range: Option<(u64, u64)>, ts: Seq<(int, int)>, n: nat) -> bool {
    let at = places(c, range, ts, n);
    let evs = flat(c.kept_parts(range, ts), n);
    &&& at.len() == evs.len()
    &&& forall|i: int|
        0 <= i < at.len() ==> {
            &&& goes_through(c, range, (#[trigger] at[i]).0, at[i].1, at[i].2)
            &&& evs[i] == c.stored(at[i].0, at[i].1)->0.event(at[i].2)
            &&& among(ts, n, at[i])
        }
    &&& forall|i: int, j: int|
        0 <= i < j < at.len() ==> before(#[trigger] at[i], #[trigger] at[j])
    &&& forall|k: int, e: int|
        0 <= k < n && goes_through(c, range, ts[k].0, ts[k].1, e) ==> #[trigger] at.contains(
            (ts[k].0, ts[k].1, e),
        )
}

/// The place is in one of the first `n` records.
spec fn among(ts: Seq<(int, int)>, n: nat, p: (int, int, int)) -> bool {
    exists|k: int| 0 <= k < n && #[trigger] ts[k] == (p.0, p.1)
}

#[verifier::spinoff_prover]
#[verifier::rlimit(60)]
proof fn lemma_placed(c: ChainView, range: Option<(u64, u64)>, ts: Seq<(int, int)>, n: nat)
    requires
        are_wanted_records(c, ts, c.files.len() as int),
        n <= ts.len(),
        forall|k: int| 0 <= k < ts.len() ==> c.sound_at((#[trigger] ts[k]).0, ts[k].1),
    ensures
        placed(c, range, ts, n),
    decreases n,
{
    if n > 0 {
        let m = (n - 1) as nat;
        lemma_placed(c, range, ts, m);
        let (f, r) = ts[m as int];
        assert(c.sound_at(ts[m as int].0, ts[m as int].1));
        lemma_places_in(c, range, f, r);
        let a = places(c, range, ts, m);
        let b = places_in(c, range, f, r);
        let at = places(c, range, ts, n);
        let parts = c.kept_parts(range, ts);
        let ea = flat(parts, m);
        let eb = c.kept_in(range, f, r);
        let evs = flat(parts, n);
        assert(parts[m as int] == eb);
        assert(at == a + b && evs == ea + eb);
        assert forall|i: int| 0 <= i < at.len() implies {
            &&& goes_through(c, range, (#[trigger] at[i]).0, at[i].1, at[i].2)
            &&& evs[i] == c.stored(at[i].0, at[i].1)->0.event(at[i].2)
            &&& among(ts, n, at[i])
        } by {
            if i < a.len() {
                assert(at[i] == a[i]);
                assert(among(ts, m, a[i]));
                let k = choose|k: int| 0 <= k < m && #[trigger] ts[k] == (a[i].0, a[i].1);
                assert(ts[k] == (at[i].0, at[i].1));
            } else {
                assert(at[i] == b[i - a.len()]);
                assert(ts[m as int] == (at[i].0, at[i].1));
            }
        }
        assert forall|i: int, j: int| 0 <= i < j < at.len() implies before(
            #[trigger] at[i],
            #[trigger] at[j],
        ) by {
            if j < a.len() {
                assert(at[i] == a[i] && at[j] == a[j]);
            } else if i >= a.len() {
                assert(at[i] == b[i - a.len()] && at[j] == b[j - a.len()]);
            } else {
                assert(at[i] == a[i] && at[j] == b[j - a.len()]);
                assert(among(ts, m, a[i]));
                let k = choose|k: int| 0 <= k < m && #[trigger] ts[k] == (a[i].0, a[i].1);
                assert(ts[k].0 < ts[m as int].0 || (ts[k].0 == ts[m as int].0 && ts[k].1
                    < ts[m as int].1));
            }
        }
        assert forall|k: int, e: int|
            0 <= k < n && goes_through(c, range, ts[k].0, ts[k].1, e) implies #[trigger] at.contains(
            (ts[k].0, ts[k].1, e),
        ) by {
            let p = (ts[k].0, ts[k].1, e);
            if k < m {
                assert(a.contains(p));
                let i = choose|i: int| 0 <= i < a.len() && a[i] == p;
                assert(at[i] == p);
            } else {
                assert(b.contains(p));
                let i = choose|i: int| 0 <= i < b.len() && b[i] == p;
                assert(at[a.len() + i] == p);
            }
        }
    }
}

/// The events that reads of columns, tags and occupancy go through are, in order and each once, the
/// events of the chain whose record is wanted, whose number lies in the range, and that have every
/// bank that the filter asks for. Every wanted record must be readable and hold as many events as
/// the index says.
pub proof fn law_kept_events(c: ChainView, range: Option<(u64, u64)>) -> (at: Seq<(int, int, int)>)
    requires
        forall|f: int, r: int|
            0 <= f < c.files.len() && 0 <= r < c.files[f].info.spans.len() && c.wants(f, r)
                ==> #[trigger] c.sound_at(f, r),
    ensures
        are_all(c, range, c.kept(range), at),
{
    let ts = c.tasks(c.files.len());
    lemma_tasks(c, c.files.len());
    assert forall|k: int| 0 <= k < ts.len() implies c.sound_at((#[trigger] ts[k]).0, ts[k].1) by {
        assert(c.wants(ts[k].0, ts[k].1));
    }
    lemma_placed(c, range, ts, ts.len());
    let at = places(c, range, ts, ts.len());
    assert forall|f: int, r: int, e: int| #[trigger]
        goes_through(c, range, f, r, e) implies at.contains((f, r, e)) by {
        assert(ts.contains((f, r)));
        let k = choose|k: int| 0 <= k < ts.len() && ts[k] == (f, r);
        assert(goes_through(c, range, ts[k].0, ts[k].1, e));
        assert(at.contains((ts[k].0, ts[k].1, e)));
    }
    at
}

} // verus!
