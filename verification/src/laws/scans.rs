//! Scans and filters: what they hand out, count and list.

use core::ops::Range;

use vstd::prelude::*;
use crate::error::HipoError;
use crate::event::ctx::EventCtx;
use crate::event::event::Event;
#[allow(unused_imports)]
use crate::event::view::EventView;
#[allow(unused_imports)]
use crate::laws::chains::{goes_through, has_required};
use crate::read::chain::Chain;
#[allow(unused_imports)]
use crate::read::chain::ChainView;
use crate::read::column_data::ChainRecordSpan;
#[allow(unused_imports)]
use crate::read::columns::range_pair;
use crate::read::filter::Filter;
#[allow(unused_imports)]
use crate::read::filter::bound_ids;
#[allow(unused_imports)]
use crate::read::iter::lets_through;
#[allow(unused_imports)]
use crate::read::merge::flat;
#[allow(unused_imports)]
use crate::read::ranges::{covers, holds_at, is_merged, pairs, touches, touches_at};
use crate::read::scan::ChainStats;
#[allow(unused_imports)]
use crate::read::scan::{handed, in_window, record_handed};
use crate::read::source::ReadAt;
#[allow(unused_imports)]
use crate::schema::dict::DictView;

verus! {

/// A filter asks for the banks with the names it was made of and given, in that order, and for
/// records with the tags it was given; it is active where it asks for anything.
pub proof fn law_filter_asks_for(
    names: &[&str],
    more: &[&str],
    tags: &[u64],
    a: Filter,
    b: Filter,
    c: Filter,
    active: bool,
    i: int,
)
    requires
        call_ensures(Filter::require, (names,), a),
        call_ensures(Filter::and_require, (a, more), b),
        call_ensures(Filter::record_tag, (b, tags), c),
        call_ensures(Filter::is_active, (&c,), active),
    ensures
        c@.names.len() == names@.len() + more@.len(),
        0 <= i < names@.len() ==> c@.names[i] == names@[i]@,
        0 <= i < more@.len() ==> c@.names[names@.len() + i] == more@[i]@,
        c@.record_tags == tags@,
        c@.ids.len() == 0,
        active == (names@.len() > 0 || more@.len() > 0 || tags@.len() > 0),
{
    assert(c@.record_tags =~= tags@);
}

/// The ids of a list of names, all of which the dictionary knows.
proof fn lemma_bound(names: Seq<Seq<char>>, d: DictView)
    requires
        forall|i: int| 0 <= i < names.len() ==> d.named(#[trigger] names[i]) is Some,
    ensures
        bound_ids(names, d).len() == names.len(),
        forall|i: int|
            0 <= i < names.len() ==> (#[trigger] bound_ids(names, d)[i]) == (
                d.named(names[i])->0.group,
                d.named(names[i])->0.item,
            ),
    decreases names.len(),
{
    if names.len() > 0 {
        let front = names.drop_last();
        assert forall|i: int| 0 <= i < front.len() implies d.named(#[trigger] front[i]) is Some by {
            assert(front[i] == names[i]);
        }
        lemma_bound(front, d);
        assert(d.named(names[names.len() - 1]) is Some);
        assert forall|i: int| 0 <= i < names.len() implies (#[trigger] bound_ids(names, d)[i]) == (
            d.named(names[i])->0.group,
            d.named(names[i])->0.item,
        ) by {
            if i < front.len() {
                assert(front[i] == names[i]);
                assert(bound_ids(names, d)[i] == bound_ids(front, d)[i]);
            }
        }
    }
}

/// A filter can be installed exactly where the chain's dictionary knows every bank that it asks
/// for. The chain then goes through the events that have all of those banks, by the ids that the
/// dictionary has for their names, and through no others; its files and its dictionary stay.
pub proof fn law_filter_is_installed<S: ReadAt>(
    chain: Chain<S>,
    filter: Filter,
    r: Result<Chain<S>, HipoError>,
    ev: EventView,
)
    requires
        call_ensures(Chain::<S>::with_filter, (chain, filter), r),
    ensures
        (r is Ok) == (forall|i: int|
            0 <= i < filter@.names.len() ==> chain@.dict.named(#[trigger] filter@.names[i]) is Some),
        r matches Ok(c) ==> {
            &&& c@.files == chain@.files
            &&& c@.dict == chain@.dict
            &&& c@.filter is Some && c@.filter->0.record_tags == filter@.record_tags
            &&& has_required(c@, ev) == (forall|i: int|
                0 <= i < filter@.names.len() ==> ev.has(
                    chain@.dict.named(#[trigger] filter@.names[i])->0.group,
                    chain@.dict.named(filter@.names[i])->0.item,
                ))
        },
{
    if let Ok(c) = r {
        let names = filter@.names;
        lemma_bound(names, chain@.dict);
        let ids = c@.filter->0.ids;
        if has_required(c@, ev) {
            assert forall|i: int| 0 <= i < names.len() implies ev.has(
                chain@.dict.named(#[trigger] names[i])->0.group,
                chain@.dict.named(names[i])->0.item,
            ) by {
                assert(ev.has(ids[i].0, ids[i].1));
            }
        }
        if forall|i: int|
            0 <= i < names.len() ==> ev.has(
                chain@.dict.named(#[trigger] names[i])->0.group,
                chain@.dict.named(names[i])->0.item,
            ) {
            assert forall|i: int| 0 <= i < ids.len() implies ev.has(
                (#[trigger] ids[i]).0,
                ids[i].1,
            ) by {
                assert(chain@.dict.named(names[i]) is Some);
            }
        }
    }
}

/// A single event passes a filter exactly where it has every bank whose id the filter has.
pub proof fn law_filter_checks_ids(f: Filter, e: Event<'_>, r: bool, ids: &[(u16, u8)])
    requires
        call_ensures(Filter::check, (&f, &e), r),
        call_ensures(Filter::required_ids, (&f,), ids),
    ensures
        r == (forall|i: int|
            0 <= i < ids@.len() ==> EventView::Bytes(e@).has((#[trigger] ids@[i]).0, ids@[i].1)),
{
}

/// A record is wanted where no record tags are asked for, or its first user word is one of them.
pub proof fn law_record_tags_choose_records(
    c: ChainView,
    f: int,
    r: int,
    h: crate::wire::record_header::RecordHeader,
)
    requires
        0 <= f < c.files.len(),
        0 <= r < c.files[f].info.spans.len(),
        crate::read::inner::header_in(
            c.files[f].bytes,
            c.files[f].info.spans[r].file_offset as int,
        ) == Ok::<crate::wire::record_header::RecordHeader, HipoError>(h),
    ensures
        c.wants(f, r) == (c.filter matches Some(x) ==> x.record_tags.len() == 0 || exists|i: int|
            0 <= i < x.record_tags.len() && x.record_tags[i] == h.user_word_1),
{
    if let Some(x) = c.filter {
        assert(x.record_tags.contains(h.user_word_1) == (exists|i: int|
            0 <= i < x.record_tags.len() && x.record_tags[i] == h.user_word_1));
    }
}

/// [`Chain::event_tags`] returns the tag of every event that a read over the same range goes
/// through, in the same order.
pub proof fn law_event_tags<S: ReadAt>(
    chain: Chain<S>,
    range: Option<Range<u64>>,
    tags: Vec<u32>,
    i: int,
)
    requires
        call_ensures(Chain::<S>::event_tags, (&chain, range), Ok::<Vec<u32>, HipoError>(tags)),
        chain@.steady(),
    ensures
        tags@.len() == chain@.kept(range_pair(range)).len(),
        0 <= i < tags@.len() ==> tags@[i] == chain@.kept(range_pair(range))[i].tag(),
{
}

/// Every record of the first files, each once and in order.
proof fn lemma_records(c: ChainView, n: nat)
    requires
        n <= c.files.len(),
    ensures
        ({
            let ts = c.records(n);
            &&& forall|i: int|
                0 <= i < ts.len() ==> 0 <= (#[trigger] ts[i]).0 < n && 0 <= ts[i].1
                    < c.files[ts[i].0].info.spans.len()
            &&& forall|i: int, j: int|
                0 <= i < j < ts.len() ==> (#[trigger] ts[i]).0 < (#[trigger] ts[j]).0 || (ts[i].0
                    == ts[j].0 && ts[i].1 < ts[j].1)
            &&& forall|f: int, r: int|
                0 <= f < n && 0 <= r < c.files[f].info.spans.len() ==> #[trigger] ts.contains((f, r))
        }),
    decreases n,
{
    if n > 0 {
        let m = (n - 1) as nat;
        lemma_records(c, m);
        let a = c.records(m);
        let b = Seq::new(c.files[m as int].info.spans.len(), |r: int| (n - 1, r));
        let ts = c.records(n);
        assert(ts == a + b);
        assert forall|f: int, r: int|
            0 <= f < n && 0 <= r < c.files[f].info.spans.len() implies #[trigger] ts.contains(
            (f, r),
        ) by {
            if f < m {
                assert(a.contains((f, r)));
                let i = choose|i: int| 0 <= i < a.len() && a[i] == (f, r);
                assert(ts[i] == (f, r));
            } else {
                assert(ts[a.len() + r] == (f, r));
            }
        }
    }
}

/// [`Chain::record_spans`] lists every record of every file once and in order, with the number of
/// its first event and its number of events.
pub proof fn law_record_spans<S: ReadAt>(chain: Chain<S>, spans: Vec<ChainRecordSpan>, i: int, j: int)
    requires
        chain.inv(),
        call_ensures(Chain::<S>::record_spans, (&chain,), spans),
        chain@.total() <= u64::MAX,
        chain@.files.len() <= usize::MAX,
        forall|f: int|
            0 <= f < chain@.files.len() ==> (#[trigger] chain@.files[f]).info.spans.len()
                <= usize::MAX,
    ensures
        0 <= i < spans@.len() ==> {
            let x = spans@[i];
            &&& x.file_index < chain@.files.len()
            &&& x.record_index < chain@.files[x.file_index as int].info.spans.len()
            &&& x.global_event_start == chain@.record_start(
                x.file_index as int,
                x.record_index as int,
            )
            &&& x.event_count
                == chain@.files[x.file_index as int].info.spans[x.record_index as int].event_count
        },
        0 <= i < j < spans@.len() ==> spans@[i].file_index < spans@[j].file_index
            || (spans@[i].file_index == spans@[j].file_index && spans@[i].record_index
            < spans@[j].record_index),
        forall|f: int, r: int|
            0 <= f < chain@.files.len() && 0 <= r < chain@.files[f].info.spans.len()
                ==> #[trigger] listed(spans@, f, r),
{
    let c = chain@;
    let ts = c.records(c.files.len());
    lemma_records(c, c.files.len());
    crate::read::chain::law_chain_is_numbered(chain);
    if 0 <= i < spans@.len() {
        let (f, r) = ts[i];
        assert(0 <= ts[i].0);
        assert(crate::wire::event_index::numbered(c.files[f].info.spans));
        lemma_start_fits(c, f, r);
    }
    if 0 <= i < j < spans@.len() {
        assert(ts[i].0 < ts[j].0 || (ts[i].0 == ts[j].0 && ts[i].1 < ts[j].1));
        assert(c.files[ts[i].0].info.spans.len() <= usize::MAX);
        assert(c.files[ts[j].0].info.spans.len() <= usize::MAX);
    }
    assert forall|f: int, r: int|
        0 <= f < c.files.len() && 0 <= r < c.files[f].info.spans.len() implies #[trigger] listed(
        spans@,
        f,
        r,
    ) by {
        assert(ts.contains((f, r)));
        let k = choose|k: int| 0 <= k < ts.len() && ts[k] == (f, r);
        assert(c.files[f].info.spans.len() <= usize::MAX);
        assert(spans@[k] == c.record_span(ts[k]));
        assert(spans@[k].file_index == f && spans@[k].record_index == r);
    }
}

/// Record `r` of file `f` is one of these.
pub open spec fn listed(spans: Seq<ChainRecordSpan>, f: int, r: int) -> bool {
    exists|k: int|
        0 <= k < spans.len() && (#[trigger] spans[k]).file_index == f && spans[k].record_index == r
}

/// The number of a record's first event is no larger than the count of events.
proof fn lemma_start_fits(c: ChainView, f: int, r: int)
    requires
        0 <= f < c.files.len(),
        0 <= r < c.files[f].info.spans.len(),
        crate::wire::event_index::numbered(c.files[f].info.spans),
    ensures
        0 <= c.record_start(f, r) <= c.total(),
{
    let spans = c.files[f].info.spans;
    crate::wire::event_index::lemma_events_monotone(spans, r as nat, spans.len());
    crate::read::chain::lemma_base_monotone(c.files, (f + 1) as nat, c.files.len());
    assert(c.base(f + 1) == c.base(f) + crate::wire::event_index::events_in(spans));
    assert(spans[r].first_event == crate::wire::event_index::events_before(spans, r as nat));
}

/// As many events are counted as are kept.
proof fn lemma_counted(c: ChainView, ts: Seq<(int, int)>, n: nat)
    requires
        n <= ts.len(),
    ensures
        c.count_out(None, ts, n) == flat(c.kept_parts(None, ts), n).len(),
    decreases n,
{
    if n > 0 {
        lemma_counted(c, ts, (n - 1) as nat);
    }
}

/// `f` was called with event `e` of record `r` of file `i`, to be read under the dictionary of that
/// file.
pub open spec fn was_handed<F: Fn(&EventCtx<'_>)>(f: F, c: ChainView, i: int, r: int, e: int) -> bool {
    exists|x: &EventCtx<'_>| #[trigger]
        f.ensures((x,), ()) && x@.event == c.stored(i, r)->0.event(e) && x@.dict
            == c.files[i].info.dictionary.dict
}

/// [`Chain::for_each`] hands every event that a read of the whole chain goes through to the
/// function, and counts as many.
pub proof fn law_for_each<S: ReadAt, F: Fn(&EventCtx<'_>)>(
    chain: Chain<S>,
    f: F,
    stats: ChainStats,
    i: int,
    r: int,
    e: int,
)
    requires
        call_ensures(Chain::<S>::for_each::<F>, (&chain, f), Ok::<ChainStats, HipoError>(stats)),
        chain@.steady(),
    ensures
        chain@.kept(None).len() <= u64::MAX ==> stats.events_yielded == chain@.kept(None).len(),
        stats.files == chain@.files.len() as usize,
        goes_through(chain@, None, i, r, e) ==> was_handed(f, chain@, i, r, e),
{
    let c = chain@;
    let ts = c.tasks(c.files.len());
    lemma_counted(c, ts, ts.len());
    if goes_through(c, None, i, r, e) {
        crate::laws::chains::lemma_tasks(c, c.files.len());
        assert(ts.contains((i, r)));
        let k = choose|k: int| 0 <= k < ts.len() && ts[k] == (i, r);
        let v = c.stored(i, r)->0;
        assert(record_handed(
            f,
            c.stored(ts[k].0, ts[k].1)->0,
            c.filter,
            c.window(None, ts[k].0, ts[k].1),
            c.files[ts[k].0].info.dictionary.dict,
        ));
        assert(lets_through(c.filter, v.event(e)));
        assert(handed(f, v.event(e), c.files[i].info.dictionary.dict));
    }
}

proof fn lemma_touched(c: ChainView, ts: Seq<(int, int)>, m: Seq<(u64, u64)>, n: nat, k: int)
    requires
        0 <= k < n <= ts.len(),
        touches(m, c.record_start(ts[k].0, ts[k].1), c.record_end(ts[k].0, ts[k].1)),
    ensures
        c.touched(ts, m, n).contains(ts[k]),
    decreases n,
{
    let before = c.touched(ts, m, (n - 1) as nat);
    let now = c.touched(ts, m, n);
    if k < n - 1 {
        lemma_touched(c, ts, m, (n - 1) as nat, k);
        let i = choose|i: int| 0 <= i < before.len() && before[i] == ts[k];
        assert(now[i] == ts[k]);
    } else {
        assert(now[now.len() - 1] == ts[k]);
    }
}

/// A number that a range holds is held by one of the ranges that touch its record.
proof fn lemma_window(c: ChainView, m: Seq<(u64, u64)>, f: int, r: int, e: int)
    requires
        covers(m, c.record_start(f, r) + e),
        0 <= e < c.files[f].info.spans[r].event_count,
    ensures
        touches(m, c.record_start(f, r), c.record_end(f, r)),
        in_window(c.window(Some(m), f, r), e),
{
    let x = c.record_start(f, r) + e;
    let i = choose|i: int| #[trigger] holds_at(m, i, x);
    assert(touches_at(m, i, c.record_start(f, r), c.record_end(f, r)));
    let p = |y: (u64, u64)| y.1 > c.record_start(f, r) && y.0 < c.record_end(f, r);
    let kept = m.filter(p);
    m.lemma_filter_contains(p, i);
    let j = choose|j: int| 0 <= j < kept.len() && kept[j] == m[i];
    assert(holds_at(kept, j, x));
}

/// [`Chain::for_each_ranges`] hands every event whose number lies in one of the ranges and that a
/// read goes through to the function.
pub proof fn law_for_each_ranges<S: ReadAt, F: Fn(&EventCtx<'_>)>(
    chain: Chain<S>,
    ranges: &[Range<u64>],
    f: F,
    stats: ChainStats,
    i: int,
    r: int,
    e: int,
    k: int,
)
    requires
        chain.inv(),
        call_ensures(
            Chain::<S>::for_each_ranges::<F>,
            (&chain, ranges, f),
            Ok::<ChainStats, HipoError>(stats),
        ),
        chain@.steady(),
        0 <= k < ranges@.len(),
        goes_through(chain@, Some((ranges@[k].start, ranges@[k].end)), i, r, e),
        e < chain@.files[i].info.spans[r].event_count,
    ensures
        was_handed(f, chain@, i, r, e),
{
    let c = chain@;
    let asked = pairs(ranges@);
    let ts = c.tasks(c.files.len());
    let m = choose|m: Seq<(u64, u64)>| #[trigger]
        is_merged(m, asked, c.total() as int) && ({
            let ts = c.touched(ts, m, ts.len());
            c.all_handed(f, Some(m), ts, ts.len())
        });
    let x = c.record_start(i, r) + e;
    assert(holds_at(asked, k, x));
    crate::read::chain::law_chain_is_numbered(chain);
    assert(crate::wire::event_index::numbered(c.files[i].info.spans));
    lemma_end_fits(c, i, r);
    assert(covers(m, x));
    lemma_window(c, m, i, r, e);
    crate::laws::chains::lemma_tasks(c, c.files.len());
    assert(ts.contains((i, r)));
    let t = choose|t: int| 0 <= t < ts.len() && ts[t] == (i, r);
    lemma_touched(c, ts, m, ts.len(), t);
    let us = c.touched(ts, m, ts.len());
    let u = choose|u: int| 0 <= u < us.len() && us[u] == (i, r);
    let v = c.stored(i, r)->0;
    assert(record_handed(
        f,
        c.stored(us[u].0, us[u].1)->0,
        c.filter,
        c.window(Some(m), us[u].0, us[u].1),
        c.files[us[u].0].info.dictionary.dict,
    ));
    assert(lets_through(c.filter, v.event(e)));
    assert(handed(f, v.event(e), c.files[i].info.dictionary.dict));
}

/// The number of one past a record's last event is no larger than the count of events.
proof fn lemma_end_fits(c: ChainView, f: int, r: int)
    requires
        0 <= f < c.files.len(),
        0 <= r < c.files[f].info.spans.len(),
        crate::wire::event_index::numbered(c.files[f].info.spans),
    ensures
        c.record_end(f, r) <= c.total(),
{
    let spans = c.files[f].info.spans;
    crate::wire::event_index::lemma_events_monotone(spans, (r + 1) as nat, spans.len());
    crate::read::chain::lemma_base_monotone(c.files, (f + 1) as nat, c.files.len());
    assert(c.base(f + 1) == c.base(f) + crate::wire::event_index::events_in(spans));
}

/// Merged ranges hold exactly the numbers below the count of events that some of the given ranges
/// holds, and no number twice.
pub proof fn law_ranges_are_merged(ranges: &[Range<u64>], total: u64, m: Vec<(u64, u64)>, x: int)
    requires
        call_ensures(crate::read::ranges::merge_ranges, (ranges, total), m),
    ensures
        (exists|i: int| 0 <= i < m@.len() && (#[trigger] m@[i]).0 <= x < m@[i].1) == (x < total
            && exists|k: int|
            0 <= k < ranges@.len() && (#[trigger] ranges@[k]).start <= x < ranges@[k].end),
        forall|i: int, j: int|
            0 <= i < j < m@.len() ==> (#[trigger] m@[i]).1 < (#[trigger] m@[j]).0,
        forall|i: int| 0 <= i < m@.len() ==> (#[trigger] m@[i]).0 < m@[i].1,
{
    let asked = pairs(ranges@);
    assert(covers(m@, x) == (x < total && covers(asked, x)));
    if exists|i: int| 0 <= i < m@.len() && (#[trigger] m@[i]).0 <= x < m@[i].1 {
        let i = choose|i: int| 0 <= i < m@.len() && (#[trigger] m@[i]).0 <= x < m@[i].1;
        assert(holds_at(m@, i, x));
    }
    if covers(m@, x) {
        let i = choose|i: int| #[trigger] holds_at(m@, i, x);
        assert(m@[i].0 <= x < m@[i].1);
    }
    if covers(asked, x) {
        let k = choose|k: int| #[trigger] holds_at(asked, k, x);
        assert(ranges@[k].start <= x < ranges@[k].end);
    }
    if exists|k: int| 0 <= k < ranges@.len() && (#[trigger] ranges@[k]).start <= x < ranges@[k].end {
        let k = choose|k: int|
            0 <= k < ranges@.len() && (#[trigger] ranges@[k]).start <= x < ranges@[k].end;
        assert(holds_at(asked, k, x));
    }
}

} // verus!
