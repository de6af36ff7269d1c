//! Scans: which records of a chain are read, and which of their events are handed out.

use core::ops::Range;

use vstd::prelude::*;
use crate::error::{HipoError, Result};
use crate::event::ctx::EventCtx;
#[allow(unused_imports)]
use crate::event::ctx::CtxView;
#[allow(unused_imports)]
use crate::event::view::EventView;
use crate::read::chain::Chain;
#[allow(unused_imports)]
use crate::read::chain::{task_views, ChainView};
#[allow(unused_imports)]
use crate::read::filter::FilterView;
#[allow(unused_imports)]
use crate::read::iter::{lets_through, record_at, record_fault};
use crate::read::ranges::{merge_ranges, touching, EventWindow};
#[allow(unused_imports)]
use crate::read::ranges::{ascending, covers, holds_at, is_merged, pairs, touches, touches_at};
use crate::read::source::ReadAt;
use crate::read::stored::StoredRecord;
#[allow(unused_imports)]
use crate::read::stored::StoredView;
#[allow(unused_imports)]
use crate::schema::dict::DictView;
#[allow(unused_imports)]
use crate::wire::event_index::{events_in, lemma_events_monotone, numbered};

verus! {

/// Which events of a record are asked for: all of them, or those that ranges of event numbers
/// hold.
pub struct WindowView {
    pub start: int,
    pub ranges: Seq<(u64, u64)>,
}

/// What a window says, if there is one.
pub open spec fn window_view(w: Option<EventWindow<'_>>) -> Option<WindowView> {
    match w {
        Some(w) => Some(WindowView { start: w.record_start as int, ranges: w.ranges@ }),
        None => None,
    }
}

/// Event `e` of a record is asked for.
pub open spec fn in_window(w: Option<WindowView>, e: int) -> bool {
    match w {
        Some(w) => covers(w.ranges, w.start + e),
        None => true,
    }
}

/// Those of the first `n` events of a record that are asked for and pass the filter.
pub open spec fn picked(
    v: StoredView,
    f: Option<FilterView>,
    w: Option<WindowView>,
    n: nat,
) -> Seq<u32>
    decreases n,
{
    if n == 0 {
        Seq::empty()
    } else {
        let before = picked(v, f, w, (n - 1) as nat);
        if in_window(w, n - 1) && lets_through(f, v.event(n - 1)) {
            before.push((n - 1) as u32)
        } else {
            before
        }
    }
}

/// How many of the first `n` events of a record are asked for.
pub open spec fn asked(w: Option<WindowView>, n: nat) -> nat
    decreases n,
{
    if n == 0 {
        0
    } else if in_window(w, n - 1) {
        asked(w, (n - 1) as nat) + 1
    } else {
        asked(w, (n - 1) as nat)
    }
}

/// An event is picked exactly where it is asked for and passes the filter.
pub proof fn law_picked(v: StoredView, f: Option<FilterView>, w: Option<WindowView>, n: nat, e: u32)
    requires
        n <= u32::MAX + 1,
    ensures
        picked(v, f, w, n).contains(e) <==> e < n && in_window(w, e as int) && lets_through(
            f,
            v.event(e as int),
        ),
    decreases n,
{
    if n > 0 {
        law_picked(v, f, w, (n - 1) as nat, e);
        let before = picked(v, f, w, (n - 1) as nat);
        let now = picked(v, f, w, n);
        if before.contains(e) {
            let i = choose|i: int| 0 <= i < before.len() && before[i] == e;
            assert(now[i] == e);
        }
        if now.contains(e) && !before.contains(e) {
            let i = choose|i: int| 0 <= i < now.len() && now[i] == e;
            if i < before.len() {
                assert(before[i] == e);
            }
        }
        if e == n - 1 && in_window(w, n - 1) && lets_through(f, v.event(n - 1)) {
            assert(now[now.len() - 1] == e);
        }
    }
}

/// A record that was read, and which of its events are wanted.
#[derive(Debug)]
pub struct Selection {
    pub record: StoredRecord,
    /// The wanted events, in order.
    pub events: Vec<u32>,
    /// How many events were asked for before the filter.
    pub events_in: u64,
}

/// What a scan went through.
#[derive(Debug, Clone, Copy, PartialEq, Eq, Structural)]
pub struct ChainStats {
    /// Events asked for, before the filter.
    pub events_in: u64,
    /// Events that passed the filter.
    pub events_yielded: u64,
    /// Records read.
    pub records: u64,
    /// Files in the chain.
    pub files: usize,
}

/// A record to read, and the ranges that touch it.
#[derive(Debug, Clone, Copy, PartialEq, Eq, Structural)]
pub struct RangeTask {
    pub file: usize,
    pub record: usize,
    /// The number of the record's first event.
    pub record_start: u64,
    /// The first range that touches the record.
    pub first: usize,
    /// One past the last range that touches the record.
    pub last: usize,
}

impl ChainView {
    /// The number of the first event of record `r` of file `f`.
    pub open spec fn record_start(self, f: int, r: int) -> int {
        self.base(f) + self.files[f].info.spans[r].first_event
    }

    /// The number of one past the last event of record `r` of file `f`.
    pub open spec fn record_end(self, f: int, r: int) -> int {
        self.record_start(f, r) + self.files[f].info.spans[r].event_count
    }

    /// Those of the first `n` records of `ts` that a range touches.
    pub open spec fn touched(self, ts: Seq<(int, int)>, m: Seq<(u64, u64)>, n: nat) -> Seq<
        (int, int),
    >
        decreases n,
    {
        if n == 0 {
            Seq::empty()
        } else {
            let before = self.touched(ts, m, (n - 1) as nat);
            let (f, r) = ts[n - 1];
            if touches(m, self.record_start(f, r), self.record_end(f, r)) {
                before.push((f, r))
            } else {
                before
            }
        }
    }

    /// Record `r` of file `f`, decoded.
    pub open spec fn stored(self, f: int, r: int) -> Option<StoredView> {
        record_at(
            self.files[f].bytes,
            self.files[f].info.spans[r],
            self.files[f].info.dictionary.dict,
        )
    }

    /// The window of a record: everything, or the ranges that touch it.
    pub open spec fn window(self, m: Option<Seq<(u64, u64)>>, f: int, r: int) -> Option<WindowView> {
        match m {
            Some(m) => Some(
                WindowView {
                    start: self.record_start(f, r),
                    ranges: m.filter(
                        |x: (u64, u64)|
                            x.1 > self.record_start(f, r) && x.0 < self.record_end(f, r),
                    ),
                },
            ),
            None => None,
        }
    }
}

/// The ranges from `first` up to `last` are the ones that touch a record.
proof fn lemma_filter_is_slice(m: Seq<(u64, u64)>, first: int, last: int, a: int, b: int)
    requires
        0 <= first <= last <= m.len(),
        forall|i: int| first <= i < last <==> #[trigger] touches_at(m, i, a, b),
    ensures
        m.filter(|x: (u64, u64)| x.1 > a && x.0 < b) == m.subrange(first, last),
    decreases m.len(),
{
    let p = |x: (u64, u64)| x.1 > a && x.0 < b;
    reveal(Seq::filter);
    if m.len() > 0 {
        let front = m.drop_last();
        let n = m.len() - 1;
        if last == m.len() {
            if first == last {
                assert(!touches_at(m, n, a, b));
                assert forall|i: int| first - 1 <= i < last - 1 <==> #[trigger] touches_at(
                    front,
                    i,
                    a,
                    b,
                ) by {
                    if 0 <= i < n {
                        assert(touches_at(m, i, a, b) == touches_at(front, i, a, b));
                    }
                }
                lemma_filter_is_slice(front, first - 1, last - 1, a, b);
                assert(front.subrange(first - 1, last - 1) =~= m.subrange(first, last));
            } else {
                assert(touches_at(m, n, a, b));
                assert forall|i: int| first <= i < last - 1 <==> #[trigger] touches_at(
                    front,
                    i,
                    a,
                    b,
                ) by {
                    if 0 <= i < n {
                        assert(touches_at(m, i, a, b) == touches_at(front, i, a, b));
                    }
                }
                lemma_filter_is_slice(front, first, last - 1, a, b);
                assert(m.subrange(first, last) =~= front.subrange(first, last - 1).push(m[n]));
            }
        } else {
            assert(!touches_at(m, n, a, b));
            assert forall|i: int| first <= i < last <==> #[trigger] touches_at(front, i, a, b) by {
                if 0 <= i < n {
                    assert(touches_at(m, i, a, b) == touches_at(front, i, a, b));
                }
            }
            lemma_filter_is_slice(front, first, last, a, b);
            assert(front.subrange(first, last) =~= m.subrange(first, last));
        }
    } else {
        assert(m.subrange(first, last) =~= m.filter(p));
    }
}

impl<S: ReadAt> Chain<S> {
    /// The number of the first event of record `rec` of file `f`, and of one past its last.
    pub(crate) fn record_bounds(&self, f: usize, rec: usize) -> (r: (u64, u64))
        requires
            f < self@.files.len(),
            rec < self@.files[f as int].info.spans.len(),
        ensures
            r.0 == self@.record_start(f as int, rec as int),
            r.1 == self@.record_end(f as int, rec as int),
            r.1 <= self@.total(),
    {
        let offsets = self.event_offsets();
        let total: u64 = self.event_count();
        let span = self.file(f).index().records()[rec];
        proof {
            let spans = self@.files[f as int].info.spans;
            assert(numbered(spans));
            assert(offsets@[f as int] == self@.base(f as int));
            lemma_events_monotone(spans, (rec + 1) as nat, spans.len());
            crate::read::chain::lemma_base_monotone(
                self@.files,
                (f + 1) as nat,
                self@.files.len(),
            );
            assert(self@.base(f + 1) == self@.base(f as int) + events_in(spans));
        }
        let start: u64 = offsets[f] + span.first_event;
        (start, start + span.event_count as u64)
    }

    /// Read and decode record `rec` of file `f`.
    pub(crate) fn load_record(&self, f: usize, rec: usize) -> (r: Result<StoredRecord>)
        requires
            f < self@.files.len(),
            rec < self@.files[f as int].info.spans.len(),
        ensures
            self@.intact() || r is Ok ==> match self@.stored(f as int, rec as int) {
                Some(v) => r is Ok && r->Ok_0@ == v,
                None => r is Err && record_fault(
                    self@.files[f as int].bytes,
                    self@.files[f as int].info.spans[rec as int],
                    self@.files[f as int].info.dictionary.dict,
                    r->Err_0,
                ),
            },
    {
        let inner = self.file(f);
        let offset: u64 = inner.index().records()[rec].file_offset;
        match inner.read_record(offset) {
            Ok((_, raw)) => StoredRecord::decode(raw.as_slice(), Some(inner.dict())),
            Err(e) => Err(e),
        }
    }

    /// Read record `rec` of file `f`, and pick those of its events that are asked for and pass
    /// the filter.
    pub fn process_record(&self, f: usize, rec: usize, window: Option<EventWindow<'_>>) -> (r:
        Result<Selection>)
        requires
            f < self@.files.len(),
            rec < self@.files[f as int].info.spans.len(),
        ensures
            self@.intact() || r is Ok ==> match self@.stored(f as int, rec as int) {
                Some(v) => {
                    &&& r is Ok
                    &&& r->Ok_0.record@ == v
                    &&& r->Ok_0.events@ == picked(
                        v,
                        self@.filter,
                        window_view(window),
                        v.events(),
                    )
                    &&& r->Ok_0.events_in == asked(window_view(window), v.events())
                },
                None => r is Err && record_fault(
                    self@.files[f as int].bytes,
                    self@.files[f as int].info.spans[rec as int],
                    self@.files[f as int].info.dictionary.dict,
                    r->Err_0,
                ),
            },
            r matches Ok(s) ==> (forall|i: int|
                0 <= i < s.events.len() ==> (#[trigger] s.events@[i]) < s.record@.events()),
    {
        let record = match self.load_record(f, rec) {
            Ok(record) => record,
            Err(e) => {
                return Err(e);
            },
        };
        let ghost w = window_view(window);
        let filter = self.filter_ref();
        let n: u32 = record.event_count();
        let mut events: Vec<u32> = Vec::new();
        let mut events_in: u64 = 0;
        let mut e: u32 = 0;
        assert(events@ =~= picked(record@, self@.filter, w, 0));
        while e < n
            invariant
                e <= n,
                n == record@.events(),
                w == window_view(window),
                events@ == picked(record@, self@.filter, w, e as nat),
                events_in == asked(w, e as nat),
                events_in <= e,
                match filter {
                    Some(f) => self@.filter == Some(f@),
                    None => self@.filter is None,
                },
                forall|i: int| 0 <= i < events.len() ==> (#[trigger] events@[i]) < n,
            decreases n - e,
        {
            let inside = match &window {
                Some(win) => win.holds(e as u64),
                None => true,
            };
            assert(inside == in_window(w, e as int));
            if inside {
                events_in = events_in + 1;
                let pass = match filter {
                    Some(f) => record.passes(f, e),
                    None => true,
                };
                if pass {
                    events.push(e);
                }
            }
            e = e + 1;
        }
        Ok(Selection { record, events, events_in })
    }

    /// The wanted records that a range touches, each with the ranges that do.
    pub fn range_tasks(&self, merged: &[(u64, u64)]) -> (r: Vec<RangeTask>)
        requires
            ascending(merged@),
        ensures
            self@.steady() ==> range_views(r@) == self@.touched(
                self@.tasks(self@.files.len()),
                merged@,
                self@.tasks(self@.files.len()).len(),
            ),
            forall|i: int| 0 <= i < r.len() ==> self.is_range_task(merged@, #[trigger] r@[i]),
    {
        let tasks = self.build_tasks();
        let ghost tv = task_views(tasks@);
        let mut out: Vec<RangeTask> = Vec::new();
        let mut i: usize = 0;
        assert(range_views(out@) =~= self@.touched(tv, merged@, 0));
        while i < tasks.len()
            invariant
                i <= tasks.len(),
                ascending(merged@),
                tv == task_views(tasks@),
                forall|k: int| 0 <= k < tasks.len() ==> self@.is_task(#[trigger] tasks@[k]),
                range_views(out@) == self@.touched(tv, merged@, i as nat),
                forall|k: int|
                    0 <= k < out.len() ==> self.is_range_task(merged@, #[trigger] out@[k]),
            decreases tasks.len() - i,
        {
            let (f, rec) = tasks[i];
            let (start, end) = self.record_bounds(f, rec);
            let (first, last) = touching(merged, start, end);
            let ghost before = range_views(out@);
            assert(tv[i as int] == (f as int, rec as int));
            if first < last {
                let t = RangeTask { file: f, record: rec, record_start: start, first, last };
                out.push(t);
                assert(self.is_range_task(merged@, t));
                assert(range_views(out@) =~= before.push((f as int, rec as int)));
            }
            i = i + 1;
        }
        out
    }

    /// The task is that of a record, with the ranges that touch it.
    pub open spec fn is_range_task(self, m: Seq<(u64, u64)>, t: RangeTask) -> bool {
        &&& t.file < self@.files.len()
        &&& t.record < self@.files[t.file as int].info.spans.len()
        &&& self@.wants(t.file as int, t.record as int)
        &&& t.record_start == self@.record_start(t.file as int, t.record as int)
        &&& t.first <= t.last <= m.len()
        &&& forall|i: int|
            t.first <= i < t.last <==> #[trigger] touches_at(
                m,
                i,
                self@.record_start(t.file as int, t.record as int),
                self@.record_end(t.file as int, t.record as int),
            )
    }
}

/// File and record numbers of tasks.
pub open spec fn range_views(tasks: Seq<RangeTask>) -> Seq<(int, int)> {
    tasks.map_values(|t: RangeTask| (t.file as int, t.record as int))
}

/// A count that saturates at 64 bits.
pub open spec fn cap64(n: nat) -> u64 {
    if n > u64::MAX {
        u64::MAX
    } else {
        n as u64
    }
}

impl ChainView {
    /// How many events of the first `n` records of `ts` are asked for.
    pub open spec fn count_in(self, m: Option<Seq<(u64, u64)>>, ts: Seq<(int, int)>, n: nat) -> nat
        decreases n,
    {
        if n == 0 {
            0
        } else {
            let (f, r) = ts[n - 1];
            self.count_in(m, ts, (n - 1) as nat) + asked(
                self.window(m, f, r),
                self.stored(f, r)->0.events(),
            )
        }
    }

    /// How many events of the first `n` records of `ts` are asked for and pass the filter.
    pub open spec fn count_out(self, m: Option<Seq<(u64, u64)>>, ts: Seq<(int, int)>, n: nat) -> nat
        decreases n,
    {
        if n == 0 {
            0
        } else {
            let (f, r) = ts[n - 1];
            self.count_out(m, ts, (n - 1) as nat) + picked(
                self.stored(f, r)->0,
                self.filter,
                self.window(m, f, r),
                self.stored(f, r)->0.events(),
            ).len()
        }
    }

    /// The first `n` records of `ts` can be read.
    pub open spec fn all_stored(self, ts: Seq<(int, int)>, n: nat) -> bool {
        forall|k: int| 0 <= k < n ==> self.stored((#[trigger] ts[k]).0, ts[k].1) is Some
    }

    /// How a scan of the records `ts` ends: with its counts, or with the error of the first
    /// record that cannot be read.
    pub open spec fn scan_ends(
        self,
        m: Option<Seq<(u64, u64)>>,
        ts: Seq<(int, int)>,
        r: Result<ChainStats>,
    ) -> bool {
        match r {
            Ok(s) => self.all_stored(ts, ts.len()) && s == (ChainStats {
                events_in: cap64(self.count_in(m, ts, ts.len())),
                events_yielded: cap64(self.count_out(m, ts, ts.len())),
                records: ts.len() as u64,
                files: self.files.len() as usize,
            }),
            Err(e) => exists|k: int| #[trigger] self.scan_fails_at(ts, k, e),
        }
    }

    /// Record `k` of `ts` is the first that cannot be read, and `e` is its error.
    pub open spec fn scan_fails_at(self, ts: Seq<(int, int)>, k: int, e: HipoError) -> bool {
        &&& 0 <= k < ts.len()
        &&& self.all_stored(ts, k as nat)
        &&& self.stored(ts[k].0, ts[k].1) is None
        &&& record_fault(
            self.files[ts[k].0].bytes,
            self.files[ts[k].0].info.spans[ts[k].1],
            self.files[ts[k].0].info.dictionary.dict,
            e,
        )
    }
}

impl ChainView {
    /// A scan hands out `x`: it is event `e` of record `r` of file `f`, which is wanted, has a
    /// number in one of the ranges, where there are any, and passes the filter. It is read under
    /// the dictionary of its file.
    pub open spec fn hands_out(
        self,
        ranges: Option<Seq<(u64, u64)>>,
        f: int,
        r: int,
        e: int,
        x: CtxView,
    ) -> bool {
        &&& 0 <= f < self.files.len()
        &&& 0 <= r < self.files[f].info.spans.len()
        &&& self.wants(f, r)
        &&& ranges matches Some(rs) ==> covers(rs, self.record_start(f, r) + e)
        &&& self.stored(f, r) matches Some(v) && 0 <= e < v.events() && lets_through(
            self.filter,
            v.event(e),
        ) && x.event == v.event(e)
        &&& x.dict == self.files[f].info.dictionary.dict
    }

    /// `x` is an event that a scan may hand out.
    pub open spec fn may_hand(self, ranges: Option<Seq<(u64, u64)>>, x: CtxView) -> bool {
        exists|f: int, r: int, e: int| #[trigger] self.hands_out(ranges, f, r, e, x)
    }
}

/// `f` can be called with every event of a record that is asked for and passes the filter. It need
/// not take any other.
pub open spec fn takes_record<F: Fn(&EventCtx<'_>)>(
    f: F,
    v: StoredView,
    filter: Option<FilterView>,
    w: Option<WindowView>,
    dict: DictView,
) -> bool {
    forall|c: &EventCtx<'_>, e: int|
        0 <= e < v.events() && in_window(w, e) && lets_through(filter, v.event(e)) && c@.event
            == (#[trigger] v.event(e)) && c@.dict == dict ==> #[trigger] f.requires((c,))
}

/// `f` was called with this event, to be read under this dictionary.
pub open spec fn handed<F: Fn(&EventCtx<'_>)>(f: F, ev: EventView, dict: DictView) -> bool {
    exists|c: &EventCtx<'_>| #[trigger]
        f.ensures((c,), ()) && c@.event == ev && c@.dict == dict
}

/// `f` was called with every event of a record that is asked for and passes the filter.
pub open spec fn record_handed<F: Fn(&EventCtx<'_>)>(
    f: F,
    v: StoredView,
    filter: Option<FilterView>,
    w: Option<WindowView>,
    dict: DictView,
) -> bool {
    forall|e: int|
        0 <= e < v.events() && in_window(w, e) && lets_through(filter, v.event(e))
            ==> #[trigger] handed(f, v.event(e), dict)
}

impl ChainView {
    /// `f` was called with every event of the records `ts` that is asked for and passes the
    /// filter, each under the dictionary of its file.
    pub open spec fn all_handed<F: Fn(&EventCtx<'_>)>(
        self,
        f: F,
        m: Option<Seq<(u64, u64)>>,
        ts: Seq<(int, int)>,
        n: nat,
    ) -> bool {
        forall|k: int|
            0 <= k < n ==> record_handed(
                f,
                self.stored((#[trigger] ts[k]).0, ts[k].1)->0,
                self.filter,
                self.window(m, ts[k].0, ts[k].1),
                self.files[ts[k].0].info.dictionary.dict,
            )
    }
}

impl<S: ReadAt> Chain<S> {
    /// Hand the wanted events of a record to `f`, and count them.
    fn scan_record<F: Fn(&EventCtx<'_>)>(
        &self,
        file: usize,
        rec: usize,
        window: Option<EventWindow<'_>>,
        f: &F,
    ) -> (r: Result<(u64, u64)>)
        requires
            file < self@.files.len(),
            rec < self@.files[file as int].info.spans.len(),
            self@.stored(file as int, rec as int) matches Some(v) ==> takes_record(
                *f,
                v,
                self@.filter,
                window_view(window),
                self@.files[file as int].info.dictionary.dict,
            ),
        ensures
            self@.intact() || r is Ok ==> match self@.stored(file as int, rec as int) {
                Some(v) => r is Ok && r->Ok_0.0 == asked(window_view(window), v.events())
                    && r->Ok_0.1 == picked(
                    v,
                    self@.filter,
                    window_view(window),
                    v.events(),
                ).len(),
                None => r is Err && record_fault(
                    self@.files[file as int].bytes,
                    self@.files[file as int].info.spans[rec as int],
                    self@.files[file as int].info.dictionary.dict,
                    r->Err_0,
                ),
            },
            r is Ok ==> record_handed(
                *f,
                self@.stored(file as int, rec as int)->0,
                self@.filter,
                window_view(window),
                self@.files[file as int].info.dictionary.dict,
            ),
    {
        let picks = match self.process_record(file, rec, window) {
            Ok(picks) => picks,
            Err(e) => {
                return Err(e);
            },
        };
        let dict = self.file(file).dict();
        let ghost v = picks.record@;
        let ghost w = window_view(window);
        let mut i: usize = 0;
        while i < picks.events.len()
            invariant
                i <= picks.events.len(),
                v == picks.record@,
                w == window_view(window),
                picks.events@ == picked(v, self@.filter, w, v.events()),
                takes_record(*f, v, self@.filter, w, dict@),
                forall|k: int|
                    0 <= k < i ==> handed(*f, v.event((#[trigger] picks.events@[k]) as int), dict@),
                forall|k: int|
                    0 <= k < picks.events.len() ==> (#[trigger] picks.events@[k])
                        < picks.record@.events(),
            decreases picks.events.len() - i,
        {
            let ctx = picks.record.ctx(picks.events[i], dict);
            proof {
                let e = picks.events@[i as int];
                assert(picks.events@.contains(e));
                law_picked(v, self@.filter, w, v.events(), e);
                assert(ctx@.event == v.event(e as int));
            }
            f(&ctx);
            assert(handed(*f, v.event(picks.events@[i as int] as int), dict@));
            i = i + 1;
        }
        proof {
            assert forall|e: int|
                0 <= e < v.events() && in_window(w, e) && lets_through(self@.filter, v.event(e))
                    implies #[trigger] handed(*f, v.event(e), dict@) by {
                law_picked(v, self@.filter, w, v.events(), e as u32);
                let k = choose|k: int| 0 <= k < picks.events.len() && picks.events@[k] == e as u32;
                assert(picks.events@[k] as int == e);
            }
        }
        Ok((picks.events_in, picks.events.len() as u64))
    }

    /// A closure that takes what a scan may hand out takes the events of a wanted record.
    proof fn lemma_takes_record<F: Fn(&EventCtx<'_>)>(
        &self,
        f: F,
        ranges: Option<Seq<(u64, u64)>>,
        w: Option<WindowView>,
        file: int,
        rec: int,
    )
        requires
            forall|c: &EventCtx<'_>| self@.may_hand(ranges, c@) ==> #[trigger] f.requires((c,)),
            0 <= file < self@.files.len(),
            0 <= rec < self@.files[file].info.spans.len(),
            self@.wants(file, rec),
            ranges matches Some(rs) ==> forall|e: int|
                in_window(w, e) ==> covers(rs, #[trigger] (self@.record_start(file, rec) + e)),
        ensures
            self@.stored(file, rec) matches Some(v) ==> takes_record(
                f,
                v,
                self@.filter,
                w,
                self@.files[file].info.dictionary.dict,
            ),
    {
        if let Some(v) = self@.stored(file, rec) {
            let dict = self@.files[file].info.dictionary.dict;
            assert forall|c: &EventCtx<'_>, e: int|
                0 <= e < v.events() && in_window(w, e) && lets_through(self@.filter, v.event(e))
                    && c@.event == (#[trigger] v.event(e)) && c@.dict
                    == dict implies #[trigger] f.requires((c,)) by {
                assert(ranges matches Some(rs) ==> covers(
                    rs,
                    self@.record_start(file, rec) + e,
                ));
                assert(self@.hands_out(ranges, file, rec, e, c@));
            }
        }
    }

    /// Hand every event that passes the filter to `f`, in order, and no other.
    #[verifier::spinoff_prover]
    #[verifier::rlimit(60)]
    pub fn for_each<F: Fn(&EventCtx<'_>)>(&self, f: F) -> (r: Result<ChainStats>)
        requires
            forall|c: &EventCtx<'_>| self@.may_hand(None, c@) ==> #[trigger] f.requires((c,)),
        ensures
            self@.told(r is Ok) ==> self@.scan_ends(None, self@.tasks(self@.files.len()), r),
            self@.steady() && r is Ok ==> self@.all_handed(
                f,
                None,
                self@.tasks(self@.files.len()),
                self@.tasks(self@.files.len()).len(),
            ),
    {
        let tasks = self.build_tasks();
        let ghost tv = task_views(tasks@);
        let mut events_in: u64 = 0;
        let mut events_yielded: u64 = 0;
        let mut i: usize = 0;
        while i < tasks.len()
            invariant
                i <= tasks.len(),
                tv == task_views(tasks@),
                self@.steady() ==> tv == self@.tasks(self@.files.len()),
                forall|c: &EventCtx<'_>| self@.may_hand(None, c@) ==> #[trigger] f.requires((c,)),
                forall|k: int| 0 <= k < tasks.len() ==> self@.is_task(#[trigger] tasks@[k]),
                self@.all_handed(f, None, tv, i as nat),
                self@.steady() ==> self@.all_stored(tv, i as nat) && events_in == cap64(
                    self@.count_in(None, tv, i as nat),
                ) && events_yielded == cap64(self@.count_out(None, tv, i as nat)),
            decreases tasks.len() - i,
        {
            let (file, rec) = tasks[i];
            assert(tv[i as int] == (file as int, rec as int));
            proof {
                self.lemma_takes_record(f, None, None, file as int, rec as int);
            }
            match self.scan_record(file, rec, None, &f) {
                Ok((a, b)) => {
                    events_in = events_in.saturating_add(a);
                    events_yielded = events_yielded.saturating_add(b);
                },
                Err(e) => {
                    assert(self@.intact() ==> self@.scan_fails_at(tv, i as int, e));
                    return Err(e);
                },
            }
            i = i + 1;
        }
        Ok(
            ChainStats {
                events_in,
                events_yielded,
                records: tasks.len() as u64,
                files: self.file_count(),
            },
        )
    }

    /// [`Self::for_each`] over one range of event numbers.
    pub fn for_each_range<F: Fn(&EventCtx<'_>)>(&self, range: Range<u64>, f: F) -> (r: Result<
        ChainStats,
    >)
        requires
            forall|c: &EventCtx<'_>|
                self@.may_hand(Some(seq![(range.start, range.end)]), c@) ==> #[trigger] f.requires(
                    (c,),
                ),
        ensures
            self@.told(r is Ok) ==> self.ranges_end(seq![(range.start, range.end)], r),
            self@.steady() && r is Ok ==> self.ranges_handed(f, seq![(range.start, range.end)]),
    {
        let mut ranges: Vec<Range<u64>> = Vec::new();
        let ghost want = seq![(range.start, range.end)];
        ranges.push(range);
        assert(pairs(ranges@) =~= want);
        self.for_each_ranges(ranges.as_slice(), f)
    }

    /// How a scan of ranges ends: as that of the records that the merged ranges touch.
    pub open spec fn ranges_end(self, asked: Seq<(u64, u64)>, r: Result<ChainStats>) -> bool {
        exists|m: Seq<(u64, u64)>| #[trigger]
            is_merged(m, asked, self@.total() as int) && self@.scan_ends(
                Some(m),
                self@.touched(
                    self@.tasks(self@.files.len()),
                    m,
                    self@.tasks(self@.files.len()).len(),
                ),
                r,
            )
    }

    /// `f` was called with every event of the ranges that passes the filter.
    pub open spec fn ranges_handed<F: Fn(&EventCtx<'_>)>(self, f: F, asked: Seq<(u64, u64)>) -> bool {
        exists|m: Seq<(u64, u64)>| #[trigger]
            is_merged(m, asked, self@.total() as int) && ({
                let ts = self@.touched(
                    self@.tasks(self@.files.len()),
                    m,
                    self@.tasks(self@.files.len()).len(),
                );
                self@.all_handed(f, Some(m), ts, ts.len())
            })
    }

    /// [`Self::for_each`] over several ranges of event numbers. Only records that a range
    /// touches are read. Ranges may overlap and come in any order: no event is handed out twice.
    /// Numbers count events before the filter.
    #[verifier::spinoff_prover]
    #[verifier::rlimit(40)]
    pub fn for_each_ranges<F: Fn(&EventCtx<'_>)>(&self, ranges: &[Range<u64>], f: F) -> (r: Result<
        ChainStats,
    >)
        requires
            forall|c: &EventCtx<'_>|
                self@.may_hand(Some(pairs(ranges@)), c@) ==> #[trigger] f.requires((c,)),
        ensures
            self@.told(r is Ok) ==> self.ranges_end(pairs(ranges@), r),
            self@.steady() && r is Ok ==> self.ranges_handed(f, pairs(ranges@)),
    {
        let merged = merge_ranges(ranges, self.event_count());
        let tasks = self.range_tasks(merged.as_slice());
        let ghost m = merged@;
        let ghost tv = range_views(tasks@);
        let mut events_in: u64 = 0;
        let mut events_yielded: u64 = 0;
        let mut i: usize = 0;
        while i < tasks.len()
            invariant
                i <= tasks.len(),
                m == merged@,
                tv == range_views(tasks@),
                forall|c: &EventCtx<'_>|
                    self@.may_hand(Some(pairs(ranges@)), c@) ==> #[trigger] f.requires((c,)),
                is_merged(m, pairs(ranges@), self@.total() as int),
                self@.steady() ==> tv == self@.touched(
                    self@.tasks(self@.files.len()),
                    m,
                    self@.tasks(self@.files.len()).len(),
                ),
                forall|k: int| 0 <= k < tasks.len() ==> self.is_range_task(m, #[trigger] tasks@[k]),
                self@.all_handed(f, Some(m), tv, i as nat),
                self@.steady() ==> self@.all_stored(tv, i as nat) && events_in == cap64(
                    self@.count_in(Some(m), tv, i as nat),
                ) && events_yielded == cap64(self@.count_out(Some(m), tv, i as nat)),
            decreases tasks.len() - i,
        {
            let t = tasks[i];
            assert(self.is_range_task(m, t));
            assert(tv[i as int] == (t.file as int, t.record as int));
            let window = EventWindow {
                record_start: t.record_start,
                ranges: vstd::slice::slice_subrange(merged.as_slice(), t.first, t.last),
            };
            proof {
                let (a, b) = (
                    self@.record_start(t.file as int, t.record as int),
                    self@.record_end(t.file as int, t.record as int),
                );
                lemma_filter_is_slice(m, t.first as int, t.last as int, a, b);
                assert(window_view(Some(window)) == self@.window(
                    Some(m),
                    t.file as int,
                    t.record as int,
                ));
                assert forall|e: int| in_window(window_view(Some(window)), e) implies covers(
                    pairs(ranges@),
                    #[trigger] (a + e),
                ) by {
                    let k = choose|k: int| #[trigger] holds_at(window.ranges@, k, a + e);
                    assert(holds_at(m, t.first + k, a + e));
                    assert(covers(m, a + e));
                }
                self.lemma_takes_record(
                    f,
                    Some(pairs(ranges@)),
                    window_view(Some(window)),
                    t.file as int,
                    t.record as int,
                );
            }
            match self.scan_record(t.file, t.record, Some(window), &f) {
                Ok((a, b)) => {
                    events_in = events_in.saturating_add(a);
                    events_yielded = events_yielded.saturating_add(b);
                },
                Err(e) => {
                    assert(self@.intact() ==> self@.scan_fails_at(tv, i as int, e));
                    return Err(e);
                },
            }
            i = i + 1;
        }
        Ok(
            ChainStats {
                events_in,
                events_yielded,
                records: tasks.len() as u64,
                files: self.file_count(),
            },
        )
    }
}

} // verus!
