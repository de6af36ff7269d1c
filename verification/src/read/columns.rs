//! Reading whole columns of a chain.

use core::ops::Range;

use vstd::prelude::*;
use crate::error::{HipoError, Result};
#[allow(unused_imports)]
use crate::event::view::EventView;
use crate::read::cells::{bank_rows, BankChunk};
#[allow(unused_imports)]
use crate::read::cells::{
    all_cells, all_readable, column_bytes, events_of, row_counts, unreadable_at,
};
use crate::read::chain::Chain;
#[allow(unused_imports)]
use crate::read::chain::{task_views, ChainView};
use crate::read::column_data::{ChainRecordSpan, ColumnBuffers};
#[allow(unused_imports)]
use crate::read::inner::header_in;
#[allow(unused_imports)]
use crate::read::iter::record_fault;
use crate::read::merge::{merge_chunks, RecordChunk};
#[allow(unused_imports)]
use crate::read::merge::{bank_done, flat, law_merge_is_in_order, too_many_rows};
use crate::read::plan::{build_plan, BankPlan};
#[allow(unused_imports)]
use crate::read::plan::{
    all_resolvable, columns_resolved, plan_resolved, plan_wf, plans_resolved, selection_fails_at,
};
use crate::read::ranges::EventWindow;
#[allow(unused_imports)]
use crate::read::scan::{picked, window_view, WindowView};
use crate::read::source::ReadAt;
use crate::read::stored::StoredRecord;
#[allow(unused_imports)]
use crate::schema::dict::DictView;
#[allow(unused_imports)]
use crate::schema::types::SchemaView;
#[allow(unused_imports)]
use crate::wire::record_header::RecordHeader;
#[allow(unused_imports)]
use crate::wire::tables::total;

verus! {

/// First event and one past the last event of a range, if there is one.
pub open spec fn range_pair(range: Option<Range<u64>>) -> Option<(u64, u64)> {
    match range {
        Some(r) => Some((r.start, r.end)),
        None => None,
    }
}

impl ChainView {
    /// Record `r` of file `f` is read: it may hold events of the range.
    pub open spec fn reads(self, range: Option<(u64, u64)>, f: int, r: int) -> bool {
        match range {
            Some((a, b)) => a < self.record_end(f, r) && self.record_start(f, r) < b,
            None => true,
        }
    }

    /// The window that a range opens onto a record.
    pub open spec fn range_window(self, range: Option<(u64, u64)>, f: int, r: int) -> Option<
        WindowView,
    > {
        match range {
            Some(p) => Some(WindowView { start: self.record_start(f, r), ranges: seq![p] }),
            None => None,
        }
    }

    /// The events of a record that lie in the range and pass the filter.
    pub open spec fn kept_in(self, range: Option<(u64, u64)>, f: int, r: int) -> Seq<EventView> {
        if self.reads(range, f, r) {
            let v = self.stored(f, r)->0;
            events_of(v, picked(v, self.filter, self.range_window(range, f, r), v.events()))
        } else {
            Seq::empty()
        }
    }

    /// The events of each of the records `ts` that lie in the range and pass the filter.
    pub open spec fn kept_parts(self, range: Option<(u64, u64)>, ts: Seq<(int, int)>) -> Seq<
        Seq<EventView>,
    > {
        ts.map_values(|t: (int, int)| self.kept_in(range, t.0, t.1))
    }

    /// The events of the chain that lie in the range and pass the filter.
    pub open spec fn kept(self, range: Option<(u64, u64)>) -> Seq<EventView> {
        let ts = self.tasks(self.files.len());
        flat(self.kept_parts(range, ts), ts.len())
    }

    /// Record `k` of `ts` is read and cannot be, and `e` is its error.
    pub open spec fn part_fails_at(
        self,
        range: Option<(u64, u64)>,
        ts: Seq<(int, int)>,
        k: int,
        e: HipoError,
    ) -> bool {
        &&& 0 <= k < ts.len()
        &&& self.reads(range, ts[k].0, ts[k].1)
        &&& self.stored(ts[k].0, ts[k].1) is None
        &&& record_fault(
            self.files[ts[k].0].bytes,
            self.files[ts[k].0].info.spans[ts[k].1],
            self.files[ts[k].0].info.dictionary.dict,
            e,
        )
    }

    /// Every record of `ts` that is read can be.
    pub open spec fn parts_stored(self, range: Option<(u64, u64)>, ts: Seq<(int, int)>, n: nat) -> bool {
        forall|k: int|
            0 <= k < n && self.reads(range, (#[trigger] ts[k]).0, ts[k].1) ==> self.stored(
                ts[k].0,
                ts[k].1,
            ) is Some
    }
}

/// What the buffers of a bank hold: its columns `names`, for the given events, all of which can
/// be read.
pub open spec fn bank_buffers(
    b: ColumnBuffers,
    d: DictView,
    bank: &str,
    names: Seq<&str>,
    evs: Seq<EventView>,
) -> bool {
    &&& b.bank@ == bank@
    &&& d.named(bank@) is Some
    &&& exists|cols: Seq<usize>| #[trigger]
        columns_resolved(d.named(bank@)->0, names, cols) && all_readable(
            evs,
            d.named(bank@)->0,
            cols,
        ) && b.holds(d.named(bank@)->0, cols, evs)
}

/// What the buffers of a selection hold.
pub open spec fn buffers_for(
    bufs: Seq<ColumnBuffers>,
    d: DictView,
    selection: Seq<(&str, &[&str])>,
    evs: Seq<EventView>,
) -> bool {
    &&& bufs.len() == selection.len()
    &&& forall|i: int|
        0 <= i < bufs.len() ==> bank_buffers(
            #[trigger] bufs[i],
            d,
            selection[i].0,
            selection[i].1@,
            evs,
        )
}

/// Part `i` of the selection cannot be read from one of the events, and `e` is the error.
pub open spec fn bank_fails(
    d: DictView,
    selection: Seq<(&str, &[&str])>,
    evs: Seq<EventView>,
    i: int,
    e: HipoError,
) -> bool {
    &&& 0 <= i < selection.len()
    &&& d.named(selection[i].0@) is Some
    &&& exists|cols: Seq<usize>, j: int| #[trigger]
        columns_resolved(d.named(selection[i].0@)->0, selection[i].1@, cols)
            && #[trigger] unreadable_at(evs, d.named(selection[i].0@)->0, cols, j, e)
}

/// The rows of part `i` of the selection do not fit 63 bits.
pub open spec fn overflows(
    d: DictView,
    selection: Seq<(&str, &[&str])>,
    evs: Seq<EventView>,
    i: int,
) -> bool {
    let s = d.named(selection[i].0@)->0;
    &&& 0 <= i < selection.len()
    &&& d.named(selection[i].0@) is Some
    &&& total(row_counts(all_cells(evs, s), s)) > i64::MAX
}

impl ChainView {
    /// `e` is the error of a column read: a record that cannot be read, a bank that cannot be
    /// read from one of its events, or more rows than offsets can count.
    pub open spec fn columns_fault(
        self,
        range: Option<(u64, u64)>,
        selection: Seq<(&str, &[&str])>,
        e: HipoError,
    ) -> bool {
        let ts = self.tasks(self.files.len());
        ||| exists|k: int| #[trigger] self.part_fails_at(range, ts, k, e)
        ||| exists|k: int, i: int|
            0 <= k < ts.len() && #[trigger] bank_fails(
                self.dict,
                selection,
                self.kept_in(range, ts[k].0, ts[k].1),
                i,
                e,
            )
        ||| e == HipoError::Internal("row offsets exceed 63 bits") && exists|i: int| #[trigger]
            overflows(self.dict, selection, self.kept(range), i)
    }

    /// How a column read ends. Names are resolved before anything is read; an empty selection
    /// reads nothing.
    pub open spec fn columns_end(
        self,
        range: Option<(u64, u64)>,
        selection: Seq<(&str, &[&str])>,
        r: Result<Vec<ColumnBuffers>>,
    ) -> bool {
        let ts = self.tasks(self.files.len());
        match r {
            Ok(bufs) => {
                &&& all_resolvable(self.dict, selection)
                &&& buffers_for(bufs@, self.dict, selection, self.kept(range))
                &&& selection.len() > 0 ==> self.parts_stored(range, ts, ts.len())
            },
            Err(e) => {
                ||| exists|i: int| #[trigger] selection_fails_at(self.dict, selection, i, e)
                ||| all_resolvable(self.dict, selection) && selection.len() > 0
                    && self.columns_fault(range, selection, e)
            },
        }
    }
}

/// `e` is the error of reading one column of one bank.
pub open spec fn columns_fault_of(
    c: ChainView,
    range: Option<(u64, u64)>,
    bank: &str,
    column: &str,
    e: HipoError,
) -> bool {
    exists|selection: Seq<(&str, &[&str])>|
        #![trigger c.columns_fault(range, selection, e)]
        selection.len() == 1 && selection[0].0 == bank && selection[0].1@ == seq![column]
            && c.columns_fault(range, selection, e)
}

/// Part `i` of a plan cannot be read from event `j`, and `e` is the error.
pub open spec fn plan_fails_at(
    evs: Seq<EventView>,
    plan: Seq<BankPlan<'_>>,
    i: int,
    j: int,
    e: HipoError,
) -> bool {
    0 <= i < plan.len() && unreadable_at(evs, plan[i].schema@, plan[i].cols@, j, e)
}

/// What reading a plan from events of a record ends with.
pub open spec fn plan_read(
    evs: Seq<EventView>,
    plan: Seq<BankPlan<'_>>,
    r: Result<RecordChunk>,
) -> bool {
    match r {
        Ok(c) => c.holds(evs, plan) && forall|i: int|
            0 <= i < plan.len() ==> all_readable(
                evs,
                (#[trigger] plan[i]).schema@,
                plan[i].cols@,
            ),
        Err(e) => exists|i: int, j: int| #[trigger] plan_fails_at(evs, plan, i, j, e),
    }
}

/// What the events `events` of a record hold of every bank of a plan.
pub fn record_rows(rec: &StoredRecord, events: &[u32], plan: &Vec<BankPlan<'_>>) -> (r: Result<
    RecordChunk,
>)
    requires
        forall|i: int| 0 <= i < plan.len() ==> plan_wf(#[trigger] plan@[i]),
        forall|i: int| 0 <= i < events.len() ==> (#[trigger] events@[i]) < rec@.events(),
    ensures
        plan_read(events_of(rec@, events@), plan@, r),
        r matches Ok(c) ==> c.aligned(plan@),
{
    let ghost evs = events_of(rec@, events@);
    let mut banks: Vec<BankChunk> = Vec::new();
    let mut i: usize = 0;
    while i < plan.len()
        invariant
            i <= plan.len(),
            banks.len() == i,
            evs == events_of(rec@, events@),
            forall|i: int| 0 <= i < plan.len() ==> plan_wf(#[trigger] plan@[i]),
            forall|i: int| 0 <= i < events.len() ==> (#[trigger] events@[i]) < rec@.events(),
            forall|q: int|
                0 <= q < i ==> (#[trigger] banks@[q]).aligned(plan@[q].schema@, plan@[q].cols@)
                    && banks@[q].holds(
                    all_cells(evs, plan@[q].schema@),
                    plan@[q].schema@,
                    plan@[q].cols@,
                ),
            forall|q: int|
                0 <= q < i ==> all_readable(
                    evs,
                    (#[trigger] plan@[q]).schema@,
                    plan@[q].cols@,
                ),
        decreases plan.len() - i,
    {
        match bank_rows(rec, events, &plan[i]) {
            Ok(b) => {
                banks.push(b);
            },
            Err(e) => {
                proof {
                    let p = plan@[i as int];
                    let j = choose|j: int| #[trigger] unreadable_at(evs, p.schema@, p.cols@, j, e);
                    assert(plan_fails_at(evs, plan@, i as int, j, e));
                }
                return Err(e);
            },
        }
        i = i + 1;
    }
    Ok(RecordChunk { banks })
}

/// A share without events.
fn empty_chunk(plan: &Vec<BankPlan<'_>>) -> (r: RecordChunk)
    ensures
        r.holds(Seq::empty(), plan@),
        r.aligned(plan@),
{
    let mut banks: Vec<BankChunk> = Vec::new();
    let mut i: usize = 0;
    while i < plan.len()
        invariant
            i <= plan.len(),
            banks.len() == i,
            forall|q: int|
                0 <= q < i ==> (#[trigger] banks@[q]).aligned(plan@[q].schema@, plan@[q].cols@)
                    && banks@[q].holds(
                    all_cells(Seq::empty(), plan@[q].schema@),
                    plan@[q].schema@,
                    plan@[q].cols@,
                ),
        decreases plan.len() - i,
    {
        let n: usize = plan[i].cols.len();
        let mut columns: Vec<Vec<u8>> = Vec::new();
        let mut k: usize = 0;
        while k < n
            invariant
                k <= n,
                columns.len() == k,
                forall|q: int| 0 <= q < k ==> (#[trigger] columns@[q]).len() == 0,
            decreases n - k,
        {
            columns.push(Vec::new());
            k = k + 1;
        }
        let b = BankChunk { row_counts: Vec::new(), columns };
        proof {
            let (s, cols) = (plan@[i as int].schema@, plan@[i as int].cols@);
            let none = all_cells(Seq::empty(), s);
            assert(b.row_counts@ =~= row_counts(none, s));
            assert forall|q: int| 0 <= q < n implies (#[trigger] b.columns@[q])@ == column_bytes(
                none,
                s,
                cols[q] as int,
                none.len(),
            ) && b.columns@[q].len() == total(b.row_counts@) * s.entries[cols[q] as int].width() by {
                assert(b.columns@[q]@ =~= Seq::<u8>::empty());
                assert(0 * s.entries[cols[q] as int].width() == 0) by (nonlinear_arith);
            }
        }
        banks.push(b);
        i = i + 1;
    }
    RecordChunk { banks }
}

impl<S: ReadAt> Chain<S> {
    /// The share of record `rec` of file `f`: its events that lie in the range and pass the
    /// filter. A record that lies outside the range is not read.
    pub fn process_record_columns(
        &self,
        f: usize,
        rec: usize,
        plan: &Vec<BankPlan<'_>>,
        range: Option<(u64, u64)>,
    ) -> (r: Result<RecordChunk>)
        requires
            f < self@.files.len(),
            rec < self@.files[f as int].info.spans.len(),
            forall|i: int| 0 <= i < plan.len() ==> plan_wf(#[trigger] plan@[i]),
        ensures
            self@.intact() || r is Ok ==> if self@.reads(range, f as int, rec as int) && self@.stored(
                f as int,
                rec as int,
            ) is None {
                r is Err && record_fault(
                    self@.files[f as int].bytes,
                    self@.files[f as int].info.spans[rec as int],
                    self@.files[f as int].info.dictionary.dict,
                    r->Err_0,
                )
            } else {
                plan_read(self@.kept_in(range, f as int, rec as int), plan@, r)
            },
            r matches Ok(c) ==> c.aligned(plan@),
    {
        let mut ranges: Vec<(u64, u64)> = Vec::new();
        let (start, end) = self.record_bounds(f, rec);
        if let Some((a, b)) = range {
            if end <= a || start >= b {
                return Ok(empty_chunk(plan));
            }
            ranges.push((a, b));
        }
        let window = match range {
            Some(_) => Some(EventWindow { record_start: start, ranges: ranges.as_slice() }),
            None => None,
        };
        proof {
            match range {
                Some(p) => {
                    assert(ranges@ =~= seq![p]);
                },
                None => {},
            }
            assert(window_view(window) == self@.range_window(range, f as int, rec as int));
        }
        match self.process_record(f, rec, window) {
            Ok(s) => record_rows(&s.record, s.events.as_slice(), plan),
            Err(e) => Err(e),
        }
    }

    /// The shares of every record that the filter wants, in order.
    pub(crate) fn read_chunks(&self, plan: &Vec<BankPlan<'_>>, range: Option<(u64, u64)>) -> (r: Result<
        Vec<RecordChunk>,
    >)
        requires
            forall|i: int| 0 <= i < plan.len() ==> plan_wf(#[trigger] plan@[i]),
        ensures
            self@.told(r is Ok) ==> self@.chunks_end(range, plan@, r),
            r is Ok ==> self@.chunks_of_some(range, plan@, r->Ok_0@),
            r matches Ok(c) ==> forall|j: int|
                0 <= j < c.len() ==> (#[trigger] c@[j]).aligned(plan@),
    {
        let tasks = self.build_tasks();
        let ghost ts = task_views(tasks@);
        let mut chunks: Vec<RecordChunk> = Vec::new();
        let mut k: usize = 0;
        while k < tasks.len()
            invariant
                k <= tasks.len(),
                chunks.len() == k,
                ts == task_views(tasks@),
                self@.steady() ==> ts == self@.tasks(self@.files.len()),
                forall|i: int| 0 <= i < tasks.len() ==> self@.is_task(#[trigger] tasks@[i]),
                forall|i: int| 0 <= i < plan.len() ==> plan_wf(#[trigger] plan@[i]),
                forall|j: int| 0 <= j < k ==> (#[trigger] chunks@[j]).aligned(plan@),
                self@.parts_stored(range, ts, k as nat),
                forall|j: int|
                    0 <= j < k ==> plan_read(
                        self@.kept_parts(range, ts)[j],
                        plan@,
                        Ok(#[trigger] chunks@[j]),
                    ),
            decreases tasks.len() - k,
        {
            let (f, rec) = tasks[k];
            assert(ts[k as int] == (f as int, rec as int));
            match self.process_record_columns(f, rec, plan, range) {
                Ok(c) => {
                    chunks.push(c);
                },
                Err(e) => {
                    proof {
                        if self@.intact() {
                            let evs = self@.kept_in(range, f as int, rec as int);
                            if self@.reads(range, f as int, rec as int) && self@.stored(
                                f as int,
                                rec as int,
                            ) is None {
                                assert(self@.part_fails_at(range, ts, k as int, e));
                            } else {
                                let (i, j) = choose|i: int, j: int| #[trigger]
                                    plan_fails_at(evs, plan@, i, j, e);
                                assert(plan_fails_at(
                                    self@.kept_in(range, ts[k as int].0, ts[k as int].1),
                                    plan@,
                                    i,
                                    j,
                                    e,
                                ));
                            }
                        }
                    }
                    return Err(e);
                },
            }
            k = k + 1;
        }
        proof {
            assert forall|i: int| 0 <= i < ts.len() implies self@.is_wanted(#[trigger] ts[i]) by {
                assert(self@.is_task(tasks@[i]));
            }
            assert(self@.chunks_of(range, plan@, ts, chunks@));
            assert(self@.chunks_of_some(range, plan@, chunks@));
        }
        Ok(chunks)
    }
}

impl ChainView {
    /// There is such a record, and it is wanted.
    pub open spec fn is_wanted(self, t: (int, int)) -> bool {
        &&& 0 <= t.0 < self.files.len()
        &&& 0 <= t.1 < self.files[t.0].info.spans.len()
        &&& self.wants(t.0, t.1)
    }

    /// Every one of these is a record that is wanted.
    pub open spec fn are_wanted(self, ts: Seq<(int, int)>) -> bool {
        forall|i: int| 0 <= i < ts.len() ==> self.is_wanted(#[trigger] ts[i])
    }

    /// The chunks are the shares of these wanted records.
    pub open spec fn chunks_of(
        self,
        range: Option<(u64, u64)>,
        plan: Seq<BankPlan<'_>>,
        ts: Seq<(int, int)>,
        c: Seq<RecordChunk>,
    ) -> bool {
        &&& self.are_wanted(ts)
        &&& self.parts_stored(range, ts, ts.len())
        &&& c.len() == ts.len()
        &&& forall|j: int|
            0 <= j < c.len() ==> plan_read(
                self.kept_parts(range, ts)[j],
                plan,
                Ok(#[trigger] c[j]),
            )
    }

    /// The chunks are the shares of some wanted records.
    pub open spec fn chunks_of_some(
        self,
        range: Option<(u64, u64)>,
        plan: Seq<BankPlan<'_>>,
        c: Seq<RecordChunk>,
    ) -> bool {
        exists|ts: Seq<(int, int)>| #[trigger] self.chunks_of(range, plan, ts, c)
    }

    /// The buffers hold what is asked for of some wanted records: of all of them, unless a header
    /// could not be read while only certain tags were wanted.
    pub open spec fn reads_some(
        self,
        range: Option<(u64, u64)>,
        selection: Seq<(&str, &[&str])>,
        bufs: Seq<ColumnBuffers>,
    ) -> bool {
        &&& all_resolvable(self.dict, selection)
        &&& exists|ts: Seq<(int, int)>| #[trigger]
            self.are_wanted(ts) && buffers_for(
                bufs,
                self.dict,
                selection,
                flat(self.kept_parts(range, ts), ts.len()),
            )
    }

    /// How reading the shares of every wanted record ends.
    pub open spec fn chunks_end(
        self,
        range: Option<(u64, u64)>,
        plan: Seq<BankPlan<'_>>,
        r: Result<Vec<RecordChunk>>,
    ) -> bool {
        let ts = self.tasks(self.files.len());
        match r {
            Ok(c) => {
                &&& self.parts_stored(range, ts, ts.len())
                &&& c.len() == ts.len()
                &&& forall|j: int|
                    0 <= j < c.len() ==> plan_read(
                        self.kept_parts(range, ts)[j],
                        plan,
                        Ok(#[trigger] c@[j]),
                    )
            },
            Err(e) => {
                ||| exists|k: int| #[trigger] self.part_fails_at(range, ts, k, e)
                ||| exists|k: int, i: int, j: int|
                    0 <= k < ts.len() && #[trigger] plan_fails_at(
                        self.kept_in(range, ts[k].0, ts[k].1),
                        plan,
                        i,
                        j,
                        e,
                    )
            },
        }
    }
}

/// A bank that can be read from every event of each run can be read from every event.
pub(crate) proof fn lemma_flat_readable(
    parts: Seq<Seq<EventView>>,
    s: SchemaView,
    cols: Seq<usize>,
    n: nat,
)
    requires
        n <= parts.len(),
        forall|j: int| 0 <= j < n ==> all_readable(#[trigger] parts[j], s, cols),
    ensures
        all_readable(flat(parts, n), s, cols),
    decreases n,
{
    if n > 0 {
        let m = (n - 1) as nat;
        lemma_flat_readable(parts, s, cols, m);
        let (x, y) = (flat(parts, m), parts[m as int]);
        assert forall|i: int| 0 <= i < (x + y).len() implies crate::read::cells::cells_of(
            #[trigger] (x + y)[i],
            s,
        ).readable(s, cols) by {
            if i < x.len() {
                assert((x + y)[i] == x[i]);
            } else {
                assert((x + y)[i] == y[i - x.len()]);
            }
        }
    }
}

/// Merged buffers hold what the selection asks for.
pub(crate) proof fn lemma_merged_buffers(
    d: DictView,
    selection: Seq<(&str, &[&str])>,
    plan: Seq<BankPlan<'_>>,
    parts: Seq<Seq<EventView>>,
    chunks: Seq<RecordChunk>,
    bufs: Seq<ColumnBuffers>,
)
    requires
        plans_resolved(plan, d, selection),
        parts.len() == chunks.len(),
        forall|j: int|
            0 <= j < chunks.len() ==> plan_read(parts[j], plan, Ok(#[trigger] chunks[j])),
        bufs.len() == plan.len(),
        forall|i: int| 0 <= i < bufs.len() ==> bank_done(#[trigger] bufs[i], plan[i], chunks, i),
    ensures
        buffers_for(bufs, d, selection, flat(parts, parts.len())),
{
    let n = chunks.len();
    let evs = flat(parts, n);
    assert forall|i: int| 0 <= i < bufs.len() implies bank_buffers(
        #[trigger] bufs[i],
        d,
        selection[i].0,
        selection[i].1@,
        evs,
    ) by {
        let p = plan[i];
        assert(plan_resolved(p, d, selection[i].0, selection[i].1@));
        assert(bank_done(bufs[i], p, chunks, i));
        assert forall|j: int| 0 <= j < n implies (#[trigger] chunks[j]).holds(parts[j], plan) by {
            assert(plan_read(parts[j], plan, Ok(chunks[j])));
        }
        assert forall|j: int| 0 <= j < n implies all_readable(
            #[trigger] parts[j],
            p.schema@,
            p.cols@,
        ) by {
            assert(plan_read(parts[j], plan, Ok(chunks[j])));
            assert(plan[i].cols@ == p.cols@);
        }
        lemma_flat_readable(parts, p.schema@, p.cols@, n);
        law_merge_is_in_order(parts, plan, chunks, i, -1, n);
        assert forall|k: int| 0 <= k < p.cols.len() implies (#[trigger] bufs[i].columns@[k]).holds(
            p.schema@.entries[p.cols@[k] as int],
            column_bytes(all_cells(evs, p.schema@), p.schema@, p.cols@[k] as int, evs.len()),
        ) by {
            law_merge_is_in_order(parts, plan, chunks, i, k, n);
        }
        assert(bufs[i].holds(p.schema@, p.cols@, evs));
        assert(columns_resolved(d.named(selection[i].0@)->0, selection[i].1@, p.cols@));
    }
}

/// A plan that cannot be read is a selection that cannot be.
pub(crate) proof fn lemma_plan_fails(
    d: DictView,
    selection: Seq<(&str, &[&str])>,
    plan: Seq<BankPlan<'_>>,
    evs: Seq<EventView>,
    i: int,
    j: int,
    e: HipoError,
)
    requires
        plans_resolved(plan, d, selection),
        plan_fails_at(evs, plan, i, j, e),
    ensures
        bank_fails(d, selection, evs, i, e),
{
    let p = plan[i];
    assert(plan_resolved(p, d, selection[i].0, selection[i].1@));
    assert(columns_resolved(d.named(selection[i].0@)->0, selection[i].1@, p.cols@));
    assert(unreadable_at(evs, d.named(selection[i].0@)->0, p.cols@, j, e));
}

/// Rows that chunks cannot count, events cannot.
pub(crate) proof fn lemma_overflows(
    d: DictView,
    selection: Seq<(&str, &[&str])>,
    plan: Seq<BankPlan<'_>>,
    parts: Seq<Seq<EventView>>,
    chunks: Seq<RecordChunk>,
    i: int,
)
    requires
        plans_resolved(plan, d, selection),
        parts.len() == chunks.len(),
        forall|j: int|
            0 <= j < chunks.len() ==> plan_read(parts[j], plan, Ok(#[trigger] chunks[j])),
        0 <= i < plan.len(),
        too_many_rows(chunks, i),
    ensures
        overflows(d, selection, flat(parts, parts.len()), i),
{
    assert forall|j: int| 0 <= j < chunks.len() implies (#[trigger] chunks[j]).holds(
        parts[j],
        plan,
    ) by {
        assert(plan_read(parts[j], plan, Ok(chunks[j])));
    }
    assert(plan_resolved(plan[i], d, selection[i].0, selection[i].1@));
    law_merge_is_in_order(parts, plan, chunks, i, -1, chunks.len());
}

impl<S: ReadAt> Chain<S> {
    /// Read columns of banks: for every part of the selection, the values of its columns over
    /// all events that lie in the range and pass the filter, and the rows of each event. No
    /// column names stand for all columns. An event without the bank has no rows. A record that
    /// cannot be read ends the read with its error.
    pub fn read_columns(&self, selection: &[(&str, &[&str])], range: Option<Range<u64>>) -> (r:
        Result<Vec<ColumnBuffers>>)
        ensures
            self@.told(r is Ok) || !all_resolvable(self@.dict, selection@) ==> self@.columns_end(
                range_pair(range),
                selection@,
                r,
            ),
            r matches Ok(bufs) ==> self@.reads_some(range_pair(range), selection@, bufs@)
                && forall|i: int| 0 <= i < bufs.len() ==> (#[trigger] bufs@[i]).aligned(),
    {
        let ghost pair = range_pair(range);
        let plan = match build_plan(self.schemas(), selection) {
            Ok(plan) => plan,
            Err(e) => {
                return Err(e);
            },
        };
        if plan.len() == 0 {
            assert(self@.are_wanted(Seq::empty()));
            return Ok(Vec::new());
        }
        let range: Option<(u64, u64)> = match range {
            Some(r) => Some((r.start, r.end)),
            None => None,
        };
        let chunks = match self.read_chunks(&plan, range) {
            Ok(chunks) => chunks,
            Err(e) => {
                proof {
                    if self@.intact() {
                        self.lemma_chunks_fault(pair, selection@, plan@, e);
                    }
                }
                return Err(e);
            },
        };
        let r = merge_chunks(&plan, &chunks);
        proof {
            if r is Ok {
                let ts = choose|ts: Seq<(int, int)>| #[trigger]
                    self@.chunks_of(pair, plan@, ts, chunks@);
                let parts = self@.kept_parts(pair, ts);
                assert(parts.len() == ts.len());
                lemma_merged_buffers(self@.dict, selection@, plan@, parts, chunks@, r->Ok_0@);
                assert(self@.are_wanted(ts));
            }
            if self@.told(r is Ok) || !all_resolvable(self@.dict, selection@) {
                let ts = self@.tasks(self@.files.len());
                let parts = self@.kept_parts(pair, ts);
                assert(parts.len() == ts.len());
                if r is Ok {
                    lemma_merged_buffers(
                        self@.dict,
                        selection@,
                        plan@,
                        parts,
                        chunks@,
                        r->Ok_0@,
                    );
                } else {
                    let i = choose|i: int|
                        0 <= i < plan.len() && #[trigger] too_many_rows(chunks@, i);
                    lemma_overflows(self@.dict, selection@, plan@, parts, chunks@, i);
                    assert(overflows(self@.dict, selection@, self@.kept(pair), i));
                }
            }
        }
        r
    }

    /// A fault of the shares is a fault of the read.
    pub(crate) proof fn lemma_chunks_fault(
        self,
        range: Option<(u64, u64)>,
        selection: Seq<(&str, &[&str])>,
        plan: Seq<BankPlan<'_>>,
        e: HipoError,
    )
        requires
            plans_resolved(plan, self@.dict, selection),
            self@.chunks_end(range, plan, Err(e)),
        ensures
            self@.columns_fault(range, selection, e),
    {
        let ts = self@.tasks(self@.files.len());
        if !(exists|k: int| #[trigger] self@.part_fails_at(range, ts, k, e)) {
            let (k, i, j) = choose|k: int, i: int, j: int|
                0 <= k < ts.len() && #[trigger] plan_fails_at(
                    self@.kept_in(range, ts[k].0, ts[k].1),
                    plan,
                    i,
                    j,
                    e,
                );
            let evs = self@.kept_in(range, ts[k].0, ts[k].1);
            lemma_plan_fails(self@.dict, selection, plan, evs, i, j, e);
            assert(bank_fails(
                self@.dict,
                selection,
                self@.kept_in(range, ts[k].0, ts[k].1),
                i,
                e,
            ));
        }
    }
}

/// The tags of events.
pub open spec fn tags_of(evs: Seq<EventView>) -> Seq<u32> {
    evs.map_values(|ev: EventView| ev.tag())
}

impl ChainView {
    /// Every record of the first `n` files, as file and record numbers.
    pub open spec fn records(self, n: nat) -> Seq<(int, int)>
        decreases n,
    {
        if n == 0 {
            Seq::empty()
        } else {
            self.records((n - 1) as nat) + Seq::new(
                self.files[n - 1].info.spans.len(),
                |r: int| (n - 1, r),
            )
        }
    }

    /// Where record `t` stands.
    pub open spec fn record_span(self, t: (int, int)) -> ChainRecordSpan {
        ChainRecordSpan {
            file_index: t.0 as usize,
            record_index: t.1 as usize,
            global_event_start: self.record_start(t.0, t.1) as u64,
            event_count: self.files[t.0].info.spans[t.1].event_count,
        }
    }

    /// The header of record `t`.
    pub open spec fn record_header(self, t: (int, int)) -> Result<RecordHeader> {
        header_in(self.files[t.0].bytes, self.files[t.0].info.spans[t.1].file_offset as int)
    }

    /// How a read of the tags of all kept events ends.
    pub open spec fn tags_end(self, range: Option<(u64, u64)>, r: Result<Vec<u32>>) -> bool {
        let ts = self.tasks(self.files.len());
        match r {
            Ok(tags) => self.parts_stored(range, ts, ts.len()) && tags@ == tags_of(
                self.kept(range),
            ),
            Err(e) => exists|k: int| #[trigger] self.part_fails_at(range, ts, k, e),
        }
    }
}

/// The span of a record of a chain.
pub open spec fn span_list(c: ChainView, ts: Seq<(int, int)>) -> Seq<ChainRecordSpan> {
    ts.map_values(|t: (int, int)| c.record_span(t))
}

/// Decompressed payload sizes, or the error of the first header that cannot be read.
pub open spec fn sizes_end(c: ChainView, ts: Seq<(int, int)>, r: Result<Vec<u64>>) -> bool {
    match r {
        Ok(v) => v.len() == ts.len() && forall|k: int|
            0 <= k < v.len() ==> size_known(c, ts, k, #[trigger] v@[k]),
        Err(e) => exists|k: int| #[trigger] header_fails_at(c, ts, k, e),
    }
}

/// Record `k` has a payload of `n` bytes.
pub open spec fn size_known(c: ChainView, ts: Seq<(int, int)>, k: int, n: u64) -> bool {
    c.record_header(ts[k]) is Ok && n == c.record_header(ts[k])->Ok_0.payload_size()
}

/// The header of record `k` is the first that cannot be read, and `e` is the error.
pub open spec fn header_fails_at(c: ChainView, ts: Seq<(int, int)>, k: int, e: HipoError) -> bool {
    &&& 0 <= k < ts.len()
    &&& c.record_header(ts[k]) == Err::<RecordHeader, HipoError>(e)
    &&& forall|j: int| 0 <= j < k ==> c.record_header(#[trigger] ts[j]) is Ok
}

impl<S: ReadAt> Chain<S> {
    /// The tags of the events of record `rec` of file `f` that lie in the range and pass the
    /// filter, added to `tags`.
    fn record_event_tags(
        &self,
        f: usize,
        rec: usize,
        range: Option<(u64, u64)>,
        tags: &mut Vec<u32>,
    ) -> (r: Result<()>)
        requires
            f < self@.files.len(),
            rec < self@.files[f as int].info.spans.len(),
        ensures
            self@.intact() || r is Ok ==> if self@.reads(range, f as int, rec as int) && self@.stored(
                f as int,
                rec as int,
            ) is None {
                r is Err && record_fault(
                    self@.files[f as int].bytes,
                    self@.files[f as int].info.spans[rec as int],
                    self@.files[f as int].info.dictionary.dict,
                    r->Err_0,
                )
            } else {
                r is Ok && final(tags)@ == old(tags)@ + tags_of(
                    self@.kept_in(range, f as int, rec as int),
                )
            },
    {
        let mut ranges: Vec<(u64, u64)> = Vec::new();
        let (start, end) = self.record_bounds(f, rec);
        let ghost evs = self@.kept_in(range, f as int, rec as int);
        if let Some((a, b)) = range {
            if end <= a || start >= b {
                assert(tags@ =~= old(tags)@ + tags_of(evs));
                return Ok(());
            }
            ranges.push((a, b));
        }
        let window = match range {
            Some(_) => Some(EventWindow { record_start: start, ranges: ranges.as_slice() }),
            None => None,
        };
        proof {
            match range {
                Some(p) => {
                    assert(ranges@ =~= seq![p]);
                },
                None => {},
            }
            assert(window_view(window) == self@.range_window(range, f as int, rec as int));
        }
        let s = match self.process_record(f, rec, window) {
            Ok(s) => s,
            Err(e) => {
                return Err(e);
            },
        };
        let mut i: usize = 0;
        assert(tags@ =~= old(tags)@ + tags_of(evs.subrange(0, 0)));
        while i < s.events.len()
            invariant
                i <= s.events.len(),
                evs == events_of(s.record@, s.events@),
                forall|k: int|
                    0 <= k < s.events.len() ==> (#[trigger] s.events@[k]) < s.record@.events(),
                tags@ == old(tags)@ + tags_of(evs.subrange(0, i as int)),
            decreases s.events.len() - i,
        {
            let ghost before = tags@;
            tags.push(s.record.event_tag(s.events[i]));
            proof {
                assert(evs.subrange(0, i + 1) =~= evs.subrange(0, i as int).push(evs[i as int]));
                assert(tags@ =~= old(tags)@ + tags_of(evs.subrange(0, i + 1)));
            }
            i = i + 1;
        }
        assert(evs.subrange(0, evs.len() as int) =~= evs);
        Ok(())
    }

    /// The tag of every event that lies in the range and passes the filter, in order: one for
    /// each event of [`Self::read_columns`]. No bank is decompressed.
    pub fn event_tags(&self, range: Option<Range<u64>>) -> (r: Result<Vec<u32>>)
        ensures
            self@.told(r is Ok) ==> self@.tags_end(range_pair(range), r),
    {
        match range {
            Some(r) => self.tags_in(Some((r.start, r.end))),
            None => self.tags_in(None),
        }
    }

    /// [`Self::event_tags`] for a range as a pair of numbers.
    fn tags_in(&self, range: Option<(u64, u64)>) -> (r: Result<Vec<u32>>)
        ensures
            self@.told(r is Ok) ==> self@.tags_end(range, r),
    {
        let tasks = self.build_tasks();
        let ghost ts = task_views(tasks@);
        let ghost parts = self@.kept_parts(range, ts);
        let mut tags: Vec<u32> = Vec::new();
        let mut k: usize = 0;
        assert(tags@ =~= tags_of(flat(parts, 0)));
        while k < tasks.len()
            invariant
                k <= tasks.len(),
                ts == task_views(tasks@),
                parts == self@.kept_parts(range, ts),
                self@.steady() ==> ts == self@.tasks(self@.files.len()),
                forall|i: int|
                    0 <= i < tasks.len() ==> (#[trigger] tasks@[i]).0 < self@.files.len()
                        && tasks@[i].1 < self@.files[tasks@[i].0 as int].info.spans.len(),
                self@.steady() ==> self@.parts_stored(range, ts, k as nat) && tags@ == tags_of(
                    flat(parts, k as nat),
                ),
            decreases tasks.len() - k,
        {
            let (f, rec) = tasks[k];
            assert(ts[k as int] == (f as int, rec as int));
            match self.record_event_tags(f, rec, range, &mut tags) {
                Ok(_) => {},
                Err(e) => {
                    assert(self@.intact() ==> self@.part_fails_at(range, ts, k as int, e));
                    return Err(e);
                },
            }
            proof {
                if self@.steady() {
                    let (x, y) = (flat(parts, k as nat), parts[k as int]);
                    assert(tags@ =~= tags_of(x + y));
                }
            }
            k = k + 1;
        }
        Ok(tags)
    }

    /// Where every record stands, in order. No record is read.
    pub fn record_spans(&self) -> (r: Vec<ChainRecordSpan>)
        ensures
            r@ == span_list(self@, self@.records(self@.files.len())),
    {
        let mut out: Vec<ChainRecordSpan> = Vec::new();
        let mut f: usize = 0;
        assert(out@ =~= span_list(self@, self@.records(0)));
        while f < self.file_count()
            invariant
                f <= self@.files.len(),
                out@ == span_list(self@, self@.records(f as nat)),
            decreases self@.files.len() - f,
        {
            let ghost start = out@;
            let ghost here = Seq::new(
                self@.files[f as int].info.spans.len(),
                |r: int| (f as int, r),
            );
            let n: usize = self.file(f).index().records().len();
            let mut k: usize = 0;
            while k < n
                invariant
                    k <= n,
                    f < self@.files.len(),
                    n == self@.files[f as int].info.spans.len(),
                    out@ == start + span_list(self@, here.subrange(0, k as int)),
                    here == Seq::new(
                        self@.files[f as int].info.spans.len(),
                        |r: int| (f as int, r),
                    ),
                decreases n - k,
            {
                let (first, _) = self.record_bounds(f, k);
                let count: u32 = self.file(f).index().records()[k].event_count;
                out.push(
                    ChainRecordSpan {
                        file_index: f,
                        record_index: k,
                        global_event_start: first,
                        event_count: count,
                    },
                );
                assert(here.subrange(0, k + 1) =~= here.subrange(0, k as int).push(
                    (f as int, k as int),
                ));
                assert(out@ =~= start + span_list(self@, here.subrange(0, k + 1)));
                k = k + 1;
            }
            proof {
                assert(here.subrange(0, n as int) =~= here);
                assert(self@.records((f + 1) as nat) == self@.records(f as nat) + here);
                assert(out@ =~= span_list(self@, self@.records((f + 1) as nat)));
            }
            f = f + 1;
        }
        out
    }

    /// How many bytes the payload of every record takes up when decompressed, in the order of
    /// [`Self::record_spans`]. Only headers are read.
    #[verifier::spinoff_prover]
    #[verifier::rlimit(40)]
    pub fn record_decompressed_sizes(&self) -> (r: Result<Vec<u64>>)
        ensures
            self@.intact() || r is Ok ==> sizes_end(self@, self@.records(self@.files.len()), r),
    {
        let spans = self.record_spans();
        let ghost ts = self@.records(self@.files.len());
        let mut out: Vec<u64> = Vec::new();
        let mut k: usize = 0;
        proof {
            self.lemma_records_inside(self@.files.len());
        }
        while k < spans.len()
            invariant
                k <= spans.len(),
                out.len() == k,
                ts == self@.records(self@.files.len()),
                spans@ == span_list(self@, ts),
                forall|i: int|
                    0 <= i < ts.len() ==> 0 <= (#[trigger] ts[i]).0 < self@.files.len() && 0
                        <= ts[i].1 < self@.files[ts[i].0].info.spans.len(),
                forall|j: int|
                    0 <= j < k ==> size_known(self@, ts, j, #[trigger] out@[j]),
            decreases spans.len() - k,
        {
            let (f, rec) = (spans[k].file_index, spans[k].record_index);
            assert(spans@[k as int] == self@.record_span(ts[k as int]));
            let _ = self.file_count();
            assert(f == ts[k as int].0);
            let _ = self.file(f).index().records().len();
            assert(rec == ts[k as int].1);
            let offset: u64 = self.file(f).index().records()[rec].file_offset;
            match self.file(f).read_record_header(offset) {
                Ok(h) => {
                    out.push(
                        h.index_array_length as u64 + h.user_header_length as u64
                            + h.user_header_padding as u64 + h.data_length as u64,
                    );
                },
                Err(e) => {
                    proof {
                        if self@.intact() {
                            assert forall|j: int| 0 <= j < k implies self@.record_header(
                                #[trigger] ts[j],
                            ) is Ok by {
                                assert(size_known(self@, ts, j, out@[j]));
                            }
                            assert(header_fails_at(self@, ts, k as int, e));
                        }
                    }
                    return Err(e);
                },
            }
            k = k + 1;
        }
        Ok(out)
    }

    /// Listed records are records of the chain's files.
    pub(crate) proof fn lemma_records_inside(self, n: nat)
        requires
            n <= self@.files.len(),
        ensures
            forall|i: int|
                0 <= i < self@.records(n).len() ==> 0 <= (#[trigger] self@.records(n)[i]).0 < n
                    && 0 <= self@.records(n)[i].1 < self@.files[self@.records(n)[i].0].info.spans.len(),
        decreases n,
    {
        if n > 0 {
            self.lemma_records_inside((n - 1) as nat);
        }
    }
}

} // verus!
