//! Reading columns of single events, named by their numbers.

use vstd::prelude::*;
use vstd::slice::slice_subrange;
use crate::error::{HipoError, Result};
#[allow(unused_imports)]
use crate::event::event::event_structures;
#[allow(unused_imports)]
use crate::event::view::EventView;
use crate::read::cells::BankChunk;
#[allow(unused_imports)]
use crate::read::cells::{
    all_cells, all_readable, cells_of, column_bytes, events_of, law_columns_align, row_counts,
    CellsView,
};
use crate::read::chain::Chain;
#[allow(unused_imports)]
use crate::read::chain::{law_one_place, ChainView, Place};
use crate::read::column_data::ColumnBuffers;
use crate::read::columns::record_rows;
#[allow(unused_imports)]
use crate::read::columns::{
    bank_fails, buffers_for, lemma_merged_buffers, lemma_overflows, lemma_plan_fails, overflows,
    plan_fails_at, plan_read,
};
#[allow(unused_imports)]
use crate::read::iter::record_fault;
use crate::read::merge::{merge_chunks, RecordChunk};
#[allow(unused_imports)]
use crate::read::merge::{flat, too_many_rows};
use crate::read::plan::{build_plan, BankPlan};
#[allow(unused_imports)]
use crate::read::plan::{all_resolvable, plan_wf, selection_fails_at};
use crate::read::source::ReadAt;
use crate::read::stored::StoredRecord;
#[allow(unused_imports)]
use crate::read::stored::StoredView;
#[allow(unused_imports)]
use crate::schema::types::SchemaView;
use crate::wire::bytes::push_bytes;
#[allow(unused_imports)]
use crate::wire::event_index::numbered;
#[allow(unused_imports)]
use crate::wire::tables::{lemma_prefix_sum_monotone, prefix_sum, total};

verus! {

/// What stands for an event that is not there: one without banks.
pub open spec fn no_event() -> EventView {
    EventView::Bytes(Seq::empty())
}

/// Event `e` of a record; one without banks where the record does not have it.
pub open spec fn entry_in(v: StoredView, e: int) -> EventView {
    if e < v.events() {
        v.event(e)
    } else {
        no_event()
    }
}

/// The bytes of earlier events come first.
proof fn lemma_column_prefix(cells: Seq<CellsView>, s: SchemaView, c: int, i: nat, n: nat)
    requires
        i <= n <= cells.len(),
    ensures
        column_bytes(cells, s, c, i).len() <= column_bytes(cells, s, c, n).len(),
        column_bytes(cells, s, c, n).subrange(0, column_bytes(cells, s, c, i).len() as int)
            =~= column_bytes(cells, s, c, i),
    decreases n,
{
    if i < n {
        lemma_column_prefix(cells, s, c, i, (n - 1) as nat);
    }
}

/// The bytes of one event lie where its rows do.
#[verifier::spinoff_prover]
#[verifier::rlimit(60)]
proof fn lemma_event_bytes(evs: Seq<EventView>, s: SchemaView, c: int, i: int)
    requires
        s.laid_out(),
        0 <= c < s.entries.len(),
        0 <= i < evs.len(),
        forall|k: int| 0 <= k < evs.len() ==> (#[trigger] evs[k]).wf(),
        forall|k: int| 0 <= k < evs.len() ==> cells_of(#[trigger] evs[k], s).column(s, c) is Some,
    ensures
        ({
            let counts = row_counts(all_cells(evs, s), s);
            let w = s.entries[c].width();
            let from = prefix_sum(counts, i as nat);
            let one = all_cells(seq![evs[i]], s);
            let bytes = column_bytes(all_cells(evs, s), s, c, evs.len());
            &&& 0 <= from * w <= (from + counts[i]) * w <= bytes.len()
            &&& bytes.subrange((from * w) as int, (from + counts[i]) * w) == column_bytes(
                one,
                s,
                c,
                1,
            )
            &&& row_counts(one, s) == seq![counts[i]]
        }),
{
    let cells = all_cells(evs, s);
    let counts = row_counts(cells, s);
    let w = s.entries[c].width();
    let from = prefix_sum(counts, i as nat);
    let one = all_cells(seq![evs[i]], s);
    let bytes = column_bytes(cells, s, c, evs.len());
    law_columns_align(evs, s, c, i as nat);
    law_columns_align(evs, s, c, (i + 1) as nat);
    lemma_column_prefix(cells, s, c, (i + 1) as nat, evs.len());
    let before = column_bytes(cells, s, c, i as nat);
    let upto = column_bytes(cells, s, c, (i + 1) as nat);
    assert(upto == before + cells[i].column(s, c)->0);
    assert(prefix_sum(counts, (i + 1) as nat) == from + counts[i]);
    assert(from * w >= 0) by (nonlinear_arith);
    assert(bytes.subrange((from * w) as int, (from + counts[i]) * w) =~= upto.subrange(
        (from * w) as int,
        (from + counts[i]) * w,
    ));
    assert(upto.subrange((from * w) as int, (from + counts[i]) * w) =~= cells[i].column(s, c)->0);
    assert(one[0] == cells[i]);
    reveal_with_fuel(column_bytes, 2);
    assert(column_bytes(one, s, c, 1) =~= cells[i].column(s, c)->0);
    assert(row_counts(one, s) =~= seq![counts[i]]);
}

/// `r` is event `i`'s share of the chunk `b`.
pub open spec fn is_split(
    r: BankChunk,
    b: BankChunk,
    s: SchemaView,
    cols: Seq<usize>,
    i: int,
) -> bool {
    let from = prefix_sum(b.row_counts@, i as nat);
    &&& r.row_counts@ == seq![b.row_counts@[i]]
    &&& r.columns.len() == cols.len()
    &&& forall|k: int|
        0 <= k < cols.len() ==> (#[trigger] r.columns@[k])@ == b.columns@[k]@.subrange(
            (from * s.entries[cols[k] as int].width()) as int,
            (from + b.row_counts@[i]) * s.entries[cols[k] as int].width(),
        )
}

/// Numbers of 32 bits, added up, stay below their count times the largest of them.
proof fn lemma_prefix_sum_bound(s: Seq<u32>, k: nat)
    ensures
        prefix_sum(s, k) <= k * u32::MAX,
    decreases k,
{
    if k > 0 {
        lemma_prefix_sum_bound(s, (k - 1) as nat);
    }
}

/// One event's share of a bank.
fn split_bank(b: &BankChunk, p: &BankPlan<'_>, i: usize, from: u128) -> (r: BankChunk)
    requires
        plan_wf(*p),
        i < b.row_counts.len(),
        from == prefix_sum(b.row_counts@, i as nat),
        b.aligned(p.schema@, p.cols@),
    ensures
        is_split(r, *b, p.schema@, p.cols@, i as int),
        r.aligned(p.schema@, p.cols@),
{
    let rows: u32 = b.row_counts[i];
    let mut counts: Vec<u32> = Vec::new();
    counts.push(rows);
    let mut columns: Vec<Vec<u8>> = Vec::new();
    let mut k: usize = 0;
    while k < p.cols.len()
        invariant
            k <= p.cols.len(),
            columns.len() == k,
            plan_wf(*p),
            i < b.row_counts.len(),
            rows == b.row_counts@[i as int],
            from == prefix_sum(b.row_counts@, i as nat),
            b.aligned(p.schema@, p.cols@),
            forall|q: int|
                0 <= q < k ==> ({
                    let w = p.schema@.entries[p.cols@[q] as int].width();
                    (#[trigger] columns@[q])@ == b.columns@[q]@.subrange(
                        from * w,
                        (from + rows) * w,
                    ) && columns@[q].len() == rows * w
                }),
        decreases p.cols.len() - k,
    {
        let c: usize = p.cols[k];
        let entry = &p.schema.entries()[c];
        let ghost w = p.schema@.entries[c as int].width();
        let bytes = &b.columns[k];
        let mut piece: Vec<u8> = Vec::new();
        proof {
            let (a, t, n) = (from as int, total(b.row_counts@) as int, rows as int);
            lemma_prefix_sum_monotone(
                b.row_counts@,
                (i + 1) as nat,
                b.row_counts@.len(),
            );
            assert(prefix_sum(b.row_counts@, (i + 1) as nat) == from + rows);
            assert(0 <= a * w <= (a + n) * w && (a + n) * w <= t * w && (a + n) * w - a * w == n
                * w) by (nonlinear_arith)
                requires
                    0 <= a,
                    0 <= n,
                    a + n <= t,
                    w >= 0,
            ;
        }
        if rows > 0 {
            proof {
                let (a, n, z, l) = (
                    from as int,
                    rows as int,
                    entry.ty.spec_size() as int,
                    entry.length as int,
                );
                use_type_invariant(p.schema);
                assert(p.schema@.entries[c as int].length >= 1);
                assert(w == z * l);
                assert(a <= (a + n) * w && z * l <= (a + n) * w) by (nonlinear_arith)
                    requires
                        a >= 0,
                        n >= 1,
                        w == z * l,
                        z >= 1,
                        l >= 1,
                ;
                assert(z * l >= 0) by (nonlinear_arith)
                    requires
                        z >= 1,
                        l >= 1,
                ;
            }
            let width: u128 = entry.ty.size() as u128 * entry.length as u128;
            let lo: u128 = from * width;
            let hi: u128 = (from + rows as u128) * width;
            push_bytes(&mut piece, slice_subrange(bytes.as_slice(), lo as usize, hi as usize));
        } else {
            assert(rows * w == 0) by (nonlinear_arith)
                requires
                    rows == 0,
            ;
        }
        assert(piece@ =~= bytes@.subrange(from * w, (from + rows) * w));
        columns.push(piece);
        k = k + 1;
    }
    let r = BankChunk { row_counts: counts, columns };
    proof {
        reveal_with_fuel(prefix_sum, 2);
        assert(total(r.row_counts@) == rows);
    }
    r
}

/// One event's share of a record, and the rows of every bank up to the next event.
fn split_record(c: &RecordChunk, plan: &Vec<BankPlan<'_>>, i: usize, from: &Vec<u128>) -> (r: (
    RecordChunk,
    Vec<u128>,
))
    requires
        forall|b: int| 0 <= b < plan.len() ==> plan_wf(#[trigger] plan@[b]),
        c.aligned(plan@),
        from.len() == plan.len(),
        forall|b: int|
            0 <= b < plan.len() ==> i < (#[trigger] c.banks@[b]).row_counts.len() && from@[b]
                == prefix_sum(c.banks@[b].row_counts@, i as nat),
    ensures
        r.0.aligned(plan@),
        forall|b: int|
            0 <= b < plan.len() ==> is_split(
                #[trigger] r.0.banks@[b],
                c.banks@[b],
                plan@[b].schema@,
                plan@[b].cols@,
                i as int,
            ),
        r.1.len() == plan.len(),
        forall|b: int|
            0 <= b < plan.len() ==> #[trigger] r.1@[b] == prefix_sum(
                c.banks@[b].row_counts@,
                (i + 1) as nat,
            ),
{
    let mut banks: Vec<BankChunk> = Vec::new();
    let mut next: Vec<u128> = Vec::new();
    let mut b: usize = 0;
    while b < plan.len()
        invariant
            b <= plan.len(),
            banks.len() == b,
            next.len() == b,
            forall|b: int| 0 <= b < plan.len() ==> plan_wf(#[trigger] plan@[b]),
            c.aligned(plan@),
            from.len() == plan.len(),
            forall|b: int|
                0 <= b < plan.len() ==> i < (#[trigger] c.banks@[b]).row_counts.len() && from@[b]
                    == prefix_sum(c.banks@[b].row_counts@, i as nat),
            forall|q: int|
                0 <= q < b ==> (#[trigger] banks@[q]).aligned(plan@[q].schema@, plan@[q].cols@)
                    && is_split(
                    banks@[q],
                    c.banks@[q],
                    plan@[q].schema@,
                    plan@[q].cols@,
                    i as int,
                ),
            forall|q: int|
                0 <= q < b ==> #[trigger] next@[q] == prefix_sum(
                    c.banks@[q].row_counts@,
                    (i + 1) as nat,
                ),
        decreases plan.len() - b,
    {
        let bank = &c.banks[b];
        assert(c.banks@[b as int].aligned(plan@[b as int].schema@, plan@[b as int].cols@));
        banks.push(split_bank(bank, &plan[b], i, from[b]));
        proof {
            lemma_prefix_sum_bound(bank.row_counts@, (i + 1) as nat);
            assert(prefix_sum(bank.row_counts@, (i + 1) as nat) == prefix_sum(
                bank.row_counts@,
                i as nat,
            ) + bank.row_counts@[i as int]);
            let n = (i + 1) as int;
            assert(n * u32::MAX <= 0x1_0000_0000_0000_0000 * 0xffff_ffff) by (nonlinear_arith)
                requires
                    0 <= n <= 0x1_0000_0000_0000_0000,
            ;
        }
        next.push(from[b] + bank.row_counts[i] as u128);
        b = b + 1;
    }
    (RecordChunk { banks }, next)
}

/// One event's share of a chunk holds what the event holds.
proof fn lemma_split_holds(
    evs: Seq<EventView>,
    plan: Seq<BankPlan<'_>>,
    c: RecordChunk,
    r: RecordChunk,
    i: int,
)
    requires
        0 <= i < evs.len(),
        forall|k: int| 0 <= k < evs.len() ==> (#[trigger] evs[k]).wf(),
        forall|b: int| 0 <= b < plan.len() ==> plan_wf(#[trigger] plan[b]),
        plan_read(evs, plan, Ok(c)),
        r.banks.len() == plan.len(),
        forall|b: int|
            0 <= b < plan.len() ==> is_split(
                #[trigger] r.banks@[b],
                c.banks@[b],
                plan[b].schema@,
                plan[b].cols@,
                i,
            ),
    ensures
        plan_read(seq![evs[i]], plan, Ok(r)),
{
    let one = seq![evs[i]];
    assert forall|b: int| 0 <= b < plan.len() implies (#[trigger] r.banks@[b]).holds(
        all_cells(one, plan[b].schema@),
        plan[b].schema@,
        plan[b].cols@,
    ) by {
        let (s, cols) = (plan[b].schema@, plan[b].cols@);
        assert(plan_wf(plan[b]));
        let whole = c.banks@[b];
        assert(whole.holds(all_cells(evs, s), s, cols));
        assert(all_readable(evs, plan[b].schema@, plan[b].cols@));
        let bank = r.banks@[b];
        assert(is_split(bank, whole, s, cols, i));
        assert(row_counts(all_cells(one, s), s) =~= seq![whole.row_counts@[i]]);
        assert forall|k: int| 0 <= k < cols.len() implies (#[trigger] bank.columns@[k])@
            == column_bytes(all_cells(one, s), s, cols[k] as int, one.len()) by {
            let col = cols[k] as int;
            assert forall|q: int| 0 <= q < evs.len() implies cells_of(
                #[trigger] evs[q],
                s,
            ).column(s, col) is Some by {
                assert(cells_of(evs[q], s).readable(s, cols));
            }
            lemma_event_bytes(evs, s, col, i);
            assert(whole.columns@[k]@ == column_bytes(all_cells(evs, s), s, col, evs.len()));
        }
    }
    assert forall|b: int| 0 <= b < plan.len() implies all_readable(
        one,
        (#[trigger] plan[b]).schema@,
        plan[b].cols@,
    ) by {
        assert(all_readable(evs, plan[b].schema@, plan[b].cols@));
        assert forall|q: int| 0 <= q < one.len() implies cells_of(
            #[trigger] one[q],
            plan[b].schema@,
        ).readable(plan[b].schema@, plan[b].cols@) by {
            assert(one[q] == evs[i]);
        }
    }
}

/// The share of an event that is not there: no rows in any bank.
pub fn absent_chunk(plan: &Vec<BankPlan<'_>>) -> (r: RecordChunk)
    ensures
        plan_read(seq![no_event()], plan@, Ok(r)),
        r.aligned(plan@),
{
    let mut banks: Vec<BankChunk> = Vec::new();
    let ghost one = seq![no_event()];
    let mut i: usize = 0;
    assert(event_structures(Seq::empty()).len() == 0);
    while i < plan.len()
        invariant
            i <= plan.len(),
            banks.len() == i,
            one == seq![no_event()],
            event_structures(Seq::empty()).len() == 0,
            forall|q: int|
                0 <= q < i ==> (#[trigger] banks@[q]).aligned(plan@[q].schema@, plan@[q].cols@)
                    && banks@[q].holds(
                    all_cells(one, plan@[q].schema@),
                    plan@[q].schema@,
                    plan@[q].cols@,
                ),
        decreases plan.len() - i,
    {
        let n: usize = plan[i].cols.len();
        let mut counts: Vec<u32> = Vec::new();
        counts.push(0);
        let mut columns: Vec<Vec<u8>> = Vec::new();
        let mut k: usize = 0;
        while k < n
            invariant
                k <= n,
                columns.len() == k,
                forall|q: int| 0 <= q < k ==> (#[trigger] columns@[q]).len() == 0,
            decreases n - k,
        {
            columns.push(Vec::new());
            k = k + 1;
        }
        let b = BankChunk { row_counts: counts, columns };
        proof {
            let (s, cols) = (plan@[i as int].schema@, plan@[i as int].cols@);
            let cells = all_cells(one, s);
            assert(cells[0] == cells_of(no_event(), s));
            assert(cells[0] == CellsView::Absent);
            assert(b.row_counts@ =~= row_counts(cells, s));
            reveal_with_fuel(prefix_sum, 2);
            reveal_with_fuel(column_bytes, 2);
            assert forall|q: int| 0 <= q < n implies (#[trigger] b.columns@[q])@ == column_bytes(
                cells,
                s,
                cols[q] as int,
                cells.len(),
            ) && b.columns@[q].len() == total(b.row_counts@) * s.entries[cols[q] as int].width() by {
                assert(b.columns@[q]@ =~= column_bytes(cells, s, cols[q] as int, 1));
                assert(0 * s.entries[cols[q] as int].width() == 0) by (nonlinear_arith);
            }
        }
        banks.push(b);
        i = i + 1;
    }
    proof {
        assert forall|b: int| 0 <= b < plan.len() implies all_readable(
            one,
            (#[trigger] plan@[b]).schema@,
            plan@[b].cols@,
        ) by {
            assert(one[0] == no_event());
        }
    }
    RecordChunk { banks }
}

/// Those of the first `m` wanted events that a record of `n` events has.
pub open spec fn inside(wanted: Seq<(usize, u32)>, n: nat, m: nat) -> Seq<u32>
    decreases m,
{
    if m == 0 {
        Seq::empty()
    } else if wanted[m - 1].1 < n {
        inside(wanted, n, (m - 1) as nat).push(wanted[m - 1].1)
    } else {
        inside(wanted, n, (m - 1) as nat)
    }
}

/// What comes first stays first.
proof fn lemma_inside_grows(wanted: Seq<(usize, u32)>, n: nat, a: nat, b: nat)
    requires
        a <= b <= wanted.len(),
    ensures
        inside(wanted, n, a).len() <= inside(wanted, n, b).len(),
        forall|j: int|
            0 <= j < inside(wanted, n, a).len() ==> inside(wanted, n, b)[j] == #[trigger] inside(
                wanted,
                n,
                a,
            )[j],
    decreases b,
{
    if a < b {
        lemma_inside_grows(wanted, n, a, (b - 1) as nat);
    }
}

/// Event `j` of those that a record has is one that is wanted.
proof fn lemma_inside_wanted(wanted: Seq<(usize, u32)>, n: nat, m: nat, j: int) -> (k: int)
    requires
        m <= wanted.len(),
        0 <= j < inside(wanted, n, m).len(),
    ensures
        0 <= k < m,
        wanted[k].1 == inside(wanted, n, m)[j],
        wanted[k].1 < n,
    decreases m,
{
    let before = inside(wanted, n, (m - 1) as nat);
    if j < before.len() {
        lemma_inside_wanted(wanted, n, (m - 1) as nat, j)
    } else {
        m - 1
    }
}

/// What reading the wanted events of a record ends with: one share per event, or the error of
/// one of them.
pub open spec fn entries_read(
    v: StoredView,
    plan: Seq<BankPlan<'_>>,
    wanted: Seq<(usize, u32)>,
    r: Result<Vec<(usize, RecordChunk)>>,
) -> bool {
    match r {
        Ok(out) => out.len() == wanted.len() && forall|k: int|
            0 <= k < out.len() ==> (#[trigger] out@[k]).0 == wanted[k].0 && plan_read(
                seq![entry_in(v, wanted[k].1 as int)],
                plan,
                Ok(out@[k].1),
            ),
        Err(e) => exists|k: int, i: int| #[trigger] entry_fails_at(v, plan, wanted, k, i, e),
    }
}

/// Bank `i` of the plan cannot be read from wanted event `k`, and `e` is the error.
pub open spec fn entry_fails_at(
    v: StoredView,
    plan: Seq<BankPlan<'_>>,
    wanted: Seq<(usize, u32)>,
    k: int,
    i: int,
    e: HipoError,
) -> bool {
    0 <= k < wanted.len() && plan_fails_at(seq![entry_in(v, wanted[k].1 as int)], plan, i, 0, e)
}

/// The shares of single events of a record, each with the number that came with it. Streams are
/// decompressed once for all of them.
fn entry_rows(record: &StoredRecord, plan: &Vec<BankPlan<'_>>, wanted: &[(usize, u32)]) -> (r:
    Result<Vec<(usize, RecordChunk)>>)
    requires
        forall|b: int| 0 <= b < plan.len() ==> plan_wf(#[trigger] plan@[b]),
    ensures
        entries_read(record@, plan@, wanted@, r),
        r matches Ok(out) ==> forall|k: int|
            0 <= k < out.len() ==> (#[trigger] out@[k]).1.aligned(plan@),
{
    let n: u32 = record.event_count();
    let ghost v = record@;
    let mut events: Vec<u32> = Vec::new();
    let mut k: usize = 0;
    assert(events@ =~= inside(wanted@, n as nat, 0));
    while k < wanted.len()
        invariant
            k <= wanted.len(),
            events@ == inside(wanted@, n as nat, k as nat),
            forall|j: int| 0 <= j < events.len() ==> (#[trigger] events@[j]) < n,
        decreases wanted.len() - k,
    {
        let e: u32 = wanted[k].1;
        if e < n {
            events.push(e);
        }
        k = k + 1;
    }
    let ghost evs = events_of(v, events@);
    let chunk = match record_rows(record, events.as_slice(), plan) {
        Ok(chunk) => chunk,
        Err(e) => {
            proof {
                let (i, j) = choose|i: int, j: int| #[trigger] plan_fails_at(evs, plan@, i, j, e);
                let k = lemma_inside_wanted(wanted@, n as nat, wanted@.len(), j);
                assert(evs[j] == entry_in(v, wanted@[k].1 as int));
                assert(entry_fails_at(v, plan@, wanted@, k, i, e));
            }
            return Err(e);
        },
    };
    let mut from: Vec<u128> = Vec::new();
    let mut b: usize = 0;
    while b < plan.len()
        invariant
            b <= plan.len(),
            from.len() == b,
            forall|q: int| 0 <= q < b ==> (#[trigger] from@[q]) == 0,
        decreases plan.len() - b,
    {
        from.push(0);
        b = b + 1;
    }
    let mut out: Vec<(usize, RecordChunk)> = Vec::new();
    let mut pos: usize = 0;
    let mut k: usize = 0;
    while k < wanted.len()
        invariant
            k <= wanted.len(),
            out.len() == k,
            n == v.events(),
            v == record@,
            events@ == inside(wanted@, n as nat, wanted@.len()),
            evs == events_of(v, events@),
            pos == inside(wanted@, n as nat, k as nat).len(),
            pos <= k,
            forall|j: int| 0 <= j < events.len() ==> (#[trigger] events@[j]) < n,
            forall|e: int| 0 <= e < n ==> (#[trigger] v.event(e)).wf(),
            forall|b: int| 0 <= b < plan.len() ==> plan_wf(#[trigger] plan@[b]),
            plan_read(evs, plan@, Ok(chunk)),
            chunk.aligned(plan@),
            from.len() == plan.len(),
            forall|b: int|
                0 <= b < plan.len() ==> #[trigger] from@[b] == prefix_sum(
                    chunk.banks@[b].row_counts@,
                    pos as nat,
                ),
            forall|q: int|
                0 <= q < k ==> (#[trigger] out@[q]).0 == wanted@[q].0 && out@[q].1.aligned(plan@)
                    && plan_read(
                    seq![entry_in(v, wanted@[q].1 as int)],
                    plan@,
                    Ok(out@[q].1),
                ),
        decreases wanted.len() - k,
    {
        let (slot, e) = wanted[k];
        if e < n {
            proof {
                lemma_inside_grows(wanted@, n as nat, (k + 1) as nat, wanted@.len());
                assert(inside(wanted@, n as nat, (k + 1) as nat)[pos as int] == e);
                assert(evs[pos as int] == v.event(e as int));
                assert forall|b: int| 0 <= b < plan.len() implies pos < (
                #[trigger] chunk.banks@[b]).row_counts.len() && from@[b] == prefix_sum(
                    chunk.banks@[b].row_counts@,
                    pos as nat,
                ) by {
                    let s = plan@[b].schema@;
                    assert(chunk.banks@[b].holds(all_cells(evs, s), s, plan@[b].cols@));
                    assert(from@[b] == prefix_sum(chunk.banks@[b].row_counts@, pos as nat));
                }
            }
            let (piece, next) = split_record(&chunk, plan, pos, &from);
            proof {
                assert forall|q: int| 0 <= q < evs.len() implies (#[trigger] evs[q]).wf() by {
                    assert(evs[q] == v.event(events@[q] as int));
                }
                lemma_split_holds(evs, plan@, chunk, piece, pos as int);
            }
            out.push((slot, piece));
            from = next;
            pos = pos + 1;
        } else {
            out.push((slot, absent_chunk(plan)));
        }
        k = k + 1;
    }
    Ok(out)
}

impl ChainView {
    /// Event number `idx`; one without banks where there is no such event.
    pub open spec fn entry(self, idx: int) -> EventView {
        if idx >= self.total() {
            no_event()
        } else {
            let p = choose|p: Place| self.is_place(idx, p);
            entry_in(self.stored(p.file, p.record)->0, p.event)
        }
    }

    /// The record of event number `idx` can be read.
    pub open spec fn entry_stored(self, idx: int) -> bool {
        idx < self.total() ==> {
            let p = choose|p: Place| self.is_place(idx, p);
            self.stored(p.file, p.record) is Some
        }
    }

    /// The record of event number `idx` cannot be read, and `e` is the error.
    pub open spec fn entry_unread(self, idx: int, e: HipoError) -> bool {
        let p = choose|p: Place| self.is_place(idx, p);
        &&& idx < self.total()
        &&& self.stored(p.file, p.record) is None
        &&& record_fault(
            self.files[p.file].bytes,
            self.files[p.file].info.spans[p.record],
            self.files[p.file].info.dictionary.dict,
            e,
        )
    }

    /// The events with the given numbers.
    pub open spec fn entries(self, idxs: Seq<u64>) -> Seq<EventView> {
        idxs.map_values(|idx: u64| self.entry(idx as int))
    }

    /// `e` is the error of a read of single events.
    pub open spec fn entries_fault(
        self,
        idxs: Seq<u64>,
        selection: Seq<(&str, &[&str])>,
        e: HipoError,
    ) -> bool {
        ||| exists|k: int| 0 <= k < idxs.len() && self.entry_unread((#[trigger] idxs[k]) as int, e)
        ||| exists|k: int, i: int|
            0 <= k < idxs.len() && #[trigger] bank_fails(
                self.dict,
                selection,
                seq![self.entry(idxs[k] as int)],
                i,
                e,
            )
        ||| e == HipoError::Internal("row offsets exceed 63 bits") && exists|i: int| #[trigger]
            overflows(self.dict, selection, self.entries(idxs), i)
    }

    /// How a read of single events ends.
    pub open spec fn entries_end(
        self,
        idxs: Seq<u64>,
        selection: Seq<(&str, &[&str])>,
        r: Result<Vec<ColumnBuffers>>,
    ) -> bool {
        match r {
            Ok(bufs) => {
                &&& all_resolvable(self.dict, selection)
                &&& buffers_for(bufs@, self.dict, selection, self.entries(idxs))
                &&& selection.len() > 0 ==> forall|k: int|
                    0 <= k < idxs.len() ==> self.entry_stored((#[trigger] idxs[k]) as int)
            },
            Err(e) => {
                ||| exists|i: int| #[trigger] selection_fails_at(self.dict, selection, i, e)
                ||| all_resolvable(self.dict, selection) && selection.len() > 0
                    && self.entries_fault(idxs, selection, e)
            },
        }
    }
}

/// The wanted events of one record: the place of each in the caller's list, and its number in
/// the record.
#[derive(Debug)]
pub struct EntryGroup {
    pub file: usize,
    pub record: usize,
    pub wanted: Vec<(usize, u32)>,
}

/// Wanted event `p` of group `g` is where the chain has it.
pub open spec fn group_ok(c: ChainView, idxs: Seq<u64>, g: EntryGroup, p: int) -> bool {
    let (slot, e) = g.wanted@[p];
    &&& slot < idxs.len()
    &&& c.is_place(
        idxs[slot as int] as int,
        Place { file: g.file as int, record: g.record as int, event: e as int },
    )
}

/// Every wanted event of every group is where the chain has it.
pub open spec fn groups_ok(c: ChainView, idxs: Seq<u64>, groups: Seq<EntryGroup>) -> bool {
    forall|g: int, p: int|
        0 <= g < groups.len() && 0 <= p < groups[g].wanted.len() ==> #[trigger] group_ok(
            c,
            idxs,
            groups[g],
            p,
        )
}

/// Wanted event `p` of group `g` is number `k` of the caller's list.
pub open spec fn listed_at(groups: Seq<EntryGroup>, k: int, g: int, p: int) -> bool {
    0 <= g < groups.len() && 0 <= p < groups[g].wanted.len() && groups[g].wanted@[p].0 == k
}

/// Some group has number `k` of the caller's list.
pub open spec fn listed(groups: Seq<EntryGroup>, k: int) -> bool {
    exists|g: int, p: int| #[trigger] listed_at(groups, k, g, p)
}

/// Where the group of a record is, or would be.
fn group_position(groups: &Vec<EntryGroup>, f: usize, rec: usize) -> (r: (bool, usize))
    ensures
        r.1 <= groups.len(),
        r.0 ==> r.1 < groups.len() && groups@[r.1 as int].file == f && groups@[r.1 as int].record
            == rec,
{
    let mut lo: usize = 0;
    let mut hi: usize = groups.len();
    while lo < hi
        invariant
            lo <= hi <= groups.len(),
        decreases hi - lo,
    {
        let mid: usize = lo + (hi - lo) / 2;
        let g = &groups[mid];
        if g.file == f && g.record == rec {
            return (true, mid);
        }
        if g.file < f || (g.file == f && g.record < rec) {
            lo = mid + 1;
        } else {
            hi = mid;
        }
    }
    (false, lo)
}

/// Enter one wanted event into the group of its record.
fn enter(groups: &mut Vec<EntryGroup>, f: usize, rec: usize, slot: usize, e: u32)
    ensures
        forall|c: ChainView, idxs: Seq<u64>|
            #![trigger groups_ok(c, idxs, final(groups)@)]
            groups_ok(c, idxs, old(groups)@) && slot < idxs.len() && c.is_place(
                idxs[slot as int] as int,
                Place { file: f as int, record: rec as int, event: e as int },
            ) ==> groups_ok(c, idxs, final(groups)@),
        listed(final(groups)@, slot as int),
        forall|k: int| listed(old(groups)@, k) ==> #[trigger] listed(final(groups)@, k),
{
    let (known, at) = group_position(groups, f, rec);
    if known {
        let g = &mut groups[at];
        g.wanted.push((slot, e));
        proof {
            let (a, b) = (old(groups)@, groups@);
            let n = a[at as int].wanted.len() as int;
            assert(listed_at(b, slot as int, at as int, n));
            assert forall|k: int| listed(a, k) implies #[trigger] listed(b, k) by {
                let (g, p) = choose|g: int, p: int| #[trigger] listed_at(a, k, g, p);
                assert(listed_at(b, k, g, p));
            }
            assert forall|c: ChainView, idxs: Seq<u64>|
                groups_ok(c, idxs, a) && slot < idxs.len() && c.is_place(
                    idxs[slot as int] as int,
                    Place { file: f as int, record: rec as int, event: e as int },
                ) implies #[trigger] groups_ok(c, idxs, b) by {
                assert forall|g: int, p: int|
                    0 <= g < b.len() && 0 <= p < b[g].wanted.len() implies #[trigger] group_ok(
                    c,
                    idxs,
                    b[g],
                    p,
                ) by {
                    if g != at || p < n {
                        assert(group_ok(c, idxs, a[g], p));
                    }
                }
            }
        }
    } else {
        let mut wanted: Vec<(usize, u32)> = Vec::new();
        wanted.push((slot, e));
        groups.insert(at, EntryGroup { file: f, record: rec, wanted });
        proof {
            let (a, b) = (old(groups)@, groups@);
            assert(listed_at(b, slot as int, at as int, 0));
            assert forall|k: int| listed(a, k) implies #[trigger] listed(b, k) by {
                let (g, p) = choose|g: int, p: int| #[trigger] listed_at(a, k, g, p);
                if g < at {
                    assert(listed_at(b, k, g, p));
                } else {
                    assert(b[g + 1] == a[g]);
                    assert(listed_at(b, k, g + 1, p));
                }
            }
            assert forall|c: ChainView, idxs: Seq<u64>|
                groups_ok(c, idxs, a) && slot < idxs.len() && c.is_place(
                    idxs[slot as int] as int,
                    Place { file: f as int, record: rec as int, event: e as int },
                ) implies #[trigger] groups_ok(c, idxs, b) by {
                assert forall|g: int, p: int|
                    0 <= g < b.len() && 0 <= p < b[g].wanted.len() implies #[trigger] group_ok(
                    c,
                    idxs,
                    b[g],
                    p,
                ) by {
                    if g < at {
                        assert(group_ok(c, idxs, a[g], p));
                    } else if g > at {
                        assert(b[g] == a[g - 1]);
                        assert(group_ok(c, idxs, a[g - 1], p));
                    }
                }
            }
        }
    }
}

/// The event with number `idx` is the one at its place.
proof fn lemma_entry(c: ChainView, idx: int, p: Place)
    requires
        forall|i: int|
            0 <= i < c.files.len() ==> numbered((#[trigger] c.files[i]).info.spans),
        0 <= idx < c.total(),
        c.is_place(idx, p),
    ensures
        c.entry(idx) == entry_in(c.stored(p.file, p.record)->0, p.event),
        c.entry_stored(idx) == (c.stored(p.file, p.record) is Some),
        forall|e: HipoError|
            #[trigger] c.entry_unread(idx, e) == (c.stored(p.file, p.record) is None
                && record_fault(
                c.files[p.file].bytes,
                c.files[p.file].info.spans[p.record],
                c.files[p.file].info.dictionary.dict,
                e,
            )),
{
    let q = choose|q: Place| c.is_place(idx, q);
    law_one_place(c, idx, p, q);
}

/// What is known of the share of an event of the caller's list.
pub open spec fn slot_filled(
    c: ChainView,
    plan: Seq<BankPlan<'_>>,
    idx: u64,
    chunk: RecordChunk,
) -> bool {
    &&& c.entry_stored(idx as int)
    &&& plan_read(seq![c.entry(idx as int)], plan, Ok(chunk))
}

/// One of the shares is for place `q`, and is `c`.
pub open spec fn given(shares: Seq<(usize, RecordChunk)>, q: int, c: RecordChunk) -> bool {
    exists|p: int| 0 <= p < shares.len() && #[trigger] shares[p] == (q as usize, c)
}

/// Put each share where it belongs; of several for one place, the first.
pub fn place_shares(shares: Vec<(usize, RecordChunk)>, chunks: &mut Vec<RecordChunk>)
    requires
        forall|p: int| 0 <= p < shares.len() ==> (#[trigger] shares@[p]).0 < old(chunks).len(),
    ensures
        final(chunks).len() == old(chunks).len(),
        forall|q: int|
            0 <= q < final(chunks).len() ==> (#[trigger] final(chunks)@[q]) == old(chunks)@[q]
                || given(shares@, q, final(chunks)@[q]),
        forall|p: int|
            0 <= p < shares.len() ==> given(
                shares@,
                (#[trigger] shares@[p]).0 as int,
                final(chunks)@[shares@[p].0 as int],
            ),
{
    let ghost all = shares@;
    let mut left = shares;
    while left.len() > 0
        invariant
            left.len() <= all.len(),
            left@ == all.subrange(0, left.len() as int),
            chunks.len() == old(chunks).len(),
            forall|p: int| 0 <= p < all.len() ==> (#[trigger] all[p]).0 < old(chunks).len(),
            forall|q: int|
                0 <= q < chunks.len() ==> (#[trigger] chunks@[q]) == old(chunks)@[q] || given(
                    all,
                    q,
                    chunks@[q],
                ),
            forall|p: int|
                left.len() <= p < all.len() ==> given(
                    all,
                    (#[trigger] all[p]).0 as int,
                    chunks@[all[p].0 as int],
                ),
        decreases left.len(),
    {
        let ghost n = left.len() as int;
        let ghost before = chunks@;
        if let Some((slot, chunk)) = left.pop() {
            assert(all[n - 1] == (slot, chunk));
            assert(left@ =~= all.subrange(0, n - 1));
            chunks.set(slot, chunk);
            proof {
                assert(given(all, slot as int, chunk));
                assert forall|q: int| 0 <= q < chunks.len() implies (#[trigger] chunks@[q])
                    == old(chunks)@[q] || given(all, q, chunks@[q]) by {
                    if q != slot {
                        assert(chunks@[q] == before[q]);
                    }
                }
                assert forall|p: int| n - 1 <= p < all.len() implies given(
                    all,
                    (#[trigger] all[p]).0 as int,
                    chunks@[all[p].0 as int],
                ) by {
                    if all[p].0 != slot {
                        assert(chunks@[all[p].0 as int] == before[all[p].0 as int]);
                    }
                }
            }
        }
    }
}

impl<S: ReadAt> Chain<S> {
    /// Read record `rec` of file `f` once, and give the share of each wanted event, with the
    /// number that came with it.
    pub fn process_record_entries(
        &self,
        f: usize,
        rec: usize,
        plan: &Vec<BankPlan<'_>>,
        wanted: &[(usize, u32)],
    ) -> (r: Result<Vec<(usize, RecordChunk)>>)
        requires
            f < self@.files.len(),
            rec < self@.files[f as int].info.spans.len(),
            forall|b: int| 0 <= b < plan.len() ==> plan_wf(#[trigger] plan@[b]),
        ensures
            self@.intact() || r is Ok ==> match self@.stored(f as int, rec as int) {
                Some(v) => entries_read(v, plan@, wanted@, r),
                None => r is Err && record_fault(
                    self@.files[f as int].bytes,
                    self@.files[f as int].info.spans[rec as int],
                    self@.files[f as int].info.dictionary.dict,
                    r->Err_0,
                ),
            },
            r matches Ok(out) ==> out.len() == wanted.len() && forall|k: int|
                0 <= k < out.len() ==> (#[trigger] out@[k]).0 == wanted@[k].0
                    && out@[k].1.aligned(plan@),
    {
        match self.load_record(f, rec) {
            Ok(record) => entry_rows(&record, plan, wanted),
            Err(e) => Err(e),
        }
    }

    /// Sort the caller's events by the records that hold them.
    pub fn group_entries(&self, entries: &[u64]) -> (r: Vec<EntryGroup>)
        ensures
            groups_ok(self@, entries@, r@),
            forall|k: int|
                0 <= k < entries.len() && entries@[k] < self@.total() ==> #[trigger] listed(r@, k),
    {
        let mut groups: Vec<EntryGroup> = Vec::new();
        let mut k: usize = 0;
        while k < entries.len()
            invariant
                k <= entries.len(),
                groups_ok(self@, entries@, groups@),
                forall|q: int|
                    0 <= q < k && entries@[q] < self@.total() ==> #[trigger] listed(groups@, q),
            decreases entries.len() - k,
        {
            if let Some((f, rec, e)) = self.locate(entries[k]) {
                let ghost before = groups@;
                enter(&mut groups, f, rec, k, e);
                assert forall|q: int| 0 <= q < k + 1 && entries@[q] < self@.total() implies
                    #[trigger] listed(groups@, q) by {
                    if q < k {
                        assert(listed(before, q));
                    }
                }
            }
            k = k + 1;
        }
        groups
    }

    /// Put the shares of a group's events where the caller's list has them.
    fn fill_group(
        &self,
        plan: &Vec<BankPlan<'_>>,
        entries: &[u64],
        group: &EntryGroup,
        chunks: &mut Vec<RecordChunk>,
    ) -> (r: Result<()>)
        requires
            old(chunks).len() == entries.len(),
            forall|b: int| 0 <= b < plan.len() ==> plan_wf(#[trigger] plan@[b]),
            forall|q: int| 0 <= q < old(chunks).len() ==> (#[trigger] old(chunks)@[q]).aligned(plan@),
            forall|p: int|
                0 <= p < group.wanted.len() ==> #[trigger] group_ok(self@, entries@, *group, p),
            forall|i: int|
                0 <= i < self@.files.len() ==> numbered((#[trigger] self@.files[i]).info.spans),
            group.wanted.len() > 0,
        ensures
            final(chunks).len() == entries.len(),
            forall|q: int|
                0 <= q < final(chunks).len() ==> (#[trigger] final(chunks)@[q]).aligned(plan@),
            self@.intact() || r is Ok ==> match r {
                Ok(_) => {
                    &&& forall|q: int|
                        0 <= q < entries.len() ==> (#[trigger] final(chunks)@[q]) == old(chunks)@[q]
                            || slot_filled(self@, plan@, entries@[q], final(chunks)@[q])
                    &&& forall|p: int|
                        0 <= p < group.wanted.len() ==> slot_filled(
                            self@,
                            plan@,
                            entries@[(#[trigger] group.wanted@[p]).0 as int],
                            final(chunks)@[group.wanted@[p].0 as int],
                        )
                },
                Err(e) => {
                    ||| exists|k: int|
                        0 <= k < entries.len() && self@.entry_unread(
                            (#[trigger] entries@[k]) as int,
                            e,
                        )
                    ||| exists|k: int, i: int|
                        0 <= k < entries.len() && #[trigger] plan_fails_at(
                            seq![self@.entry(entries@[k] as int)],
                            plan@,
                            i,
                            0,
                            e,
                        )
                },
            },
    {
        let (f, rec) = (group.file, group.record);
        proof {
            assert(group_ok(self@, entries@, *group, 0));
            self.lemma_group_entries(entries@, *group);
        }
        let out = match self.process_record_entries(f, rec, plan, group.wanted.as_slice()) {
            Ok(out) => out,
            Err(e) => {
                proof {
                    if self@.intact() {
                        let wanted = group.wanted@;
                        match self@.stored(f as int, rec as int) {
                            Some(v) => {
                                let (p, i) = choose|p: int, i: int| #[trigger]
                                    entry_fails_at(v, plan@, wanted, p, i, e);
                                assert(group_ok(self@, entries@, *group, p));
                                let k = wanted[p].0 as int;
                                assert(plan_fails_at(
                                    seq![self@.entry(entries@[k] as int)],
                                    plan@,
                                    i,
                                    0,
                                    e,
                                ));
                            },
                            None => {
                                let k = wanted[0].0 as int;
                                assert(self@.entry_unread(entries@[k] as int, e));
                            },
                        }
                    }
                }
                return Err(e);
            },
        };
        proof {
            assert forall|p: int| 0 <= p < out.len() implies (#[trigger] out@[p]).0
                < chunks.len() && out@[p].1.aligned(plan@) by {
                assert(group_ok(self@, entries@, *group, p));
            }
        }
        let ghost shares = out@;
        let ghost start = chunks@;
        place_shares(out, chunks);
        proof {
            assert forall|q: int| 0 <= q < chunks.len() implies (#[trigger] chunks@[q]).aligned(
                plan@,
            ) by {
                if chunks@[q] != start[q] {
                    let p = choose|p: int|
                        0 <= p < shares.len() && #[trigger] shares[p] == (q as usize, chunks@[q]);
                    assert(shares[p].1.aligned(plan@));
                }
            }
            self.lemma_shares_fill(plan@, entries@, *group, shares);
            assert forall|q: int| 0 <= q < entries.len() implies (#[trigger] chunks@[q])
                == start[q] || slot_filled(self@, plan@, entries@[q], chunks@[q]) by {
                if chunks@[q] != start[q] {
                    let p = choose|p: int|
                        0 <= p < shares.len() && #[trigger] shares[p] == (
                            q as usize,
                            chunks@[q],
                        );
                    assert(shares[p].0 == q);
                }
            }
            assert forall|p: int| 0 <= p < group.wanted.len() implies slot_filled(
                self@,
                plan@,
                entries@[(#[trigger] group.wanted@[p]).0 as int],
                chunks@[group.wanted@[p].0 as int],
            ) by {
                let q = shares[p].0 as int;
                assert(given(shares, q, chunks@[q]));
                let m = choose|m: int|
                    0 <= m < shares.len() && #[trigger] shares[m] == (q as usize, chunks@[q]);
                assert(shares[m].0 == q);
            }
        }
        Ok(())
    }

    /// The shares of a group fill the places of its events.
    proof fn lemma_shares_fill(
        self,
        plan: Seq<BankPlan<'_>>,
        entries: Seq<u64>,
        group: EntryGroup,
        shares: Seq<(usize, RecordChunk)>,
    )
        requires
            forall|p: int|
                0 <= p < group.wanted.len() ==> #[trigger] group_ok(self@, entries, group, p),
            forall|i: int|
                0 <= i < self@.files.len() ==> numbered((#[trigger] self@.files[i]).info.spans),
            self@.stored(group.file as int, group.record as int) is Some,
            shares.len() == group.wanted.len(),
            forall|k: int|
                0 <= k < shares.len() ==> (#[trigger] shares[k]).0 == group.wanted@[k].0
                    && plan_read(
                    seq![
                        entry_in(
                            self@.stored(group.file as int, group.record as int)->0,
                            group.wanted@[k].1 as int,
                        ),
                    ],
                    plan,
                    Ok(shares[k].1),
                ),
        ensures
            forall|k: int|
                0 <= k < shares.len() ==> slot_filled(
                    self@,
                    plan,
                    entries[(#[trigger] shares[k]).0 as int],
                    shares[k].1,
                ),
    {
        self.lemma_group_entries(entries, group);
        assert forall|k: int| 0 <= k < shares.len() implies slot_filled(
            self@,
            plan,
            entries[(#[trigger] shares[k]).0 as int],
            shares[k].1,
        ) by {
            let w = group.wanted@[k];
            assert(self@.entry(entries[w.0 as int] as int) == entry_in(
                self@.stored(group.file as int, group.record as int)->0,
                w.1 as int,
            ));
        }
    }

    /// The wanted events of a group are those that the caller's list names.
    proof fn lemma_group_entries(self, entries: Seq<u64>, group: EntryGroup)
        requires
            forall|p: int|
                0 <= p < group.wanted.len() ==> #[trigger] group_ok(self@, entries, group, p),
            forall|i: int|
                0 <= i < self@.files.len() ==> numbered((#[trigger] self@.files[i]).info.spans),
        ensures
            forall|p: int|
                #![trigger group.wanted@[p]]
                0 <= p < group.wanted.len() ==> ({
                    let idx = entries[group.wanted@[p].0 as int] as int;
                    let stored = self@.stored(group.file as int, group.record as int);
                    &&& self@.entry(idx) == entry_in(stored->0, group.wanted@[p].1 as int)
                    &&& self@.entry_stored(idx) == (stored is Some)
                    &&& forall|e: HipoError|
                        #[trigger] self@.entry_unread(idx, e) == (stored is None && record_fault(
                            self@.files[group.file as int].bytes,
                            self@.files[group.file as int].info.spans[group.record as int],
                            self@.files[group.file as int].info.dictionary.dict,
                            e,
                        ))
                }),
    {
        assert forall|p: int|
            #![trigger group.wanted@[p]]
            0 <= p < group.wanted.len() implies ({
            let idx = entries[group.wanted@[p].0 as int] as int;
            let stored = self@.stored(group.file as int, group.record as int);
            &&& self@.entry(idx) == entry_in(stored->0, group.wanted@[p].1 as int)
            &&& self@.entry_stored(idx) == (stored is Some)
            &&& forall|e: HipoError|
                #[trigger] self@.entry_unread(idx, e) == (stored is None && record_fault(
                    self@.files[group.file as int].bytes,
                    self@.files[group.file as int].info.spans[group.record as int],
                    self@.files[group.file as int].info.dictionary.dict,
                    e,
                ))
        }) by {
            assert(group_ok(self@, entries, group, p));
            let (slot, e) = group.wanted@[p];
            let place = Place {
                file: group.file as int,
                record: group.record as int,
                event: e as int,
            };
            crate::read::chain::lemma_in_file(self@, entries[slot as int] as int, place);
            crate::read::chain::lemma_base_monotone(
                self@.files,
                (group.file + 1) as nat,
                self@.files.len(),
            );
            lemma_entry(self@, entries[slot as int] as int, place);
        }
    }
}

/// Runs of one event each, one after the other, are the events.
proof fn lemma_flat_single(parts: Seq<Seq<EventView>>, evs: Seq<EventView>, n: nat)
    requires
        n <= parts.len(),
        n <= evs.len(),
        forall|j: int| 0 <= j < n ==> #[trigger] parts[j] == seq![evs[j]],
    ensures
        flat(parts, n) =~= evs.subrange(0, n as int),
    decreases n,
{
    if n > 0 {
        lemma_flat_single(parts, evs, (n - 1) as nat);
        assert(parts[n - 1] == seq![evs[n - 1]]);
    }
}

/// The share of an event is what the event holds, or what no event holds.
pub open spec fn slot_known(
    c: ChainView,
    plan: Seq<BankPlan<'_>>,
    idx: u64,
    chunk: RecordChunk,
) -> bool {
    slot_filled(c, plan, idx, chunk) || plan_read(seq![no_event()], plan, Ok(chunk))
}

impl<S: ReadAt> Chain<S> {
    /// The share of every event of the caller's list, in its order.
    fn entry_chunks(&self, plan: &Vec<BankPlan<'_>>, entries: &[u64]) -> (r: Result<
        Vec<RecordChunk>,
    >)
        requires
            forall|b: int| 0 <= b < plan.len() ==> plan_wf(#[trigger] plan@[b]),
        ensures
            r matches Ok(c) ==> forall|q: int|
                0 <= q < c.len() ==> (#[trigger] c@[q]).aligned(plan@),
            self@.intact() || r is Ok ==> match r {
                Ok(c) => c.len() == entries.len() && forall|q: int|
                    0 <= q < c.len() ==> slot_filled(
                        self@,
                        plan@,
                        entries@[q],
                        #[trigger] c@[q],
                    ),
                Err(e) => {
                    ||| exists|k: int|
                        0 <= k < entries.len() && self@.entry_unread(
                            (#[trigger] entries@[k]) as int,
                            e,
                        )
                    ||| exists|k: int, i: int|
                        0 <= k < entries.len() && #[trigger] plan_fails_at(
                            seq![self@.entry(entries@[k] as int)],
                            plan@,
                            i,
                            0,
                            e,
                        )
                },
            },
    {
        let groups = self.group_entries(entries);
        let _ = self.event_offsets();
        let mut chunks: Vec<RecordChunk> = Vec::new();
        let mut k: usize = 0;
        while k < entries.len()
            invariant
                k <= entries.len(),
                chunks.len() == k,
                forall|q: int|
                    0 <= q < k ==> (#[trigger] chunks@[q]).aligned(plan@) && plan_read(
                        seq![no_event()],
                        plan@,
                        Ok(chunks@[q]),
                    ),
            decreases entries.len() - k,
        {
            chunks.push(absent_chunk(plan));
            k = k + 1;
        }
        let mut g: usize = 0;
        while g < groups.len()
            invariant
                g <= groups.len(),
                chunks.len() == entries.len(),
                groups_ok(self@, entries@, groups@),
                forall|b: int| 0 <= b < plan.len() ==> plan_wf(#[trigger] plan@[b]),
                forall|i: int|
                    0 <= i < self@.files.len() ==> numbered((#[trigger] self@.files[i]).info.spans),
                forall|q: int| 0 <= q < chunks.len() ==> (#[trigger] chunks@[q]).aligned(plan@),
                forall|q: int|
                    0 <= q < chunks.len() ==> slot_known(
                        self@,
                        plan@,
                        entries@[q],
                        #[trigger] chunks@[q],
                    ),
                forall|q: int|
                    0 <= q < chunks.len() && listed_before(groups@, q, g as int) ==> slot_filled(
                        self@,
                        plan@,
                        entries@[q],
                        #[trigger] chunks@[q],
                    ),
            decreases groups.len() - g,
        {
            let group = &groups[g];
            let ghost before = chunks@;
            if group.wanted.len() > 0 {
                assert forall|p: int| 0 <= p < group.wanted.len() implies #[trigger] group_ok(
                    self@,
                    entries@,
                    *group,
                    p,
                ) by {
                    assert(group_ok(self@, entries@, groups@[g as int], p));
                }
                match self.fill_group(plan, entries, group, &mut chunks) {
                    Ok(_) => {},
                    Err(e) => {
                        return Err(e);
                    },
                }
            }
            proof {
                assert forall|q: int|
                    0 <= q < chunks.len() && listed_before(groups@, q, g + 1) implies
                    slot_filled(self@, plan@, entries@[q], #[trigger] chunks@[q]) by {
                    if listed_before(groups@, q, g as int) {
                        assert(slot_filled(self@, plan@, entries@[q], before[q]));
                    } else {
                        let (a, p) = choose|a: int, p: int|
                            #[trigger] listed_at(groups@, q, a, p) && a < g + 1;
                        assert(a == g);
                        assert(group.wanted@[p].0 == q);
                    }
                }
                assert forall|q: int| 0 <= q < chunks.len() implies slot_known(
                    self@,
                    plan@,
                    entries@[q],
                    #[trigger] chunks@[q],
                ) by {
                    assert(slot_known(self@, plan@, entries@[q], before[q]));
                }
            }
            g = g + 1;
        }
        proof {
            assert forall|q: int| 0 <= q < chunks.len() implies slot_filled(
                self@,
                plan@,
                entries@[q],
                #[trigger] chunks@[q],
            ) by {
                if entries@[q] < self@.total() {
                    assert(listed(groups@, q));
                    let (a, p) = choose|a: int, p: int| #[trigger] listed_at(groups@, q, a, p);
                    assert(listed_at(groups@, q, a, p) && a < g);
                    assert(listed_before(groups@, q, g as int));
                } else {
                    assert(slot_known(self@, plan@, entries@[q], chunks@[q]));
                    assert(self@.entry(entries@[q] as int) == no_event());
                }
            }
        }
        Ok(chunks)
    }

    /// [`Self::read_columns`] for single events, named by their numbers: element `k` of every
    /// bank's rows is that of `entries[k]`. Numbers may come in any order and more than once. One
    /// that the chain does not have contributes no rows. The filter does not apply. Every record
    /// is read once, whatever the order.
    pub fn read_columns_at(&self, selection: &[(&str, &[&str])], entries: &[u64]) -> (r: Result<
        Vec<ColumnBuffers>,
    >)
        ensures
            self@.intact() || r is Ok || !all_resolvable(self@.dict, selection@)
                ==> self@.entries_end(entries@, selection@, r),
            r matches Ok(bufs) ==> forall|i: int|
                0 <= i < bufs.len() ==> (#[trigger] bufs@[i]).aligned(),
    {
        let plan = match build_plan(self.schemas(), selection) {
            Ok(plan) => plan,
            Err(e) => {
                return Err(e);
            },
        };
        if plan.len() == 0 {
            return Ok(Vec::new());
        }
        let chunks = match self.entry_chunks(&plan, entries) {
            Ok(chunks) => chunks,
            Err(e) => {
                proof {
                    if self@.intact() && !(exists|k: int|
                        0 <= k < entries.len() && self@.entry_unread(
                            (#[trigger] entries@[k]) as int,
                            e,
                        )) {
                        let (k, i) = choose|k: int, i: int|
                            0 <= k < entries.len() && #[trigger] plan_fails_at(
                                seq![self@.entry(entries@[k] as int)],
                                plan@,
                                i,
                                0,
                                e,
                            );
                        let one = seq![self@.entry(entries@[k] as int)];
                        lemma_plan_fails(self@.dict, selection@, plan@, one, i, 0, e);
                        assert(bank_fails(
                            self@.dict,
                            selection@,
                            seq![self@.entry(entries@[k] as int)],
                            i,
                            e,
                        ));
                    }
                }
                return Err(e);
            },
        };
        let r = merge_chunks(&plan, &chunks);
        proof {
            if self@.intact() || r is Ok {
                let evs = self@.entries(entries@);
                let parts = Seq::new(evs.len(), |q: int| seq![evs[q]]);
                lemma_flat_single(parts, evs, evs.len());
                assert(flat(parts, parts.len()) =~= evs);
                assert forall|q: int| 0 <= q < chunks.len() implies plan_read(
                    parts[q],
                    plan@,
                    Ok(#[trigger] chunks@[q]),
                ) by {
                    assert(slot_filled(self@, plan@, entries@[q], chunks@[q]));
                    assert(evs[q] == self@.entry(entries@[q] as int));
                }
                if r is Ok {
                    lemma_merged_buffers(
                        self@.dict,
                        selection@,
                        plan@,
                        parts,
                        chunks@,
                        r->Ok_0@,
                    );
                    assert forall|k: int| 0 <= k < entries.len() implies self@.entry_stored(
                        (#[trigger] entries@[k]) as int,
                    ) by {
                        assert(slot_filled(self@, plan@, entries@[k], chunks@[k]));
                    }
                } else {
                    let i = choose|i: int|
                        0 <= i < plan.len() && #[trigger] too_many_rows(chunks@, i);
                    lemma_overflows(self@.dict, selection@, plan@, parts, chunks@, i);
                    assert(overflows(self@.dict, selection@, evs, i));
                }
            }
        }
        r
    }
}

/// One of the first `n` groups has number `k` of the caller's list.
pub open spec fn listed_before(groups: Seq<EntryGroup>, k: int, n: int) -> bool {
    exists|g: int, p: int| #[trigger] listed_at(groups, k, g, p) && g < n
}

} // verus!
