//! Merging the shares of records: the values of every event in one run, and the rows of each.

use vstd::prelude::*;
use crate::error::{HipoError, Result};
#[allow(unused_imports)]
use crate::event::view::EventView;
use crate::read::cells::BankChunk;
#[allow(unused_imports)]
use crate::read::cells::{all_cells, column_bytes, lemma_joined_events, row_counts};
use crate::read::column_data::{ColumnBuffers, ColumnData, MaterializedColumn};
use crate::read::plan::BankPlan;
#[allow(unused_imports)]
use crate::read::plan::plan_wf;
#[allow(unused_imports)]
use crate::schema::types::SchemaView;
use crate::wire::bytes::push_bytes;
#[allow(unused_imports)]
use crate::wire::tables::{lemma_prefix_sum_monotone, lemma_prefix_sum_same, prefix_sum, total};

verus! {

/// A record's share of every bank of a plan.
#[derive(Debug)]
pub struct RecordChunk {
    pub banks: Vec<BankChunk>,
}

impl RecordChunk {
    /// The chunk holds what the plan asks for of the given events.
    pub open spec fn holds(self, evs: Seq<EventView>, plan: Seq<BankPlan<'_>>) -> bool {
        &&& self.banks.len() == plan.len()
        &&& forall|i: int|
            0 <= i < plan.len() ==> (#[trigger] self.banks@[i]).holds(
                all_cells(evs, plan[i].schema@),
                plan[i].schema@,
                plan[i].cols@,
            )
    }

    /// Every column of every bank has as many bytes as the bank's rows take up.
    pub open spec fn aligned(self, plan: Seq<BankPlan<'_>>) -> bool {
        &&& self.banks.len() == plan.len()
        &&& forall|i: int|
            0 <= i < plan.len() ==> (#[trigger] self.banks@[i]).aligned(
                plan[i].schema@,
                plan[i].cols@,
            )
    }
}

/// Where the rows of each event start, and where the last ones end.
pub open spec fn offsets_of(counts: Seq<u32>) -> Seq<i64> {
    Seq::new(counts.len() + 1, |k: int| prefix_sum(counts, k as nat) as i64)
}

impl ColumnBuffers {
    /// The buffers hold the columns `cols` of the bank that `s` describes, for the given events.
    pub open spec fn holds(self, s: SchemaView, cols: Seq<usize>, evs: Seq<EventView>) -> bool {
        &&& total(row_counts(all_cells(evs, s), s)) <= i64::MAX
        &&& self.offsets@ == offsets_of(row_counts(all_cells(evs, s), s))
        &&& self.columns.len() == cols.len()
        &&& forall|k: int|
            0 <= k < cols.len() ==> (#[trigger] self.columns@[k]).holds(
                s.entries[cols[k] as int],
                column_bytes(all_cells(evs, s), s, cols[k] as int, evs.len()),
            )
    }

    /// Offsets start at zero and never decrease, and every column has its values for each row.
    pub open spec fn aligned(self) -> bool {
        &&& self.offsets.len() > 0
        &&& self.offsets@[0] == 0
        &&& forall|i: int, j: int|
            0 <= i <= j < self.offsets.len() ==> (#[trigger] self.offsets@[i]) <= (
            #[trigger] self.offsets@[j])
        &&& forall|k: int|
            0 <= k < self.columns.len() ==> (#[trigger] self.columns@[k]).data.spec_len()
                == self.offsets@.last() * self.columns@[k].inner_len
    }
}

/// The rows of bank `b` in the first `n` chunks.
pub open spec fn merged_counts(chunks: Seq<RecordChunk>, b: int, n: nat) -> Seq<u32>
    decreases n,
{
    if n == 0 {
        Seq::empty()
    } else {
        merged_counts(chunks, b, (n - 1) as nat) + chunks[n - 1].banks@[b].row_counts@
    }
}

/// The bytes of column `k` of bank `b` in the first `n` chunks.
pub open spec fn merged_bytes(chunks: Seq<RecordChunk>, b: int, k: int, n: nat) -> Seq<u8>
    decreases n,
{
    if n == 0 {
        Seq::empty()
    } else {
        merged_bytes(chunks, b, k, (n - 1) as nat) + chunks[n - 1].banks@[b].columns@[k]@
    }
}

/// One more event.
proof fn lemma_offsets_push(counts: Seq<u32>, x: u32)
    ensures
        total(counts.push(x)) == total(counts) + x,
        offsets_of(counts.push(x)) =~= offsets_of(counts).push(total(counts.push(x)) as i64),
{
    let more = counts.push(x);
    assert forall|k: nat| k <= counts.len() implies #[trigger] prefix_sum(more, k) == prefix_sum(
        counts,
        k,
    ) by {
        lemma_prefix_sum_same(more, counts, k);
    }
    assert(prefix_sum(more, more.len()) == prefix_sum(more, counts.len()) + x);
}

/// Numbers of two runs, added up.
proof fn lemma_total_joined(a: Seq<u32>, b: Seq<u32>, n: nat)
    requires
        n <= b.len(),
    ensures
        prefix_sum(a + b, a.len() + n) == total(a) + prefix_sum(b, n),
    decreases n,
{
    if n == 0 {
        lemma_prefix_sum_same(a + b, a, a.len());
    } else {
        lemma_total_joined(a, b, (n - 1) as nat);
        assert((a + b)[a.len() + n - 1] == b[n - 1]);
    }
}

/// What the buffers of a bank hold, merged from chunks.
pub open spec fn bank_merged(
    b: ColumnBuffers,
    p: BankPlan<'_>,
    chunks: Seq<RecordChunk>,
    i: int,
) -> bool {
    let n = chunks.len();
    &&& b.bank@ == p.name@
    &&& b.offsets@ == offsets_of(merged_counts(chunks, i, n))
    &&& b.columns.len() == p.cols.len()
    &&& forall|k: int|
        0 <= k < p.cols.len() ==> (#[trigger] b.columns@[k]).holds(
            p.schema@.entries[p.cols@[k] as int],
            merged_bytes(chunks, i, k, n),
        )
}

/// The rows of bank `i` in all chunks do not fit 63 bits.
pub open spec fn too_many_rows(chunks: Seq<RecordChunk>, i: int) -> bool {
    total(merged_counts(chunks, i, chunks.len())) > i64::MAX
}

/// The buffers of bank `i` are merged, and sound.
pub open spec fn bank_done(
    b: ColumnBuffers,
    p: BankPlan<'_>,
    chunks: Seq<RecordChunk>,
    i: int,
) -> bool {
    &&& !too_many_rows(chunks, i)
    &&& bank_merged(b, p, chunks, i)
    &&& b.aligned()
}

/// The offsets of bank `i`, from the rows of every chunk.
pub(crate) fn merge_offsets(chunks: &Vec<RecordChunk>, i: usize) -> (r: Option<Vec<i64>>)
    requires
        forall|j: int| 0 <= j < chunks.len() ==> i < (#[trigger] chunks@[j]).banks.len(),
    ensures
        match r {
            Some(o) => !too_many_rows(chunks@, i as int) && o@ == offsets_of(
                merged_counts(chunks@, i as int, chunks@.len()),
            ),
            None => too_many_rows(chunks@, i as int),
        },
{
    let mut offsets: Vec<i64> = Vec::new();
    let mut running: i64 = 0;
    offsets.push(0);
    let ghost mut counts: Seq<u32> = Seq::empty();
    assert(offsets@ =~= offsets_of(counts));
    let mut j: usize = 0;
    while j < chunks.len()
        invariant
            j <= chunks.len(),
            forall|j: int| 0 <= j < chunks.len() ==> i < (#[trigger] chunks@[j]).banks.len(),
            counts == merged_counts(chunks@, i as int, j as nat),
            offsets@ == offsets_of(counts),
            running == total(counts),
        decreases chunks.len() - j,
    {
        let rows = &chunks[j].banks[i].row_counts;
        let ghost start = counts;
        let mut m: usize = 0;
        assert(start + rows@.subrange(0, 0) =~= start);
        while m < rows.len()
            invariant
                m <= rows.len(),
                j < chunks.len(),
                rows@ == chunks@[j as int].banks@[i as int].row_counts@,
                start == merged_counts(chunks@, i as int, j as nat),
                counts == start + rows@.subrange(0, m as int),
                offsets@ == offsets_of(counts),
                running == total(counts),
            decreases rows.len() - m,
        {
            let x: u32 = rows[m];
            proof {
                lemma_offsets_push(counts, x);
                assert(counts.push(x) =~= start + rows@.subrange(0, m + 1));
            }
            if x as i64 > i64::MAX - running {
                proof {
                    let c = start + rows@.subrange(0, m + 1);
                    lemma_total_joined(start, rows@, (m + 1) as nat);
                    lemma_total_joined(start, rows@.subrange(0, m + 1), (m + 1) as nat);
                    lemma_prefix_sum_same(rows@, rows@.subrange(0, m + 1), (m + 1) as nat);
                    lemma_total_joined(start, rows@, rows@.len());
                    lemma_prefix_sum_monotone(rows@, (m + 1) as nat, rows@.len());
                    assert(merged_counts(chunks@, i as int, (j + 1) as nat) == start + rows@);
                    lemma_merged_monotone(chunks@, i as int, (j + 1) as nat, chunks@.len());
                }
                return None;
            }
            running = running + x as i64;
            offsets.push(running);
            proof {
                counts = counts.push(x);
            }
            m = m + 1;
        }
        proof {
            assert(rows@.subrange(0, rows@.len() as int) =~= rows@);
        }
        j = j + 1;
    }
    Some(offsets)
}

/// More chunks have no fewer rows.
proof fn lemma_merged_monotone(chunks: Seq<RecordChunk>, b: int, m: nat, n: nat)
    requires
        m <= n,
    ensures
        total(merged_counts(chunks, b, m)) <= total(merged_counts(chunks, b, n)),
    decreases n,
{
    if m < n {
        lemma_merged_monotone(chunks, b, m, (n - 1) as nat);
        let x = chunks[n - 1].banks@[b].row_counts@;
        lemma_total_joined(merged_counts(chunks, b, (n - 1) as nat), x, x.len());
    }
}

/// Column bytes go with the rows, chunk after chunk.
pub(crate) proof fn lemma_merged_aligned(
    plan: Seq<BankPlan<'_>>,
    chunks: Seq<RecordChunk>,
    b: int,
    k: int,
    n: nat,
)
    requires
        0 <= b < plan.len(),
        0 <= k < plan[b].cols.len(),
        n <= chunks.len(),
        forall|j: int| 0 <= j < chunks.len() ==> (#[trigger] chunks[j]).aligned(plan),
    ensures
        merged_bytes(chunks, b, k, n).len() == total(merged_counts(chunks, b, n))
            * plan[b].schema@.entries[plan[b].cols@[k] as int].width(),
    decreases n,
{
    let w = plan[b].schema@.entries[plan[b].cols@[k] as int].width();
    if n == 0 {
        assert(0 * w == 0) by (nonlinear_arith);
    } else {
        let m = (n - 1) as nat;
        lemma_merged_aligned(plan, chunks, b, k, m);
        assert(chunks[m as int].aligned(plan));
        let c = chunks[m as int].banks@[b];
        assert(c.aligned(plan[b].schema@, plan[b].cols@));
        assert(c.columns@[k].len() == total(c.row_counts@) * w);
        lemma_total_joined(merged_counts(chunks, b, m), c.row_counts@, c.row_counts@.len());
        let (x, y) = (total(merged_counts(chunks, b, m)), total(c.row_counts@));
        assert((x + y) * w == x * w + y * w) by (nonlinear_arith);
    }
}

/// The bytes of column `k` of bank `i`, from every chunk.
pub(crate) fn merge_bytes(
    plan: &Vec<BankPlan<'_>>,
    chunks: &Vec<RecordChunk>,
    i: usize,
    k: usize,
) -> (r: Vec<u8>)
    requires
        i < plan.len(),
        k < plan@[i as int].cols.len(),
        forall|j: int| 0 <= j < chunks.len() ==> (#[trigger] chunks@[j]).aligned(plan@),
    ensures
        r@ == merged_bytes(chunks@, i as int, k as int, chunks@.len()),
{
    let mut bytes: Vec<u8> = Vec::new();
    let mut j: usize = 0;
    assert(bytes@ =~= merged_bytes(chunks@, i as int, k as int, 0));
    while j < chunks.len()
        invariant
            j <= chunks.len(),
            i < plan.len(),
            k < plan@[i as int].cols.len(),
            forall|j: int| 0 <= j < chunks.len() ==> (#[trigger] chunks@[j]).aligned(plan@),
            bytes@ == merged_bytes(chunks@, i as int, k as int, j as nat),
        decreases chunks.len() - j,
    {
        proof {
            let p = plan@[i as int];
            assert(chunks@[j as int].aligned(plan@));
            assert(chunks@[j as int].banks@[i as int].aligned(p.schema@, p.cols@));
        }
        push_bytes(&mut bytes, chunks[j].banks[i].columns[k].as_slice());
        j = j + 1;
    }
    bytes
}

/// Merge the shares of bank `i`.
fn merge_bank(plan: &Vec<BankPlan<'_>>, chunks: &Vec<RecordChunk>, i: usize) -> (r: Result<
    ColumnBuffers,
>)
    requires
        i < plan.len(),
        plan_wf(plan@[i as int]),
        forall|j: int| 0 <= j < chunks.len() ==> (#[trigger] chunks@[j]).aligned(plan@),
    ensures
        match r {
            Ok(b) => bank_done(b, plan@[i as int], chunks@, i as int),
            Err(e) => too_many_rows(chunks@, i as int) && e == HipoError::Internal(
                "row offsets exceed 63 bits",
            ),
        },
{
    let p = &plan[i];
    proof {
        assert forall|j: int| 0 <= j < chunks.len() implies i < (
        #[trigger] chunks@[j]).banks.len() by {
            assert(chunks@[j].aligned(plan@));
        }
    }
    let offsets = match merge_offsets(chunks, i) {
        Some(o) => o,
        None => {
            return Err(HipoError::Internal("row offsets exceed 63 bits"));
        },
    };
    let ghost counts = merged_counts(chunks@, i as int, chunks@.len());
    let mut columns: Vec<MaterializedColumn> = Vec::new();
    let mut k: usize = 0;
    while k < p.cols.len()
        invariant
            k <= p.cols.len(),
            columns.len() == k,
            i < plan.len(),
            *p == plan@[i as int],
            plan_wf(*p),
            counts == merged_counts(chunks@, i as int, chunks@.len()),
            forall|j: int| 0 <= j < chunks.len() ==> (#[trigger] chunks@[j]).aligned(plan@),
            forall|q: int|
                0 <= q < k ==> {
                    &&& (#[trigger] columns@[q]).holds(
                        p.schema@.entries[p.cols@[q] as int],
                        merged_bytes(chunks@, i as int, q, chunks@.len()),
                    )
                    &&& columns@[q].data.spec_len() == total(counts) * columns@[q].inner_len
                },
        decreases p.cols.len() - k,
    {
        let bytes = merge_bytes(plan, chunks, i, k);
        let c: usize = p.cols[k];
        assert(p.schema@.entries[c as int] == p.schema@.entries[p.cols@[k as int] as int]);
        let entry = &p.schema.entries()[c];
        let data = ColumnData::decode(entry.ty, bytes.as_slice());
        proof {
            lemma_merged_aligned(plan@, chunks@, i as int, k as int, chunks@.len());
            let (t, size, len) = (total(counts), entry.ty.spec_size(), entry.length as nat);
            assert((t * (size * len)) as int / size as int == t * len) by (nonlinear_arith)
                requires
                    size > 0,
            ;
        }
        columns.push(
            MaterializedColumn {
                name: entry.name.clone(),
                data_type: entry.ty,
                inner_len: entry.length,
                data,
            },
        );
        k = k + 1;
    }
    let r = ColumnBuffers { bank: p.name.clone(), offsets, columns };
    proof {
        assert(r.offsets@.last() == total(counts) as i64);
        assert forall|a: int, b: int| 0 <= a <= b < r.offsets.len() implies (
        #[trigger] r.offsets@[a]) <= (#[trigger] r.offsets@[b]) by {
            lemma_prefix_sum_monotone(counts, a as nat, b as nat);
            lemma_prefix_sum_monotone(counts, b as nat, counts.len());
        }
    }
    Ok(r)
}

/// Merge the shares of all records, in order: one run of values per column, and the rows of
/// every event as offsets.
pub fn merge_chunks(plan: &Vec<BankPlan<'_>>, chunks: &Vec<RecordChunk>) -> (r: Result<
    Vec<ColumnBuffers>,
>)
    requires
        forall|i: int| 0 <= i < plan.len() ==> plan_wf(#[trigger] plan@[i]),
        forall|j: int| 0 <= j < chunks.len() ==> (#[trigger] chunks@[j]).aligned(plan@),
    ensures
        match r {
            Ok(bufs) => bufs.len() == plan.len() && forall|i: int|
                0 <= i < bufs.len() ==> bank_done(#[trigger] bufs@[i], plan@[i], chunks@, i),
            Err(e) => e == HipoError::Internal("row offsets exceed 63 bits") && exists|i: int|
                0 <= i < plan.len() && #[trigger] too_many_rows(chunks@, i),
        },
{
    let mut out: Vec<ColumnBuffers> = Vec::new();
    let mut i: usize = 0;
    while i < plan.len()
        invariant
            i <= plan.len(),
            out.len() == i,
            forall|i: int| 0 <= i < plan.len() ==> plan_wf(#[trigger] plan@[i]),
            forall|j: int| 0 <= j < chunks.len() ==> (#[trigger] chunks@[j]).aligned(plan@),
            forall|q: int| 0 <= q < i ==> bank_done(#[trigger] out@[q], plan@[q], chunks@, q),
        decreases plan.len() - i,
    {
        match merge_bank(plan, chunks, i) {
            Ok(b) => {
                out.push(b);
            },
            Err(e) => {
                return Err(e);
            },
        }
        i = i + 1;
    }
    Ok(out)
}

/// Runs of events, one after the other.
pub open spec fn flat(parts: Seq<Seq<EventView>>, n: nat) -> Seq<EventView>
    decreases n,
{
    if n == 0 {
        Seq::empty()
    } else {
        flat(parts, (n - 1) as nat) + parts[n - 1]
    }
}

/// Merged, the chunks of runs of events hold what all events hold.
pub proof fn law_merge_is_in_order(
    parts: Seq<Seq<EventView>>,
    plan: Seq<BankPlan<'_>>,
    chunks: Seq<RecordChunk>,
    b: int,
    k: int,
    n: nat,
)
    requires
        0 <= b < plan.len(),
        n <= chunks.len(),
        n <= parts.len(),
        forall|j: int| 0 <= j < n ==> (#[trigger] chunks[j]).holds(parts[j], plan),
    ensures
        ({
            let s = plan[b].schema@;
            let evs = flat(parts, n);
            &&& merged_counts(chunks, b, n) == row_counts(all_cells(evs, s), s)
            &&& 0 <= k < plan[b].cols.len() ==> merged_bytes(chunks, b, k, n) == column_bytes(
                all_cells(evs, s),
                s,
                plan[b].cols@[k] as int,
                evs.len(),
            )
        }),
    decreases n,
{
    let s = plan[b].schema@;
    if n == 0 {
        assert(merged_counts(chunks, b, n) =~= row_counts(all_cells(flat(parts, n), s), s));
    } else {
        let m = (n - 1) as nat;
        law_merge_is_in_order(parts, plan, chunks, b, k, m);
        let (x, y) = (flat(parts, m), parts[m as int]);
        assert(all_cells(x + y, s) =~= all_cells(x, s) + all_cells(y, s));
        assert(row_counts(all_cells(x + y, s), s) =~= row_counts(all_cells(x, s), s) + row_counts(
            all_cells(y, s),
            s,
        ));
        assert(chunks[m as int].holds(y, plan));
        let c = chunks[m as int].banks@[b];
        assert(c.holds(all_cells(y, s), s, plan[b].cols@));
        if 0 <= k < plan[b].cols.len() {
            lemma_joined_events(
                all_cells(x, s),
                all_cells(y, s),
                s,
                plan[b].cols@[k] as int,
                y.len(),
            );
            assert(c.columns@[k]@ == column_bytes(
                all_cells(y, s),
                s,
                plan[b].cols@[k] as int,
                y.len(),
            ));
        }
    }
}

} // verus!
