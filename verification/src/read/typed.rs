//! Reading one column as cells of a type.

use core::ops::Range;

use vstd::prelude::*;
use crate::error::{HipoError, Result};
use crate::event::bank::read_elements;
#[allow(unused_imports)]
use crate::event::bank::elements;
#[allow(unused_imports)]
use crate::read::cells::{all_cells, all_readable, column_bytes, row_counts};
use crate::read::chain::Chain;
#[allow(unused_imports)]
use crate::read::chain::ChainView;
#[allow(unused_imports)]
use crate::read::columns::{
    columns_fault_of, lemma_flat_readable, lemma_overflows, overflows, plan_read, range_pair,
};
use crate::read::merge::{merge_bytes, merge_offsets};
#[allow(unused_imports)]
use crate::read::merge::{law_merge_is_in_order, lemma_merged_aligned, merged_counts, offsets_of};
use crate::read::plan::build_plan;
#[allow(unused_imports)]
use crate::read::plan::{has_cells, plan_resolved, plan_wf};
use crate::read::source::ReadAt;
use crate::schema::handle::{BankColumnType, BankScalarType};
#[allow(unused_imports)]
use crate::schema::handle::{fits, resolved, scalar_type};
#[allow(unused_imports)]
use crate::schema::types::SchemaView;
#[allow(unused_imports)]
use crate::wire::tables::total;

verus! {

/// Bytes of a cell of `T`.
pub open spec fn cell_width<T: BankColumnType>() -> nat {
    scalar_type::<T>().spec_size() * T::spec_length()
}

/// `vals` are the cells that `bytes` encode.
pub open spec fn is_cells<T: BankColumnType>(vals: Seq<T>, bytes: Seq<u8>) -> bool {
    &&& bytes.len() == vals.len() * cell_width::<T>()
    &&& forall|i: int|
        0 <= i < vals.len() ==> (#[trigger] vals[i]).elems() == elements::<T::Scalar>(
            bytes.subrange(
                i * cell_width::<T>(),
                i * cell_width::<T>() + cell_width::<T>(),
            ),
            T::spec_length(),
        )
}

/// Cells of `T`, one after the other.
pub(crate) fn read_cells<T: BankColumnType>(bytes: &[u8], n: usize) -> (r: Vec<T>)
    requires
        bytes.len() == n * cell_width::<T>(),
        T::spec_length() <= u32::MAX,
    ensures
        is_cells::<T>(r@, bytes@),
{
    let len: usize = T::length();
    let size: usize = <T::Scalar as BankScalarType>::data_type().size();
    let ghost w = cell_width::<T>();
    let mut out: Vec<T> = Vec::new();
    let mut at: usize = 0;
    let mut i: usize = 0;
    assert(0 * w == 0) by (nonlinear_arith);
    while i < n
        invariant
            i <= n,
            out.len() == i,
            len == T::spec_length(),
            size == scalar_type::<T>().spec_size(),
            w == cell_width::<T>(),
            bytes.len() == n * w,
            at == i * w,
            forall|k: int|
                0 <= k < i ==> (#[trigger] out@[k]).elems() == elements::<T::Scalar>(
                    bytes@.subrange(k * w, k * w + w),
                    T::spec_length(),
                ),
        decreases n - i,
    {
        proof {
            assert(i * w + w <= n * w && i * w + w == (i + 1) * w) by (nonlinear_arith)
                requires
                    i + 1 <= n,
                    w >= 0,
            ;
            assert(len * size == w && size * len == w) by (nonlinear_arith)
                requires
                    w == size * len,
            ;
        }
        let elems = read_elements::<T::Scalar>(bytes, at, len);
        out.push(T::from_elems(elems.as_slice()));
        at = at + size * len;
        i = i + 1;
    }
    out
}

impl ChainView {
    /// What a typed column read holds: the rows of each event, and the cells of the column.
    pub open spec fn typed_read<T: BankColumnType>(
        self,
        range: Option<(u64, u64)>,
        s: SchemaView,
        col: int,
        offsets: Seq<i64>,
        vals: Seq<T>,
    ) -> bool {
        let evs = self.kept(range);
        let ts = self.tasks(self.files.len());
        &&& fits::<T>(s, col)
        &&& self.parts_stored(range, ts, ts.len())
        &&& all_readable(evs, s, seq![col as usize])
        &&& offsets == offsets_of(row_counts(all_cells(evs, s), s))
        &&& is_cells::<T>(vals, column_bytes(all_cells(evs, s), s, col, evs.len()))
    }

    /// `vals` are the cells of the column `column` of the bank `bank`.
    pub open spec fn values_read<T: BankColumnType>(
        self,
        range: Option<(u64, u64)>,
        bank: &str,
        column: &str,
        vals: Seq<T>,
    ) -> bool {
        match self.dict.named(bank@) {
            None => false,
            Some(s) => exists|col: int| #[trigger]
                s.is_column(column@, col) && self.typed_read::<T>(
                    range,
                    s,
                    col,
                    offsets_of(row_counts(all_cells(self.kept(range), s), s)),
                    vals,
                ),
        }
    }

    /// How a typed column read ends. The bank, the column and its type are checked before
    /// anything is read.
    pub open spec fn typed_end<T: BankColumnType>(
        self,
        range: Option<(u64, u64)>,
        bank: &str,
        column: &str,
        r: Result<(Vec<i64>, Vec<T>)>,
    ) -> bool {
        match self.dict.named(bank@) {
            None => r matches Err(HipoError::UnknownSchema { name }) && name@ == bank@,
            Some(s) => match r {
                Ok((offsets, vals)) => exists|col: int| #[trigger]
                    s.is_column(column@, col) && self.typed_read::<T>(
                        range,
                        s,
                        col,
                        offsets@,
                        vals@,
                    ),
                Err(e) => {
                    ||| resolved::<T>(s, column@, Err(e))
                    ||| columns_fault_of(self, range, bank, column, e)
                },
            },
        }
    }
}

impl<S: ReadAt> Chain<S> {
    /// One column as cells of `T`, scalars or arrays, over all events that lie in the range and
    /// pass the filter: where the rows of each event start, and the cells.
    pub fn read_column_typed<T: BankColumnType>(
        &self,
        bank: &str,
        column: &str,
        range: Option<Range<u64>>,
    ) -> (r: Result<(Vec<i64>, Vec<T>)>)
        ensures
            self@.told(r is Ok) || !has_cells::<T>(self@.dict, bank@, column@)
                ==> self@.typed_end::<T>(range_pair(range), bank, column, r),
    {
        match range {
            Some(r) => self.typed_in(bank, column, Some((r.start, r.end))),
            None => self.typed_in(bank, column, None),
        }
    }

    /// The cells of one column over the chain, without the rows of each event.
    pub fn column_values<T: BankColumnType>(
        &self,
        bank: &str,
        column: &str,
        range: Option<Range<u64>>,
    ) -> (r: Result<Vec<T>>)
        ensures
            self@.told(r is Ok) || !has_cells::<T>(self@.dict, bank@, column@) ==> match r {
                Ok(vals) => self@.values_read::<T>(range_pair(range), bank, column, vals@),
                Err(e) => self@.typed_end::<T>(range_pair(range), bank, column, Err(e)),
            },
    {
        match self.read_column_typed(bank, column, range) {
            Ok((_, vals)) => Ok(vals),
            Err(e) => Err(e),
        }
    }

    /// [`Self::read_column_typed`] for a range as a pair of numbers.
    fn typed_in<T: BankColumnType>(
        &self,
        bank: &str,
        column: &str,
        range: Option<(u64, u64)>,
    ) -> (r: Result<(Vec<i64>, Vec<T>)>)
        ensures
            self@.told(r is Ok) || !has_cells::<T>(self@.dict, bank@, column@)
                ==> self@.typed_end::<T>(range, bank, column, r),
    {
        let schema = match self.schemas().require(bank) {
            Ok(schema) => schema,
            Err(e) => {
                return Err(e);
            },
        };
        let handle = match schema.handle::<T>(column) {
            Ok(handle) => handle,
            Err(e) => {
                return Err(e);
            },
        };
        let ghost s = schema@;
        let ghost col = handle@;
        assert(s.entries[col].name == column@);
        let names: [&str; 1] = [column];
        let selection: [(&str, &[&str]); 1] = [(bank, names.as_slice())];
        let ghost sel = selection@;
        assert(sel[0].1@ =~= seq![column]);
        let plan = match build_plan(self.schemas(), selection.as_slice()) {
            Ok(plan) => plan,
            Err(e) => {
                return Err(e);
            },
        };
        assert(plan_resolved(plan@[0], self@.dict, sel[0].0, sel[0].1@));
        assert(plan@[0].cols.len() == 1 && s.is_column(column@, plan@[0].cols@[0] as int));
        assert(plan@[0].cols@[0] == col);
        assert(plan_wf(plan@[0]));
        let chunks = match self.read_chunks(&plan, range) {
            Ok(chunks) => chunks,
            Err(e) => {
                proof {
                    if self@.intact() {
                        self.lemma_chunks_fault(range, sel, plan@, e);
                    }
                }
                return Err(e);
            },
        };
        let ghost ts = self@.tasks(self@.files.len());
        let ghost parts = self@.kept_parts(range, ts);
        proof {
            assert forall|j: int| 0 <= j < chunks.len() implies 0 < (
            #[trigger] chunks@[j]).banks.len() by {
                assert(chunks@[j].aligned(plan@));
            }
        }
        let offsets = match merge_offsets(&chunks, 0) {
            Some(offsets) => offsets,
            None => {
                proof {
                    if self@.intact() {
                        lemma_overflows(self@.dict, sel, plan@, parts, chunks@, 0);
                        assert(overflows(self@.dict, sel, self@.kept(range), 0));
                        assert(self@.columns_fault(
                            range,
                            sel,
                            HipoError::Internal("row offsets exceed 63 bits"),
                        ));
                    }
                }
                return Err(HipoError::Internal("row offsets exceed 63 bits"));
            },
        };
        let bytes = merge_bytes(&plan, &chunks, 0, 0);
        let rows: i64 = offsets[offsets.len() - 1];
        proof {
            let counts = merged_counts(chunks@, 0, chunks@.len());
            lemma_merged_aligned(plan@, chunks@, 0, 0, chunks@.len());
            assert(rows == total(counts));
            let (t, w) = (total(counts), cell_width::<T>());
            assert(w == s.entries[col].width());
            use_type_invariant(schema);
            assert(s.entries[col].length >= 1);
            let (z, l) = (scalar_type::<T>().spec_size(), T::spec_length());
            assert(w >= 1) by (nonlinear_arith)
                requires
                    w == z * l,
                    z >= 1,
                    l >= 1,
            ;
            assert(t <= t * w) by (nonlinear_arith)
                requires
                    w >= 1,
                    t >= 0,
            ;
        }
        let vals = read_cells::<T>(bytes.as_slice(), rows as usize);
        proof {
            if self@.steady() {
                assert forall|j: int| 0 <= j < chunks.len() implies (#[trigger] chunks@[j]).holds(
                    parts[j],
                    plan@,
                ) by {
                    assert(plan_read(parts[j], plan@, Ok(chunks@[j])));
                }
                law_merge_is_in_order(parts, plan@, chunks@, 0, 0, chunks@.len());
                assert forall|j: int| 0 <= j < parts.len() implies all_readable(
                    #[trigger] parts[j],
                    s,
                    plan@[0].cols@,
                ) by {
                    assert(plan_read(parts[j], plan@, Ok(chunks@[j])));
                    assert(plan@[0].schema@ == s);
                }
                lemma_flat_readable(parts, s, plan@[0].cols@, parts.len());
                assert(plan@[0].cols@ =~= seq![col as usize]);
                assert(self@.typed_read::<T>(range, s, col, offsets@, vals@));
            }
        }
        Ok((offsets, vals))
    }
}

} // verus!
