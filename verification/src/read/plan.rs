//! Plans: which columns of which banks a read asks for, resolved before any data is touched.

use vstd::prelude::*;
use crate::error::{HipoError, Result};
use crate::schema::dict::Dict;
#[allow(unused_imports)]
use crate::schema::dict::DictView;
#[allow(unused_imports)]
use crate::schema::handle::{fits, BankColumnType};
use crate::schema::types::Schema;
#[allow(unused_imports)]
use crate::schema::types::SchemaView;
use crate::text::owned;

verus! {

/// One bank that a read asks for, and the columns of it.
#[derive(Debug)]
pub struct BankPlan<'a> {
    pub name: String,
    pub schema: &'a Schema,
    /// Numbers of the columns, in the order in which they were asked for.
    pub cols: Vec<usize>,
}

/// `cols` are the numbers of the columns `names` of `s`; of all columns, where no name is given.
pub open spec fn columns_resolved(s: SchemaView, names: Seq<&str>, cols: Seq<usize>) -> bool {
    if names.len() == 0 {
        cols == Seq::new(s.entries.len(), |i: int| i as usize)
    } else {
        &&& cols.len() == names.len()
        &&& forall|k: int| 0 <= k < cols.len() ==> s.is_column(names[k]@, (#[trigger] cols[k]) as int)
    }
}

/// `e` is the error of the first name that `s` has no column for.
pub open spec fn columns_fail_at(s: SchemaView, names: Seq<&str>, k: int, e: HipoError) -> bool {
    &&& 0 <= k < names.len()
    &&& forall|i: int| 0 <= i < k ==> s.has_column((#[trigger] names[i])@)
    &&& !s.has_column(names[k]@)
    &&& e matches HipoError::UnknownColumn { schema, column } && schema@ == s.name && column@
        == names[k]@
}

/// The plan is what the dictionary says of bank `bank` and its columns `names`.
pub open spec fn plan_resolved(p: BankPlan<'_>, d: DictView, bank: &str, names: Seq<&str>) -> bool {
    &&& p.name@ == bank@
    &&& d.named(bank@) == Some(p.schema@)
    &&& columns_resolved(p.schema@, names, p.cols@)
}

/// The bank and its columns can be resolved.
pub open spec fn resolvable(d: DictView, bank: &str, names: Seq<&str>) -> bool {
    &&& d.named(bank@) is Some
    &&& forall|k: int| 0 <= k < names.len() ==> d.named(bank@)->0.has_column((#[trigger] names[k])@)
}

/// `e` is the error that resolving the bank and its columns ends with.
pub open spec fn plan_fault(d: DictView, bank: &str, names: Seq<&str>, e: HipoError) -> bool {
    match d.named(bank@) {
        None => e matches HipoError::UnknownSchema { name } && name@ == bank@,
        Some(s) => exists|k: int| #[trigger] columns_fail_at(s, names, k, e),
    }
}

/// The plans of a whole selection.
pub open spec fn plans_resolved(
    plan: Seq<BankPlan<'_>>,
    d: DictView,
    selection: Seq<(&str, &[&str])>,
) -> bool {
    &&& plan.len() == selection.len()
    &&& forall|i: int|
        0 <= i < plan.len() ==> plan_resolved(
            #[trigger] plan[i],
            d,
            selection[i].0,
            selection[i].1@,
        )
}

/// `e` is the error of the first part of the selection that cannot be resolved.
pub open spec fn selection_fails_at(
    d: DictView,
    selection: Seq<(&str, &[&str])>,
    i: int,
    e: HipoError,
) -> bool {
    &&& 0 <= i < selection.len()
    &&& forall|j: int| 0 <= j < i ==> resolvable(d, (#[trigger] selection[j]).0, selection[j].1@)
    &&& !resolvable(d, selection[i].0, selection[i].1@)
    &&& plan_fault(d, selection[i].0, selection[i].1@, e)
}

/// Every part of the selection can be resolved.
pub open spec fn all_resolvable(d: DictView, selection: Seq<(&str, &[&str])>) -> bool {
    forall|j: int|
        0 <= j < selection.len() ==> resolvable(
            d,
            (#[trigger] selection[j]).0,
            selection[j].1@,
        )
}

/// The plan's schema is laid out, and every column that the plan names is one of it.
pub open spec fn plan_wf(p: BankPlan<'_>) -> bool {
    &&& p.schema@.laid_out()
    &&& forall|k: int|
        0 <= k < p.cols.len() ==> (#[trigger] p.cols@[k]) < p.schema@.entries.len()
}

/// Resolve one bank and its columns.
fn plan_bank<'a>(dict: &'a Dict, bank: &str, names: &[&str]) -> (r: Result<BankPlan<'a>>)
    ensures
        match r {
            Ok(p) => resolvable(dict@, bank, names@) && plan_resolved(p, dict@, bank, names@)
                && plan_wf(p),
            Err(e) => !resolvable(dict@, bank, names@) && plan_fault(dict@, bank, names@, e),
        },
{
    let schema = match dict.require(bank) {
        Ok(schema) => schema,
        Err(e) => {
            return Err(e);
        },
    };
    proof {
        use_type_invariant(schema);
    }
    let mut cols: Vec<usize> = Vec::new();
    if names.len() == 0 {
        let n: usize = schema.num_columns();
        let mut i: usize = 0;
        while i < n
            invariant
                i <= n,
                cols@ == Seq::new(i as nat, |k: int| k as usize),
            decreases n - i,
        {
            cols.push(i);
            i = i + 1;
            assert(cols@ =~= Seq::new(i as nat, |k: int| k as usize));
        }
    } else {
        let mut i: usize = 0;
        while i < names.len()
            invariant
                i <= names.len(),
                cols.len() == i,
                dict@.named(bank@) == Some(schema@),
                forall|k: int|
                    0 <= k < i ==> schema@.is_column(names@[k]@, (#[trigger] cols@[k]) as int),
            decreases names.len() - i,
        {
            match schema.require_column(names[i]) {
                Ok(c) => {
                    cols.push(c);
                },
                Err(e) => {
                    proof {
                        assert forall|k: int| 0 <= k < i implies schema@.has_column(
                            (#[trigger] names@[k])@,
                        ) by {
                            let c = cols@[k] as int;
                            assert(schema@.entries[c].name == names@[k]@);
                        }
                        assert(columns_fail_at(schema@, names@, i as int, e));
                        assert(!resolvable(dict@, bank, names@)) by {
                            assert(!schema@.has_column(names@[i as int]@));
                        }
                    }
                    return Err(e);
                },
            }
            i = i + 1;
        }
        proof {
            assert forall|k: int| 0 <= k < names.len() implies schema@.has_column(
                (#[trigger] names@[k])@,
            ) by {
                let c = cols@[k] as int;
                assert(schema@.entries[c].name == names@[k]@);
            }
        }
    }
    Ok(BankPlan { name: owned(bank), schema, cols })
}

/// The dictionary has this bank, with a column of this name and cells of `T`.
pub open spec fn has_cells<T: BankColumnType>(
    dict: DictView,
    bank: Seq<char>,
    column: Seq<char>,
) -> bool {
    dict.named(bank) matches Some(s) && exists|col: int| #[trigger]
        s.is_column(column, col) && fits::<T>(s, col)
}

/// Resolve a selection of banks and columns, so that a bad name fails before any data is
/// touched. No column names stand for all columns.
pub fn build_plan<'a>(dict: &'a Dict, selection: &[(&str, &[&str])]) -> (r: Result<
    Vec<BankPlan<'a>>,
>)
    ensures
        match r {
            Ok(p) => all_resolvable(dict@, selection@) && plans_resolved(
                p@,
                dict@,
                selection@,
            ) && forall|i: int| 0 <= i < p.len() ==> plan_wf(#[trigger] p@[i]),
            Err(e) => exists|i: int| #[trigger] selection_fails_at(dict@, selection@, i, e),
        },
{
    let mut plan: Vec<BankPlan<'a>> = Vec::new();
    let mut i: usize = 0;
    while i < selection.len()
        invariant
            i <= selection.len(),
            plan.len() == i,
            forall|j: int|
                0 <= j < i ==> resolvable(dict@, (#[trigger] selection@[j]).0, selection@[j].1@),
            forall|j: int|
                0 <= j < i ==> plan_wf(#[trigger] plan@[j]) && plan_resolved(
                    plan@[j],
                    dict@,
                    selection@[j].0,
                    selection@[j].1@,
                ),
        decreases selection.len() - i,
    {
        let (bank, names) = selection[i];
        match plan_bank(dict, bank, names) {
            Ok(p) => {
                plan.push(p);
            },
            Err(e) => {
                assert(selection_fails_at(dict@, selection@, i as int, e));
                return Err(e);
            },
        }
        i = i + 1;
    }
    Ok(plan)
}

} // verus!
