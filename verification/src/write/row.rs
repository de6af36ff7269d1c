//! Filling the rows of a bank.

use vstd::prelude::*;
use crate::error::{HipoError, Result};
use crate::event::builders::BankBuilder;
#[allow(unused_imports)]
use crate::event::builders::{array_set, array_unset, no_row_yet, BuilderView};
use crate::schema::handle::BankColumnType;

verus! {

/// Sets the columns of the row that was added last.
#[derive(Debug)]
pub struct RowWriter<'a> {
    builder: BankBuilder<'a>,
}

impl<'a> View for RowWriter<'a> {
    type V = BuilderView;

    closed spec fn view(&self) -> BuilderView {
        self.builder@
    }
}

/// What setting a column of the last row ends with.
pub open spec fn row_set<T: BankColumnType>(
    before: BuilderView,
    name: Seq<char>,
    value: T,
    after: BuilderView,
    failed: Option<HipoError>,
) -> bool {
    match failed {
        None => before.rows > 0 && array_set::<T::Scalar>(
            before,
            name,
            before.rows - 1,
            value.elems(),
            after,
        ),
        Some(e) => after == before && if before.rows == 0 {
            no_row_yet::<()>(Err(e))
        } else {
            array_unset::<T::Scalar>(before, name, before.rows - 1, value.elems(), e)
        },
    }
}

impl<'a> RowWriter<'a> {
    pub(crate) fn new(builder: BankBuilder<'a>) -> (r: Self)
        ensures
            r@ == builder@,
    {
        RowWriter { builder }
    }

    pub(crate) fn into_inner(self) -> (r: BankBuilder<'a>)
        ensures
            r@ == self@,
    {
        self.builder
    }

    /// Set the column `name` of the row. Its type and length must be those of `T`.
    pub fn set<T: BankColumnType>(&mut self, name: &str, value: T) -> (r: Result<&mut Self>)
        requires
            old(self)@.wf(),
        ensures
            match r {
                Ok(w) => row_set(old(self)@, name@, value, w@, None) && *final(self) == *final(w),
                Err(e) => row_set(old(self)@, name@, value, final(self)@, Some(e)),
            },
    {
        let elems = value.to_elems();
        match self.builder.set_array::<T::Scalar>(name, elems.as_slice()) {
            Ok(_) => {},
            Err(e) => {
                return Err(e);
            },
        }
        Ok(self)
    }
}

/// Adds rows to a bank.
#[derive(Debug)]
pub struct BankWriter<'a> {
    builder: BankBuilder<'a>,
}

impl<'a> View for BankWriter<'a> {
    type V = BuilderView;

    closed spec fn view(&self) -> BuilderView {
        self.builder@
    }
}

impl<'a> BankWriter<'a> {
    pub fn new(builder: BankBuilder<'a>) -> (r: Self)
        ensures
            r@ == builder@,
    {
        BankWriter { builder }
    }

    pub fn into_inner(self) -> (r: BankBuilder<'a>)
        ensures
            r@ == self@,
    {
        self.builder
    }

    /// Add a row, and let `f` set its columns: `f` is given the bank with one more row, all
    /// zero, and what it leaves stands, whether or not it fails.
    pub fn row<F: FnOnce(&mut RowWriter<'a>) -> Result<()>>(&mut self, f: F) -> (r: Result<()>)
        requires
            old(self)@.wf(),
            forall|w: &mut RowWriter<'a>| w@.wf() ==> f.requires((w,)),
        ensures
            old(self)@.rows == u32::MAX ==> final(self)@ == old(self)@ && r is Err && r->Err_0
                is InvalidUsage,
            old(self)@.rows < u32::MAX ==> exists|w: &mut RowWriter<'a>| #[trigger]
                f.ensures((w,), r) && w@ == old(self)@.with_row() && final(w)@ == final(self)@,
    {
        if self.builder.rows() == u32::MAX {
            return Err(HipoError::InvalidUsage { what: "BankWriter: too many rows" });
        }
        let mut held = BankBuilder::new(self.builder.schema());
        core::mem::swap(&mut held, &mut self.builder);
        held.push_row();
        let mut w = RowWriter::new(held);
        let r = f(&mut w);
        self.builder = w.into_inner();
        r
    }
}

} // verus!
