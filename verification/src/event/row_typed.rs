//! Rows of a bank as values of a type of their own.
//!
//! A type that implements [`BankRow`] says which bank it is a row of and which column each of
//! its fields comes from. Reading never fails: a column that is missing, or whose type is not
//! the field's, reads as zero.

use std::collections::HashMap;

use vstd::prelude::*;
use crate::event::bank::Bank;
#[allow(unused_imports)]
use crate::event::bank::{is_cell_or_zero, is_zero_cell, BankState};
#[allow(unused_imports)]
use crate::event::builders::{lemma_the_column, the_column};
use crate::schema::handle::{BankColumnType, ColumnHandle};
#[allow(unused_imports)]
use crate::schema::handle::fits;
use crate::schema::types::Schema;
#[allow(unused_imports)]
use crate::schema::types::SchemaView;

verus! {

/// Column `col` is the one with this name, it can be read as a column of `T`, and a handle can
/// point at it.
pub open spec fn reads_as<T: BankColumnType>(s: SchemaView, name: Seq<char>, col: int) -> bool {
    s.is_column(name, col) && fits::<T>(s, col) && col < u16::MAX
}

/// The column with this name can be read as a column of `T`.
pub open spec fn readable_as<T: BankColumnType>(s: SchemaView, name: Seq<char>) -> bool {
    exists|col: int| #[trigger] reads_as::<T>(s, name, col)
}

/// `h` points at the column with this name, or is a placeholder where there is none that can be
/// read as a column of `T`.
pub open spec fn handle_for<T: BankColumnType>(
    s: SchemaView,
    name: Seq<char>,
    h: ColumnHandle<T>,
) -> bool {
    if readable_as::<T>(s, name) {
        reads_as::<T>(s, name, h@)
    } else {
        h@ == u16::MAX
    }
}

/// `r` is cell `row` of the column with this name, and zero where that cannot be read.
pub open spec fn is_field<T: BankColumnType>(
    b: BankState,
    name: Seq<char>,
    row: int,
    r: T,
) -> bool {
    if readable_as::<T>(b.schema, name) {
        is_cell_or_zero::<T>(b, the_column(b.schema, name), row, r)
    } else {
        is_zero_cell(r)
    }
}

/// A handle to the column with this name, or a placeholder.
pub(crate) fn field_handle<T: BankColumnType>(schema: &Schema, name: &str) -> (r: ColumnHandle<T>)
    ensures
        handle_for::<T>(schema@, name@, r),
{
    match schema.handle::<T>(name) {
        Ok(h) => {
            let col: usize = h.column_index();
            proof {
                assert(col == h@ && col <= u16::MAX);
                lemma_the_column(schema@, name@, h@);
                assert forall|col: int| #[trigger]
                    reads_as::<T>(schema@, name@, col) implies col == h@ by {
                    lemma_the_column(schema@, name@, col);
                }
                if h@ < u16::MAX {
                    assert(reads_as::<T>(schema@, name@, h@));
                }
            }
            h
        },
        Err(e) => {
            proof {
                assert forall|col: int| !#[trigger] reads_as::<T>(schema@, name@, col) by {
                    if reads_as::<T>(schema@, name@, col) {
                        lemma_the_column(schema@, name@, col);
                        match e {
                            crate::error::HipoError::TypeMismatch { expected, actual, .. } => {
                                let i = choose|i: int| #[trigger]
                                    schema@.is_column(name@, i) && schema@.entries[i].ty
                                        != crate::schema::handle::scalar_type::<T>();
                                lemma_the_column(schema@, name@, i);
                            },
                            crate::error::HipoError::ColumnLengthMismatch { .. } => {
                                let i = choose|i: int| #[trigger]
                                    schema@.is_column(name@, i) && schema@.entries[i].length
                                        != T::spec_length();
                                lemma_the_column(schema@, name@, i);
                            },
                            _ => {},
                        }
                    }
                }
            }
            ColumnHandle::placeholder()
        },
    }
}

/// One field of a row, read through the handle of its column.
pub(crate) fn field<T: BankColumnType>(
    bank: &Bank<'_>,
    handle: ColumnHandle<T>,
    row: u32,
    Ghost(name): Ghost<Seq<char>>,
) -> (r: T)
    requires
        handle_for::<T>(bank@.schema, name, handle),
    ensures
        is_field::<T>(bank@, name, row as int, r),
{
    proof {
        if readable_as::<T>(bank@.schema, name) {
            lemma_the_column(bank@.schema, name, handle@);
        }
    }
    bank.read_handle_or_default::<T>(handle, row)
}

/// A type whose values are rows of one bank.
pub trait BankRow: Sized {
    /// The bank's name.
    const NAME: &'static str;

    /// The bank's group.
    const GROUP: u16;

    /// The bank's item.
    const ITEM: u8;

    /// Handles to the columns of the fields. They are resolved once per bank and used for every
    /// row.
    type Handles: Copy;

    /// The handles point at the columns of the fields in a bank of this schema. A type that says
    /// nothing here promises nothing.
    open spec fn handles_ok(s: SchemaView, h: Self::Handles) -> bool {
        true
    }

    /// `r` is row `row` of a bank. A type that says nothing here promises nothing.
    open spec fn is_row(b: BankState, row: int, r: Self) -> bool {
        true
    }

    /// The handles of the fields in a bank of this schema.
    fn resolve_handles(schema: &Schema) -> (r: Self::Handles)
        ensures
            Self::handles_ok(schema@, r),
    ;

    /// Read one row through handles.
    fn from_row_with_handles(bank: &Bank<'_>, row: u32, handles: &Self::Handles) -> (r: Self)
        requires
            Self::handles_ok(bank@.schema, *handles),
        ensures
            Self::is_row(bank@, row as int, r),
    ;

    /// Read one row. The handles are resolved anew.
    fn from_row(bank: &Bank<'_>, row: u32) -> (r: Self)
        ensures
            Self::is_row(bank@, row as int, r),
    {
        let handles = Self::resolve_handles(bank.schema());
        Self::from_row_with_handles(bank, row, &handles)
    }
}

/// The number by which rows are looked up: what `Bank::get` reads as `i16`.
pub open spec fn key_at(b: BankState, name: Seq<char>, row: int) -> i16 {
    let col = the_column(b.schema, name);
    if b.schema.has_column(name) && fits::<i16>(b.schema, col) && row < b.rows {
        b.cell_elems::<i16>(col, row)[0]
    } else {
        0
    }
}

/// The first `n` rows whose number in the column with this name is `key`, in order. A bank
/// without the column has none.
pub open spec fn keyed_rows(b: BankState, name: Seq<char>, key: i16, n: nat) -> Seq<u32>
    decreases n,
{
    if n == 0 || !b.schema.has_column(name) {
        Seq::empty()
    } else {
        let before = keyed_rows(b, name, key, (n - 1) as nat);
        if key_at(b, name, n - 1) == key {
            before.push((n - 1) as u32)
        } else {
            before
        }
    }
}

/// A lookup finds the rows with the number it looks for and no others, in ascending order.
pub proof fn law_keyed_rows(b: BankState, name: Seq<char>, key: i16, n: nat)
    requires
        b.schema.has_column(name),
        n <= u32::MAX,
    ensures
        forall|r: u32| #[trigger]
            keyed_rows(b, name, key, n).contains(r) <==> r < n && key_at(b, name, r as int) == key,
        forall|i: int, j: int|
            0 <= i < j < keyed_rows(b, name, key, n).len() ==> (#[trigger] keyed_rows(
                b,
                name,
                key,
                n,
            )[i]) < (#[trigger] keyed_rows(b, name, key, n)[j]),
    decreases n,
{
    let all = keyed_rows(b, name, key, n);
    if n > 0 {
        let before = keyed_rows(b, name, key, (n - 1) as nat);
        law_keyed_rows(b, name, key, (n - 1) as nat);
        if key_at(b, name, n - 1) == key {
            assert(all == before.push((n - 1) as u32));
            assert forall|r: u32| #[trigger] all.contains(r) <==> r < n && key_at(b, name, r as int)
                == key by {
                if before.contains(r) {
                    let k = choose|k: int| 0 <= k < before.len() && before[k] == r;
                    assert(all[k] == r);
                }
                if r == n - 1 {
                    assert(all[before.len() as int] == r);
                }
            }
            assert forall|i: int, j: int| 0 <= i < j < all.len() implies (#[trigger] all[i]) < (
            #[trigger] all[j]) by {
                assert(before.contains(before[i]));
            }
        }
    }
}

/// The rows of a bank by the number in one of its columns.
#[derive(Debug)]
pub struct PindexIndex {
    table: HashMap<i16, Vec<u32>>,
}

impl PindexIndex {
    /// The rows for a number.
    pub closed spec fn spec_rows(self, key: i16) -> Seq<u32> {
        if self.table@.contains_key(key) {
            self.table@[key]@
        } else {
            Seq::empty()
        }
    }

    /// The index of a column. `None` where the bank has no such column.
    pub fn build_from_column(bank: &Bank<'_>, name: &str) -> (r: Option<Self>)
        ensures
            match r {
                Some(x) => bank@.schema.has_column(name@) && forall|key: i16| #[trigger]
                    x.spec_rows(key) == keyed_rows(bank@, name@, key, bank@.rows),
                None => !bank@.schema.has_column(name@),
            },
    {
        broadcast use vstd::std_specs::hash::group_hash_axioms;

        if bank.schema().column_index(name).is_none() {
            return None;
        }
        let mut x = PindexIndex { table: HashMap::new() };
        let n: u32 = bank.rows();
        let mut i: u32 = 0;
        while i < n
            invariant
                i <= n,
                n == bank@.rows,
                bank@.schema.has_column(name@),
                vstd::std_specs::hash::obeys_key_model::<i16>(),
                vstd::std_specs::hash::builds_valid_hashers::<
                    std::hash::RandomState,
                >(),
                forall|key: i16| #[trigger]
                    x.spec_rows(key) == keyed_rows(bank@, name@, key, i as nat),
            decreases n - i,
        {
            let key: i16 = bank.get::<i16>(name, i);
            let ghost before = x;
            proof {
                let col = choose|col: int| #[trigger]
                    bank@.schema.is_column(name@, col) && is_cell_or_zero::<i16>(
                        bank@,
                        col,
                        i as int,
                        key,
                    );
                lemma_the_column(bank@.schema, name@, col);
                assert(key.elems()[0] == key);
                assert(key == key_at(bank@, name@, i as int));
                assert(before.spec_rows(key) == keyed_rows(bank@, name@, key, i as nat));
            }
            let mut rows: Vec<u32> = match x.table.remove(&key) {
                Some(v) => v,
                None => Vec::new(),
            };
            assert(rows@ =~= before.spec_rows(key));
            rows.push(i);
            x.table.insert(key, rows);
            proof {
                assert forall|k: i16| #[trigger]
                    x.spec_rows(k) == keyed_rows(bank@, name@, k, (i + 1) as nat) by {
                    assert(before.spec_rows(k) == keyed_rows(bank@, name@, k, i as nat));
                    assert(k != key ==> x.spec_rows(k) == before.spec_rows(k));
                }
            }
            i = i + 1;
        }
        Some(x)
    }

    /// The rows for a number, in order.
    pub fn rows_for(&self, key: i16) -> (r: Vec<u32>)
        ensures
            r@ == self.spec_rows(key),
    {
        broadcast use vstd::std_specs::hash::group_hash_axioms;

        match self.table.get(&key) {
            Some(v) => vstd::slice::slice_to_vec(v.as_slice()),
            None => Vec::new(),
        }
    }
}

/// A bank read as rows of `T`. The handles of the columns are resolved once.
pub struct BankView<'a, T: BankRow> {
    bank: Bank<'a>,
    handles: T::Handles,
}

impl<'a, T: BankRow> View for BankView<'a, T> {
    type V = BankState;

    closed spec fn view(&self) -> BankState {
        self.bank@
    }
}

impl<'a, T: BankRow> BankView<'a, T> {
    /// The handles are those of the bank's schema.
    #[verifier::type_invariant]
    pub closed spec fn inv(self) -> bool {
        T::handles_ok(self.bank@.schema, self.handles)
    }

    /// Read a bank as rows of `T`.
    pub fn new(bank: Bank<'a>) -> (r: Self)
        ensures
            r@ == bank@,
    {
        let handles = T::resolve_handles(bank.schema());
        BankView { bank, handles }
    }

    /// How many rows the bank has.
    pub fn rows(&self) -> (r: u32)
        ensures
            r == self@.rows,
    {
        self.bank.rows()
    }

    /// One row. A row that is not there reads as zeros.
    pub fn row(&self, row: u32) -> (r: T)
        ensures
            T::is_row(self@, row as int, r),
    {
        proof {
            use_type_invariant(self);
        }
        T::from_row_with_handles(&self.bank, row, &self.handles)
    }

    /// The rows whose number in a column is `key`.
    fn keyed(&self, name: &str, key: i16) -> (r: Vec<u32>)
        ensures
            r@ == keyed_rows(self@, name@, key, self@.rows),
    {
        match PindexIndex::build_from_column(&self.bank, name) {
            Some(x) => x.rows_for(key),
            None => {
                assert(keyed_rows(self@, name@, key, self@.rows) =~= Seq::<u32>::empty());
                Vec::new()
            },
        }
    }

    /// The rows whose `pindex` is `pindex`.
    pub fn pindex_rows(&self, pindex: i16) -> (r: Vec<u32>)
        ensures
            r@ == keyed_rows(self@, "pindex"@, pindex, self@.rows),
    {
        self.keyed("pindex", pindex)
    }

    /// The rows whose `index` is `key`.
    pub fn index_rows(&self, key: i16) -> (r: Vec<u32>)
        ensures
            r@ == keyed_rows(self@, "index"@, key, self@.rows),
    {
        self.keyed("index", key)
    }
}

/// The bank whose rows are read, and the next of them. Where there is no bank there are no rows.
pub struct RowsState {
    pub bank: Option<BankState>,
    pub next: nat,
}

impl RowsState {
    /// How many rows there are.
    pub open spec fn end(self) -> nat {
        match self.bank {
            Some(b) => b.rows,
            None => 0,
        }
    }
}

/// The rows of a bank, one after the other.
pub struct RowsIter<'a, T: BankRow> {
    view: Option<BankView<'a, T>>,
    next: u32,
}

/// What a bank that may be missing says.
pub open spec fn view_state<'a, T: BankRow>(v: Option<BankView<'a, T>>) -> Option<BankState> {
    match v {
        Some(v) => Some(v@),
        None => None,
    }
}

impl<'a, T: BankRow> View for RowsIter<'a, T> {
    type V = RowsState;

    closed spec fn view(&self) -> RowsState {
        RowsState { bank: view_state(self.view), next: self.next as nat }
    }
}

impl<'a, T: BankRow> RowsIter<'a, T> {
    /// The rows of a bank, from the first on.
    pub fn new(view: Option<BankView<'a, T>>) -> (r: Self)
        ensures
            r@ == (RowsState { bank: view_state(view), next: 0 }),
    {
        RowsIter { view, next: 0 }
    }

    /// The next row.
    pub fn next(&mut self) -> (r: Option<T>)
        ensures
            final(self)@.bank == old(self)@.bank,
            match r {
                Some(t) => {
                    &&& old(self)@.next < old(self)@.end()
                    &&& T::is_row(old(self)@.bank->0, old(self)@.next as int, t)
                    &&& final(self)@.next == old(self)@.next + 1
                },
                None => {
                    &&& old(self)@.next >= old(self)@.end()
                    &&& final(self)@.next == old(self)@.next
                },
            },
    {
        let row = match &self.view {
            Some(v) => {
                if self.next >= v.rows() {
                    return None;
                }
                v.row(self.next)
            },
            None => {
                return None;
            },
        };
        self.next = self.next + 1;
        Some(row)
    }

    /// How many rows are left.
    pub fn len(&self) -> (r: usize)
        ensures
            r == if self@.next < self@.end() {
                self@.end() - self@.next
            } else {
                0
            },
    {
        match &self.view {
            Some(v) => if self.next < v.rows() {
                (v.rows() - self.next) as usize
            } else {
                0
            },
            None => 0,
        }
    }
}

/// The rows that a lookup found, and the next of them.
pub struct KeyedState {
    pub bank: Option<BankState>,
    pub rows: Seq<u32>,
    pub next: nat,
}

/// The rows of a bank whose number in a column is a given one.
pub struct RowsForKeyIter<'a, T: BankRow> {
    view: Option<BankView<'a, T>>,
    rows: Vec<u32>,
    next_idx: usize,
}

impl<'a, T: BankRow> View for RowsForKeyIter<'a, T> {
    type V = KeyedState;

    closed spec fn view(&self) -> KeyedState {
        KeyedState { bank: view_state(self.view), rows: self.rows@, next: self.next_idx as nat }
    }
}

/// The rows that a lookup in a bank finds.
pub open spec fn found_rows(bank: Option<BankState>, name: Seq<char>, key: i16) -> Seq<u32> {
    match bank {
        Some(b) => keyed_rows(b, name, key, b.rows),
        None => Seq::empty(),
    }
}

impl<'a, T: BankRow> RowsForKeyIter<'a, T> {
    /// There are no rows without a bank.
    #[verifier::type_invariant]
    pub closed spec fn inv(self) -> bool {
        self.next_idx <= self.rows.len() && (self.view is None ==> self.rows.len() == 0)
    }

    /// The rows of a bank whose `pindex` is `pindex`.
    pub fn new_pindex(view: Option<BankView<'a, T>>, pindex: i16) -> (r: Self)
        ensures
            r@ == (KeyedState {
                bank: view_state(view),
                rows: found_rows(view_state(view), "pindex"@, pindex),
                next: 0,
            }),
    {
        let rows = match &view {
            Some(v) => v.pindex_rows(pindex),
            None => Vec::new(),
        };
        assert(rows@ =~= found_rows(view_state(view), "pindex"@, pindex));
        RowsForKeyIter { view, rows, next_idx: 0 }
    }

    /// The rows of a bank whose `index` is `key`.
    pub fn new_index(view: Option<BankView<'a, T>>, key: i16) -> (r: Self)
        ensures
            r@ == (KeyedState {
                bank: view_state(view),
                rows: found_rows(view_state(view), "index"@, key),
                next: 0,
            }),
    {
        let rows = match &view {
            Some(v) => v.index_rows(key),
            None => Vec::new(),
        };
        assert(rows@ =~= found_rows(view_state(view), "index"@, key));
        RowsForKeyIter { view, rows, next_idx: 0 }
    }

    /// The next row.
    pub fn next(&mut self) -> (r: Option<T>)
        ensures
            final(self)@.bank == old(self)@.bank,
            final(self)@.rows == old(self)@.rows,
            match r {
                Some(t) => {
                    &&& old(self)@.next < old(self)@.rows.len()
                    &&& T::is_row(
                        old(self)@.bank->0,
                        old(self)@.rows[old(self)@.next as int] as int,
                        t,
                    )
                    &&& final(self)@.next == old(self)@.next + 1
                },
                None => {
                    &&& old(self)@.next >= old(self)@.rows.len()
                    &&& final(self)@.next == old(self)@.next
                },
            },
    {
        proof {
            use_type_invariant(&*self);
        }
        if self.next_idx >= self.rows.len() {
            return None;
        }
        let row = match &self.view {
            Some(v) => v.row(self.rows[self.next_idx]),
            None => {
                return None;
            },
        };
        self.next_idx = self.next_idx + 1;
        Some(row)
    }
}

} // verus!
