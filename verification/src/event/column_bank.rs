//! A bank of an event whose columns are streams of their own, read column by column.

use vstd::prelude::*;
use crate::error::{HipoError, Result};
use crate::event::bank::{may_hold, read_elements, zero_cell};
#[allow(unused_imports)]
use crate::event::bank::{bank_fits, elements, is_named_cell, is_named_column, BankState};
#[allow(unused_imports)]
use crate::event::view::{blank, EventView};
use crate::schema::handle::{BankColumnType, BankScalarType, ColumnHandle};
#[allow(unused_imports)]
use crate::schema::handle::{fits, scalar_type};
use crate::schema::types::Schema;
#[allow(unused_imports)]
use crate::schema::types::{widths, SchemaView};
use crate::wire::per_column::PerColumnRecord;
#[allow(unused_imports)]
use crate::wire::per_column::PerColumnView;

verus! {

/// Event `e` keeps bank `b` in columns, and `s` says how wide they are.
pub open spec fn in_columns(v: PerColumnView, e: int, b: int, s: SchemaView) -> bool {
    &&& v.wf()
    &&& 0 <= e < v.events()
    &&& 0 <= b < v.banks()
    &&& v.cols[b] != 0
    &&& s.laid_out()
    &&& s.row_size > 0
    &&& bank_fits(s, v.size(e, b) as nat)
}

/// The bank whose columns are those that the record holds of it.
pub open spec fn columnar_bank(v: PerColumnView, e: int, b: int, s: SchemaView) -> BankState {
    BankState {
        schema: s,
        data: v.columns_data(e, b, s, s.entries.len()),
        rows: v.rows_in(e, b, s.row_size as nat),
        lost: v.lost_columns(e, b, s),
    }
}

/// A column has as many bytes as its rows take up.
proof fn lemma_cells_len(v: PerColumnView, e: int, b: int, s: SchemaView, c: int)
    ensures
        v.column_cells(e, b, c, s).len() == v.rows_in(e, b, s.row_size as nat)
            * s.entries[c].width(),
{
    let w = s.entries[c].width();
    let rows = v.rows_in(e, b, s.row_size as nat);
    let from = v.rows_before(e, b, s.row_size as nat);
    assert((from + rows) * w == from * w + rows * w) by (nonlinear_arith);
    assert(rows * w >= 0 && from * w >= 0) by (nonlinear_arith);
}

/// Columns lie one after the other, each as it was read.
proof fn lemma_column_at(v: PerColumnView, e: int, b: int, s: SchemaView, n: nat, c: int)
    requires
        0 <= c,
        c < n || (c == 0 && n == 0),
        n <= s.entries.len(),
    ensures
        ({
            let rows = v.rows_in(e, b, s.row_size as nat);
            let at = (rows * widths(s.entries, c as nat)) as int;
            &&& v.columns_data(e, b, s, n).len() == rows * widths(s.entries, n)
            &&& c < n ==> {
                &&& at + rows * s.entries[c].width() <= rows * widths(s.entries, n)
                &&& v.columns_data(e, b, s, n).subrange(
                    at,
                    at + rows * s.entries[c].width(),
                ) == v.column_cells(e, b, c, s)
            }
        }),
    decreases n,
{
    let rows = v.rows_in(e, b, s.row_size as nat);
    let at = (rows * widths(s.entries, c as nat)) as int;
    if n == 0 {
        assert(rows * widths(s.entries, 0) == 0) by (nonlinear_arith)
            requires
                widths(s.entries, 0) == 0,
        ;
    } else {
        let m = (n - 1) as nat;
        let w = s.entries[m as int].width();
        lemma_cells_len(v, e, b, s, m as int);
        assert(widths(s.entries, n) == widths(s.entries, m) + w);
        assert(rows * widths(s.entries, n) == rows * widths(s.entries, m) + rows * w)
            by (nonlinear_arith)
            requires
                widths(s.entries, n) == widths(s.entries, m) + w,
        ;
        assert(rows * w >= 0) by (nonlinear_arith);
        assert(at >= 0) by (nonlinear_arith)
            requires
                at == rows * widths(s.entries, c as nat),
        ;
        let front = v.columns_data(e, b, s, m);
        let whole = v.columns_data(e, b, s, n);
        if c < m {
            lemma_column_at(v, e, b, s, m, c);
            let cw = s.entries[c].width();
            assert(rows * cw >= 0) by (nonlinear_arith);
            assert(whole.subrange(at, at + rows * cw) =~= front.subrange(
                at,
                at + rows * cw,
            ));
        } else {
            lemma_column_at(v, e, b, s, m, if m == 0 { 0 } else { m - 1 });
            assert(whole.subrange(at, at + rows * w) =~= v.column_cells(e, b, c, s));
        }
    }
}

/// The columns that cannot be read are listed, and no others.
proof fn lemma_lost(v: PerColumnView, e: int, b: int, s: SchemaView, n: nat, c: usize)
    requires
        n <= s.entries.len() <= 65536,
    ensures
        v.lost(e, b, s, n).contains(c) == (c < n && v.is_lost(e, b, c as int, s)),
    decreases n,
{
    if n > 0 {
        let m = (n - 1) as nat;
        lemma_lost(v, e, b, s, m, c);
        let l = v.lost(e, b, s, m);
        if v.is_lost(e, b, m as int, s) {
            let full = l.push(m as usize);
            assert(full[l.len() as int] == m as usize);
            if l.contains(c) {
                let k = choose|k: int| 0 <= k < l.len() && l[k] == c;
                assert(full[k] == c);
            }
            if full.contains(c) && c != m {
                let k = choose|k: int| 0 <= k < full.len() && full[k] == c;
                assert(l[k] == c);
            }
        }
    }
}

/// A bank that an event keeps in columns is there whatever its streams hold. Its rows are those
/// that the directory counts, and each of its columns is what its own stream says: one that
/// cannot be read is zeros, is listed as lost, and takes nothing from the others.
pub proof fn law_columnar_bank(v: PerColumnView, e: int, b: int, s: SchemaView)
    requires
        in_columns(v, e, b, s),
    ensures
        BankState::of(s, v.columns_data(e, b, s, s.entries.len())) == Some(
            BankState { lost: Seq::empty(), ..columnar_bank(v, e, b, s) },
        ),
        bank_fits(s, v.columns_data(e, b, s, s.entries.len()).len()),
        columnar_bank(v, e, b, s).whole(),
        forall|c: int|
            0 <= c < s.entries.len() ==> #[trigger] columnar_bank(v, e, b, s).col_data(c)
                == v.column_cells(e, b, c, s),
        forall|c: usize|
            #[trigger] columnar_bank(v, e, b, s).lost.contains(c) == (c < s.entries.len()
                && v.is_lost(e, b, c as int, s)),
        v.bank_at(s.group, s.item) == Some(b as nat) && v.has(e, b) ==> EventView::PerColumn(
            v,
            e,
        ).bank(s) == Some(columnar_bank(v, e, b, s)),
{
    let n = s.entries.len();
    let rows = v.rows_in(e, b, s.row_size as nat);
    let r = s.row_size as nat;
    let d = v.columns_data(e, b, s, n);
    v.lemma_rows_room(e, b, s);
    lemma_column_at(v, e, b, s, n, if n == 0 { 0 } else { n - 1 });
    if rows > 0 {
        assert(d.len() == rows * r);
    } else {
        assert(rows * widths(s.entries, n) == 0 && rows * r == 0) by (nonlinear_arith)
            requires
                rows == 0,
        ;
    }
    assert(d.len() % r == 0 && d.len() / r == rows) by (nonlinear_arith)
        requires
            d.len() == rows * r,
            r > 0,
    ;
    assert forall|c: int| 0 <= c < n implies #[trigger] columnar_bank(v, e, b, s).col_data(c)
        == v.column_cells(e, b, c, s) by {
        lemma_column_at(v, e, b, s, n, c);
    }
    assert forall|c: usize|
        #[trigger] columnar_bank(v, e, b, s).lost.contains(c) == (c < s.entries.len() && v.is_lost(
            e,
            b,
            c as int,
            s,
        )) by {
        lemma_lost(v, e, b, s, n, c);
    }
}

/// A cell of a column is a piece of the column's bytes.
proof fn lemma_cell_in_column(b: BankState, col: int, row: int)
    requires
        b.whole(),
        0 <= col < b.schema.entries.len(),
        0 <= row < b.rows,
    ensures
        ({
            let w = b.schema.entries[col].width();
            &&& 0 <= row * w
            &&& row * w + w <= b.col_data(col).len()
            &&& b.cell(col, row) == b.col_data(col).subrange(row * w, row * w + w)
        }),
{
    let w = b.schema.entries[col].width();
    crate::event::bank::lemma_col_in_data(b, col);
    assert(b.col_start(col) <= b.col_start(col) + #[trigger] (row * w));
    assert(b.cell(col, row) =~= b.col_data(col).subrange(row * w, row * w + w));
}

/// Zero bytes are zero elements.
proof fn lemma_zero_elements<S: BankScalarType>(bytes: Seq<u8>, n: nat)
    requires
        bytes.len() == n * S::spec_type().spec_size(),
        forall|i: int| 0 <= i < bytes.len() ==> bytes[i] == 0,
    ensures
        elements::<S>(bytes, n) == Seq::new(n, |i: int| S::spec_zero()),
{
    let z = S::spec_type().spec_size();
    assert forall|k: int| 0 <= k < n implies elements::<S>(bytes, n)[k] == S::spec_zero() by {
        assert(0 <= k * z && k * z + z <= n * z) by (nonlinear_arith)
            requires
                0 <= k < n,
                z >= 0,
        ;
        S::lemma_decoded_zero(bytes.subrange(k * z, k * z + z));
    }
    assert(elements::<S>(bytes, n) =~= Seq::new(n, |i: int| S::spec_zero()));
}

/// A cell of a column that cannot be read is zero.
pub proof fn law_lost_cell_is_zero<T: BankColumnType>(
    v: PerColumnView,
    e: int,
    b: int,
    s: SchemaView,
    col: int,
    row: int,
)
    requires
        in_columns(v, e, b, s),
        fits::<T>(s, col),
        v.is_lost(e, b, col, s),
        0 <= row < columnar_bank(v, e, b, s).rows,
    ensures
        columnar_bank(v, e, b, s).cell_elems::<T::Scalar>(col, row) == Seq::new(
            T::spec_length(),
            |i: int| <T::Scalar as BankScalarType>::spec_zero(),
        ),
{
    let bank = columnar_bank(v, e, b, s);
    law_columnar_bank(v, e, b, s);
    lemma_cell_in_column(bank, col, row);
    let w = s.entries[col].width();
    let cell = bank.cell(col, row);
    assert(bank.col_data(col) == blank(bank.rows * w));
    assert(cell.len() == T::spec_length() * scalar_type::<T>().spec_size()) by (nonlinear_arith)
        requires
            cell.len() == w,
            w == s.entries[col].ty.spec_size() * s.entries[col].length as nat,
            s.entries[col].ty == scalar_type::<T>(),
            s.entries[col].length == T::spec_length(),
    ;
    lemma_zero_elements::<T::Scalar>(cell, T::spec_length());
}

/// A bank of an event whose columns are streams of their own. A read decompresses the one column
/// that it is about.
pub struct ColumnBank<'a> {
    record: &'a PerColumnRecord,
    schema: &'a Schema,
    event_idx: u32,
    bank_idx: u32,
}

impl<'a> View for ColumnBank<'a> {
    type V = BankState;

    closed spec fn view(&self) -> BankState {
        columnar_bank(
            self.record@,
            self.event_idx as int,
            self.bank_idx as int,
            self.schema@,
        )
    }
}

impl<'a> ColumnBank<'a> {
    #[verifier::type_invariant]
    spec fn inv(self) -> bool {
        in_columns(self.record@, self.event_idx as int, self.bank_idx as int, self.schema@)
    }

    /// Bank `bank_idx` of event `event_idx`, where it is kept in columns.
    pub fn new(
        record: &'a PerColumnRecord,
        schema: &'a Schema,
        event_idx: u32,
        bank_idx: u32,
    ) -> (r: Option<Self>)
        requires
            event_idx < record@.events(),
            bank_idx < record@.banks(),
        ensures
            r is Some == in_columns(record@, event_idx as int, bank_idx as int, schema@),
            r matches Some(b) ==> b@ == columnar_bank(
                record@,
                event_idx as int,
                bank_idx as int,
                schema@,
            ),
    {
        proof {
            use_type_invariant(schema);
        }
        if event_idx >= record.event_count() || record.is_opaque(bank_idx) || schema.row_size() == 0 {
            return None;
        }
        let size: u32 = record.bank_size(event_idx, bank_idx);
        if !may_hold(schema, size as usize) {
            return None;
        }
        Some(ColumnBank { record, schema, event_idx, bank_idx })
    }

    pub fn rows(&self) -> (r: u32)
        ensures
            r == self@.rows,
    {
        proof {
            use_type_invariant(self);
        }
        self.record.bank_size(self.event_idx, self.bank_idx) / self.schema.row_size()
    }

    /// The cells of column `col`, in row order; `None` where they cannot be read.
    fn cells<T: BankColumnType>(&self, col: usize, first: u32, n: u32) -> (r: Option<Vec<T>>)
        requires
            fits::<T>(self@.schema, col as int),
            first + n <= self@.rows,
            self@.rows > 0,
        ensures
            r is None == self@.lost.contains(col),
            r matches Some(v) ==> v.len() == n && forall|i: int|
                0 <= i < n ==> (#[trigger] v@[i]).elems() == self@.cell_elems::<T::Scalar>(
                    col as int,
                    first + i,
                ),
    {
        proof {
            use_type_invariant(self);
            use_type_invariant(self.schema);
            law_columnar_bank(
                self.record@,
                self.event_idx as int,
                self.bank_idx as int,
                self.schema@,
            );
        }
        let ghost (e, b) = (self.event_idx as int, self.bank_idx as int);
        assert(self@.lost.contains(col) == self.record@.is_lost(e, b, col as int, self.schema@));
        let bytes = match self.record.column_data(
            self.event_idx,
            self.bank_idx,
            col,
            self.schema,
        ) {
            Some(d) => d,
            None => {
                return None;
            },
        };
        assert(self@.col_data(col as int) == bytes@);
        let len: usize = T::length();
        let size: usize = <T::Scalar as BankScalarType>::data_type().size();
        let ghost w = self@.schema.entries[col as int].width();
        let mut out: Vec<T> = Vec::new();
        let mut i: u32 = 0;
        while i < n
            invariant
                i <= n,
                fits::<T>(self@.schema, col as int),
                first + n <= self@.rows,
                self@.whole(),
                bytes@ == self@.col_data(col as int),
                len == T::spec_length(),
                size == scalar_type::<T>().spec_size(),
                w == self@.schema.entries[col as int].width(),
                out.len() == i,
                forall|k: int|
                    0 <= k < i ==> (#[trigger] out@[k]).elems() == self@.cell_elems::<T::Scalar>(
                        col as int,
                        first + k,
                    ),
            decreases n - i,
        {
            let ghost row = first + i;
            proof {
                lemma_cell_in_column(self@, col as int, row);
            }
            assert(len * size == w) by (nonlinear_arith)
                requires
                    w == self@.schema.entries[col as int].ty.spec_size()
                        * self@.schema.entries[col as int].length as nat,
                    self@.schema.entries[col as int].ty == scalar_type::<T>(),
                    self@.schema.entries[col as int].length == T::spec_length(),
                    len == T::spec_length(),
                    size == scalar_type::<T>().spec_size(),
            ;
            assert(row * w + w <= bytes.len() <= usize::MAX);
            let at: usize = (first + i) as usize * (len * size);
            assert(at == row * w);
            let elems = read_elements::<T::Scalar>(bytes.as_slice(), at, len);
            out.push(T::from_elems(elems.as_slice()));
            i = i + 1;
        }
        Some(out)
    }

    /// One cell as `T`; zero where the column is missing or cannot be read, its type or length is
    /// not that of `T`, or the row is not there.
    pub fn get<T: BankColumnType>(&self, name: &str, row: u32) -> (r: T)
        ensures
            is_named_cell::<T>(self@, name@, row as int, r),
    {
        let col: usize = match self.schema.column_index(name) {
            Some(c) => c,
            None => {
                return zero_cell::<T>();
            },
        };
        assert(self@.schema.is_column(name@, col as int));
        let entry = &self.schema.entries()[col];
        if entry.ty != <T::Scalar as BankScalarType>::data_type() || entry.length as usize
            != T::length() || row >= self.rows() {
            return zero_cell::<T>();
        }
        match self.cells::<T>(col, row, 1) {
            Some(v) => {
                assert(v@[0].elems() == self@.cell_elems::<T::Scalar>(col as int, row + 0));
                v[0]
            },
            None => {
                proof {
                    use_type_invariant(self);
                    law_columnar_bank(
                        self.record@,
                        self.event_idx as int,
                        self.bank_idx as int,
                        self.schema@,
                    );
                    law_lost_cell_is_zero::<T>(
                        self.record@,
                        self.event_idx as int,
                        self.bank_idx as int,
                        self.schema@,
                        col as int,
                        row as int,
                    );
                }
                zero_cell::<T>()
            },
        }
    }

    /// Column `name`, one cell per row. Fails on an unknown name, a type that is not the
    /// column's, a length that is not the column's, and a column that cannot be read.
    pub fn col<T: BankColumnType>(&self, name: &str) -> (r: Result<Vec<T>>)
        ensures
            is_named_column::<T>(self@, name@, r),
    {
        let h: ColumnHandle<T> = self.schema.handle::<T>(name)?;
        let col: usize = h.column_index();
        assert(self@.schema.is_column(name@, col as int));
        let rows: u32 = self.rows();
        if rows == 0 {
            proof {
                use_type_invariant(self);
                law_columnar_bank(
                    self.record@,
                    self.event_idx as int,
                    self.bank_idx as int,
                    self.schema@,
                );
                assert(!self.record@.is_lost(
                    self.event_idx as int,
                    self.bank_idx as int,
                    col as int,
                    self.schema@,
                ));
            }
            return Ok(Vec::new());
        }
        match self.cells::<T>(col, 0, rows) {
            Some(v) => {
                assert forall|i: int| 0 <= i < v.len() implies (#[trigger] v@[i]).elems()
                    == self@.cell_elems::<T::Scalar>(col as int, i) by {
                    assert(v@[i].elems() == self@.cell_elems::<T::Scalar>(col as int, 0 + i));
                }
                Ok(v)
            },
            None => Err(
                HipoError::CorruptRecord {
                    offset: 0,
                    reason: "Lz4PerColumn: column stream cannot be read",
                },
            ),
        }
    }
}

} // verus!
