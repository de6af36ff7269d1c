//! Banks: which bytes of the data a cell is made of.

use vstd::prelude::*;
use crate::error::HipoError;
use crate::event::bank::Bank;
#[allow(unused_imports)]
use crate::event::bank::{elements, lemma_col_in_data, BankState};
#[allow(unused_imports)]
use crate::laws::bytes::law_element_types;
use crate::schema::handle::{BankColumnType, BankScalarType, ColumnHandle};
#[allow(unused_imports)]
use crate::schema::handle::{fits, scalar_type};
#[allow(unused_imports)]
use crate::schema::types::{lemma_widths_monotone, widths, EntryView, SchemaView};
use crate::schema::types::{DataType, Schema};

verus! {

/// How many bytes an element of each type takes up.
pub open spec fn type_bytes(ty: DataType) -> nat {
    match ty {
        DataType::Byte => 1,
        DataType::Short => 2,
        DataType::Int => 4,
        DataType::Long => 8,
        DataType::Float => 4,
        DataType::Double => 8,
    }
}

/// How many bytes one row has in a column.
pub open spec fn cell_bytes(e: EntryView) -> nat {
    type_bytes(e.ty) * e.length as nat
}

/// Column `col` is the last one with this name.
pub open spec fn last_named(entries: Seq<EntryView>, name: Seq<char>, col: int) -> bool {
    &&& 0 <= col < entries.len()
    &&& entries[col].name == name
    &&& forall|j: int| col < j < entries.len() ==> (#[trigger] entries[j]).name != name
}

/// The columns of a row follow each other without gaps, from byte 0 on, and the row ends with the
/// last of them; as long as a row is shorter than 4 GiB.
pub proof fn law_columns_follow_each_other(s: SchemaView, k: int)
    requires
        s.laid_out(),
        s.row_size < u32::MAX,
        0 <= k < s.entries.len(),
    ensures
        s.entries[0].row_offset == 0,
        k + 1 < s.entries.len() ==> s.entries[k + 1].row_offset == s.entries[k].row_offset
            + cell_bytes(s.entries[k]),
        k + 1 == s.entries.len() ==> s.row_size == s.entries[k].row_offset + cell_bytes(
            s.entries[k],
        ),
{
    law_element_types();
    let n = s.entries.len();
    lemma_widths_monotone(s.entries, k as nat, n);
    lemma_widths_monotone(s.entries, (k + 1) as nat, n);
    assert(s.entries[k].row_offset == widths(s.entries, k as nat));
    assert(widths(s.entries, (k + 1) as nat) == widths(s.entries, k as nat)
        + s.entries[k].width());
    assert(widths(s.entries, 0) == 0);
    assert(s.entries[0].row_offset == 0);
    assert(s.entries[k].width() == cell_bytes(s.entries[k]));
    if k + 1 < n {
        assert(s.entries[k + 1].row_offset == widths(s.entries, (k + 1) as nat));
    }
}

/// A schema without columns has rows of no bytes, and the other way round.
pub proof fn law_no_columns_no_bytes(s: SchemaView)
    requires
        s.laid_out(),
        s.row_size < u32::MAX,
    ensures
        (s.row_size == 0) == (s.entries.len() == 0),
{
    if s.entries.len() > 0 {
        let k = s.entries.len() - 1;
        law_columns_follow_each_other(s, k);
        law_element_types();
        let e = s.entries[k];
        assert(cell_bytes(e) >= 1) by (nonlinear_arith)
            requires
                cell_bytes(e) == type_bytes(e.ty) * e.length as nat,
                type_bytes(e.ty) >= 1,
                e.length >= 1,
        ;
    }
}

/// A bank is over the given data and schema; it has as many rows as the data has row sizes, and
/// data that is not a whole number of rows makes no bank.
pub proof fn law_bank_over_data<'b>(
    schema: &'b Schema,
    data: &'b [u8],
    r: Result<Bank<'b>, HipoError>,
)
    requires
        call_ensures(Bank::<'b>::new, (schema, data), r),
    ensures
        (r is Ok) == (schema@.row_size == 0 || data@.len() % (schema@.row_size as nat) == 0),
        r matches Ok(b) ==> b@.schema == schema@ && b@.data == data@ && b@.lost.len() == 0
            && b@.rows == (if schema@.row_size == 0 {
            0
        } else {
            data@.len() / (schema@.row_size as nat)
        }),
{
}

/// Element `i` of a cell starts here in the data of a bank of `rows` rows: the columns before come
/// first, all their rows; then the rows of the column before `row`; then the elements before `i`.
pub open spec fn element_start(rows: nat, e: EntryView, row: int, i: int) -> int {
    rows * e.row_offset + row * cell_bytes(e) + i * type_bytes(e.ty)
}

/// `r` holds the elements of cell `row` of the column that `e` describes, byte for byte.
pub open spec fn cell_in_data<T: BankColumnType>(
    data: Seq<u8>,
    rows: nat,
    e: EntryView,
    row: int,
    r: T,
) -> bool {
    &&& r.elems().len() == e.length
    &&& forall|i: int|
        0 <= i < e.length ==> #[trigger] r.elems()[i] == <T::Scalar as BankScalarType>::decoded(
            data.subrange(
                element_start(rows, e, row, i),
                element_start(rows, e, row, i) + type_bytes(e.ty),
            ),
        )
}

/// Every element of the cell is zero.
pub open spec fn zeros<T: BankColumnType>(r: T) -> bool {
    &&& r.elems().len() == T::spec_length()
    &&& forall|i: int|
        0 <= i < r.elems().len() ==> #[trigger] r.elems()[i]
            == <T::Scalar as BankScalarType>::spec_zero()
}

/// Where an element of a cell lies.
proof fn lemma_element_place(b: BankState, col: int, row: int, i: int)
    requires
        b.whole(),
        0 <= col < b.schema.entries.len(),
        0 <= row < b.rows,
        0 <= i < b.schema.entries[col].length,
    ensures
        ({
            let e = b.schema.entries[col];
            let from = b.col_start(col) + row * e.width();
            let k = i * e.ty.spec_size();
            &&& 0 <= from
            &&& from + e.width() <= b.data.len()
            &&& 0 <= k
            &&& k + e.ty.spec_size() <= e.width()
            &&& e.ty.spec_size() == type_bytes(e.ty)
            &&& element_start(b.rows, e, row, i) == from + k
        }),
{
    let e = b.schema.entries[col];
    law_element_types();
    lemma_col_in_data(b, col);
    let w = e.width();
    let z = e.ty.spec_size();
    assert(z == type_bytes(e.ty));
    assert(w == cell_bytes(e));
    assert(b.col_start(col) <= b.col_start(col) + #[trigger] (row * w));
    assert(0 <= i * z && i * z + z <= w) by (nonlinear_arith)
        requires
            0 <= i < e.length,
            w == z * e.length as nat,
            z >= 0,
    ;
}

/// An element of a cell is the bytes of the data that it stands for.
proof fn lemma_element_in_data<S: BankScalarType>(b: BankState, col: int, row: int, i: int)
    requires
        b.whole(),
        0 <= col < b.schema.entries.len(),
        b.schema.entries[col].ty == S::spec_type(),
        0 <= row < b.rows,
        0 <= i < b.schema.entries[col].length,
    ensures
        b.cell_elems::<S>(col, row)[i] == S::decoded(
            b.data.subrange(
                element_start(b.rows, b.schema.entries[col], row, i),
                element_start(b.rows, b.schema.entries[col], row, i) + type_bytes(
                    b.schema.entries[col].ty,
                ),
            ),
        ),
{
    let e = b.schema.entries[col];
    let (w, z, k) = (e.width(), e.ty.spec_size(), i * e.ty.spec_size());
    let from = b.col_start(col) + row * w;
    lemma_element_place(b, col, row, i);
    let cell = b.data.subrange(from, from + w);
    assert(b.cell(col, row) == cell);
    assert(cell.subrange(k, k + z) =~= b.data.subrange(from + k, from + k + z));
}

/// The elements of a cell are the bytes of the data that they stand for.
proof fn lemma_elements_in_data<S: BankScalarType>(b: BankState, col: int, row: int)
    requires
        b.whole(),
        0 <= col < b.schema.entries.len(),
        b.schema.entries[col].ty == S::spec_type(),
        0 <= row < b.rows,
    ensures
        b.cell_elems::<S>(col, row).len() == b.schema.entries[col].length,
        forall|i: int|
            0 <= i < b.schema.entries[col].length ==> #[trigger] b.cell_elems::<S>(col, row)[i]
                == S::decoded(
                b.data.subrange(
                    element_start(b.rows, b.schema.entries[col], row, i),
                    element_start(b.rows, b.schema.entries[col], row, i) + type_bytes(
                        b.schema.entries[col].ty,
                    ),
                ),
            ),
{
    assert forall|i: int| 0 <= i < b.schema.entries[col].length implies #[trigger] b.cell_elems::<S>(
        col,
        row,
    )[i] == S::decoded(
        b.data.subrange(
            element_start(b.rows, b.schema.entries[col], row, i),
            element_start(b.rows, b.schema.entries[col], row, i) + type_bytes(
                b.schema.entries[col].ty,
            ),
        ),
    ) by {
        lemma_element_in_data::<S>(b, col, row, i);
    }
}

proof fn lemma_cell_in_data<T: BankColumnType>(b: BankState, col: int, row: int, r: T)
    requires
        b.whole(),
        fits::<T>(b.schema, col),
        0 <= row < b.rows,
        r.elems() == b.cell_elems::<T::Scalar>(col, row),
    ensures
        cell_in_data::<T>(b.data, b.rows, b.schema.entries[col], row, r),
{
    lemma_elements_in_data::<T::Scalar>(b, col, row);
}

/// One cell of a bank that is over `data`: its elements are those of the last column with the
/// name, in that row, least significant byte first.
pub proof fn law_cell_is_read<'b, T: BankColumnType>(
    bank: Bank<'b>,
    name: &str,
    row: u32,
    col: int,
    r: T,
)
    requires
        bank.inv(),
        call_ensures(Bank::<'b>::get::<T>, (&bank, name, row), r),
        last_named(bank@.schema.entries, name@, col),
        bank@.schema.entries[col].ty == scalar_type::<T>(),
        bank@.schema.entries[col].length == T::spec_length(),
        row < bank@.rows,
    ensures
        cell_in_data::<T>(bank@.data, bank@.rows, bank@.schema.entries[col], row as int, r),
{
    let s = bank@.schema;
    assert(s.is_column(name@, col));
    assert(s.entries[col].name == name@);
    assert(s.has_column(name@));
    let c = choose|c: int| #[trigger]
        s.is_column(name@, c) && crate::event::bank::is_cell_or_zero::<T>(
            bank@,
            c,
            row as int,
            r,
        );
    assert(c == col) by {
        if c < col {
            assert(s.entries[col].name != name@);
        } else if c > col {
            assert(s.entries[c].name != name@);
        }
    }
    lemma_cell_in_data::<T>(bank@, col, row as int, r);
}

/// A cell that is not there is zero: the bank has no column of the name, or the last one has
/// another type or length, or the bank has no such row.
pub proof fn law_missing_cell_is_zero<'b, T: BankColumnType>(
    bank: Bank<'b>,
    name: &str,
    row: u32,
    r: T,
)
    requires
        call_ensures(Bank::<'b>::get::<T>, (&bank, name, row), r),
        row >= bank@.rows || forall|c: int| #[trigger]
            last_named(bank@.schema.entries, name@, c) ==> bank@.schema.entries[c].ty
                != scalar_type::<T>() || bank@.schema.entries[c].length != T::spec_length(),
    ensures
        zeros::<T>(r),
{
    let s = bank@.schema;
    if s.has_column(name@) {
        let c = choose|c: int| #[trigger]
            s.is_column(name@, c) && crate::event::bank::is_cell_or_zero::<T>(
                bank@,
                c,
                row as int,
                r,
            );
        assert(last_named(s.entries, name@, c));
    }
}

/// A column is read whole exactly where the last column with the name has the wanted type and
/// length and was not lost; cell `row` of it is the cell of the data. Where it is not read whole,
/// the error says why.
pub proof fn law_column_is_read<'b, T: BankColumnType>(
    bank: Bank<'b>,
    name: &str,
    r: Result<Vec<T>, HipoError>,
)
    requires
        bank.inv(),
        call_ensures(Bank::<'b>::col::<T>, (&bank, name), r),
    ensures
        (r is Ok) == (exists|c: int| #[trigger]
            last_named(bank@.schema.entries, name@, c) && bank@.schema.entries[c].ty
                == scalar_type::<T>() && bank@.schema.entries[c].length == T::spec_length()
                && !bank@.lost.contains(c as usize)),
        r matches Ok(v) ==> v@.len() == bank@.rows && forall|c: int, row: int|
            #![trigger last_named(bank@.schema.entries, name@, c), v@[row]]
            last_named(bank@.schema.entries, name@, c) && 0 <= row < v@.len() ==> cell_in_data::<T>(
                bank@.data,
                bank@.rows,
                bank@.schema.entries[c],
                row,
                v@[row],
            ),
        (r matches Err(HipoError::UnknownColumn { .. })) == (forall|k: int|
            0 <= k < bank@.schema.entries.len() ==> (#[trigger] bank@.schema.entries[k]).name
                != name@),
{
    let s = bank@.schema;
    assert forall|a: int, b: int|
        #![trigger s.is_column(name@, a), s.is_column(name@, b)]
        s.is_column(name@, a) && s.is_column(name@, b) implies a == b by {
        if a < b {
            assert(s.entries[b].name != name@);
        } else if b < a {
            assert(s.entries[a].name != name@);
        }
    }
    assert forall|a: int| #[trigger] last_named(s.entries, name@, a) == s.is_column(name@, a) by {}
    match r {
        Ok(v) => {
            let c = choose|c: int| #[trigger]
                s.is_column(name@, c) && fits::<T>(s, c) && !bank@.lost.contains(c as usize)
                    && crate::event::bank::is_column_of::<T>(bank@, c, v@);
            assert(last_named(s.entries, name@, c));
            assert forall|d: int, row: int|
                #![trigger last_named(s.entries, name@, d), v@[row]]
                last_named(s.entries, name@, d) && 0 <= row < v@.len() implies cell_in_data::<T>(
                bank@.data,
                bank@.rows,
                s.entries[d],
                row,
                v@[row],
            ) by {
                assert(s.is_column(name@, d));
                lemma_cell_in_data::<T>(bank@, c, row, v@[row]);
            }
        },
        Err(e) => {
            if s.has_column(name@) {
                lemma_last_named(s.entries, name@, s.entries.len() as int);
            }
            assert forall|c: int| #[trigger] last_named(s.entries, name@, c) && s.entries[c].ty
                == scalar_type::<T>() && s.entries[c].length
                == T::spec_length() implies bank@.lost.contains(c as usize) by {
                assert(s.is_column(name@, c));
                assert(s.entries[c].name == name@);
                assert(s.has_column(name@));
            }
        },
    }
}

/// Where a name occurs, it occurs last somewhere.
proof fn lemma_last_named(entries: Seq<EntryView>, name: Seq<char>, n: int)
    requires
        0 <= n <= entries.len(),
        exists|k: int| 0 <= k < n && (#[trigger] entries[k]).name == name,
        forall|j: int| n <= j < entries.len() ==> (#[trigger] entries[j]).name != name,
    ensures
        exists|c: int| #[trigger] last_named(entries, name, c),
    decreases n,
{
    if entries[n - 1].name == name {
        assert(last_named(entries, name, n - 1));
    } else {
        lemma_last_named(entries, name, n - 1);
    }
}

/// A read through a handle is a read of the column that the handle points at, cell by cell, and
/// the same as the reads of its single cells.
pub proof fn law_handle_reads_its_column<'b, T: BankColumnType>(
    bank: Bank<'b>,
    h: ColumnHandle<T>,
    all: Vec<T>,
    row: u32,
    one: T,
)
    requires
        bank.inv(),
        fits::<T>(bank@.schema, h@),
        h@ < u16::MAX,
        call_ensures(Bank::<'b>::read::<T>, (&bank, h), all),
        call_ensures(Bank::<'b>::read_handle_or_default::<T>, (&bank, h, row), one),
    ensures
        all@.len() == bank@.rows,
        row < bank@.rows ==> one.elems() == all@[row as int].elems() && cell_in_data::<T>(
            bank@.data,
            bank@.rows,
            bank@.schema.entries[h@],
            row as int,
            one,
        ),
        row >= bank@.rows ==> zeros::<T>(one),
{
    if row < bank@.rows {
        lemma_cell_in_data::<T>(bank@, h@, row as int, one);
    }
}

/// One row of an array column holds the elements of the row, in order.
pub proof fn law_array_row_is_read<'b, S: BankScalarType>(
    bank: Bank<'b>,
    name: &str,
    row: u32,
    col: int,
    r: Result<Vec<S>, HipoError>,
)
    requires
        bank.inv(),
        call_ensures(Bank::<'b>::array_at::<S>, (&bank, name, row), r),
        last_named(bank@.schema.entries, name@, col),
    ensures
        (r is Ok) == (bank@.schema.entries[col].ty == S::spec_type() && row < bank@.rows
            && !bank@.lost.contains(col as usize)),
        r matches Ok(v) ==> v@.len() == bank@.schema.entries[col].length && forall|i: int|
            0 <= i < v@.len() ==> #[trigger] v@[i] == S::decoded(
                bank@.data.subrange(
                    element_start(bank@.rows, bank@.schema.entries[col], row as int, i),
                    element_start(bank@.rows, bank@.schema.entries[col], row as int, i)
                        + type_bytes(bank@.schema.entries[col].ty),
                ),
            ),
{
    let s = bank@.schema;
    assert(s.is_column(name@, col));
    assert(s.entries[col].name == name@);
    assert(s.has_column(name@));
    assert forall|c: int| #[trigger] s.is_column(name@, c) implies c == col by {
        if c < col {
            assert(s.entries[col].name != name@);
        } else if c > col {
            assert(s.entries[c].name != name@);
        }
    }
    if let Ok(v) = r {
        assert(v@ == bank@.cell_elems::<S>(col, row as int));
        lemma_elements_in_data::<S>(bank@, col, row as int);
    }
}

/// The bytes of a column are those of all its rows, where the column lies in the data.
pub proof fn law_column_bytes<'b>(bank: Bank<'b>, col: usize, r: &[u8])
    requires
        bank.inv(),
        col < bank@.schema.entries.len(),
        bank@.rows > 0,
        call_ensures(Bank::<'b>::col_bytes, (&bank, col), r),
    ensures
        r@ == bank@.data.subrange(
            element_start(bank@.rows, bank@.schema.entries[col as int], 0, 0),
            element_start(
                bank@.rows,
                bank@.schema.entries[col as int],
                bank@.rows as int,
                0,
            ),
        ),
{
    law_element_types();
    lemma_col_in_data(bank@, col as int);
    let e = bank@.schema.entries[col as int];
    assert(e.width() == cell_bytes(e));
    assert(0 * cell_bytes(e) == 0) by (nonlinear_arith);
    assert(bank@.col_start(col as int) == bank@.rows * e.row_offset);
}

} // verus!
