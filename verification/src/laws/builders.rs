//! Builders: what setting a cell, pushing rows and finishing do to the bytes.

use vstd::prelude::*;
use crate::error::HipoError;
use crate::event::builders::{BankBuilder, EventBuilder};
#[allow(unused_imports)]
use crate::event::builders::{
    array_set, array_unset, encoded_all, lemma_encoded_all_len, lemma_the_column,
    lemma_with_cell_wf, scalar_set, scalar_unset, BuilderView,
};
#[allow(unused_imports)]
use crate::laws::banks::{cell_bytes, last_named};
#[allow(unused_imports)]
use crate::laws::bytes::{law_element_types, law_le32_bytes, law_le16_bytes};
#[allow(unused_imports)]
use crate::laws::headers::four;
#[allow(unused_imports)]
use crate::schema::handle::{BankScalarType, Float32, Float64};
#[allow(unused_imports)]
use crate::schema::types::{DataType, EntryView};
use crate::schema::types::Schema;
#[allow(unused_imports)]
use crate::wire::bytes::le32;

verus! {

/// Cell `row` of column `col` holds `bytes` after a change, and every other byte of every column is
/// what it was before.
pub open spec fn only_cell_set(
    before: BuilderView,
    after: BuilderView,
    col: int,
    row: int,
    bytes: Seq<u8>,
) -> bool {
    let from = row * cell_bytes(before.schema.entries[col]);
    &&& after.rows == before.rows
    &&& after.schema == before.schema
    &&& after.columns.len() == before.columns.len()
    &&& forall|c: int| 0 <= c < before.columns.len() ==> (#[trigger] after.columns[c]).len() == before.columns[c].len()
    &&& from + bytes.len() <= after.columns[col].len()
    &&& forall|k: int|
        0 <= k < bytes.len() ==> after.columns[col][from + k] == #[trigger] bytes[k]
    &&& forall|k: int|
        0 <= k < after.columns[col].len() && !(from <= k < from + bytes.len())
            ==> #[trigger] after.columns[col][k] == before.columns[col][k]
    &&& forall|c: int|
        0 <= c < before.columns.len() && c != col ==> #[trigger] after.columns[c]
            == before.columns[c]
}

/// No column has this name.
pub open spec fn unnamed(entries: Seq<EntryView>, name: Seq<char>) -> bool {
    forall|c: int| 0 <= c < entries.len() ==> (#[trigger] entries[c]).name != name
}

proof fn lemma_cell_set(b: BuilderView, col: int, row: int, bytes: Seq<u8>)
    requires
        b.wf(),
        0 <= col < b.columns.len(),
        0 <= row < b.rows,
        bytes.len() == b.schema.entries[col].width(),
    ensures
        only_cell_set(b, b.with_cell(col, row, bytes), col, row, bytes),
{
    law_element_types();
    lemma_with_cell_wf(b, col, row, bytes);
    let a = b.with_cell(col, row, bytes);
    let w = cell_bytes(b.schema.entries[col]);
    assert(w == b.schema.entries[col].width());
    let from = row * w;
    assert(a.columns[col] == crate::wire::bytes::spliced(b.columns[col], from, bytes));
}

/// What setting a scalar does, once the column of its name is known.
proof fn lemma_scalar<S: BankScalarType>(
    b: BuilderView,
    name: Seq<char>,
    row: int,
    value: S,
    ok: bool,
    err: HipoError,
    after: BuilderView,
    col: int,
)
    requires
        b.wf(),
        row >= 0,
        ok ==> scalar_set::<S>(b, name, row, value, after),
        !ok ==> scalar_unset::<S>(b, name, row, err),
    ensures
        unnamed(b.schema.entries, name) ==> !ok,
        last_named(b.schema.entries, name, col) ==> {
            let e = b.schema.entries[col];
            &&& ok == (e.ty == S::spec_type() && e.length == 1 && row < b.rows)
            &&& ok ==> only_cell_set(b, after, col, row, value.encoded())
        },
{
    let s = b.schema;
    if last_named(s.entries, name, col) {
        assert(s.is_column(name, col));
        lemma_the_column(s, name, col);
        if ok {
            value.law_element_round_trip();
            lemma_cell_set(b, col, row, value.encoded());
        }
    }
    if unnamed(s.entries, name) {
        assert(!s.has_column(name));
    }
}

/// What setting an array does, once the column of its name is known.
proof fn lemma_array<S: BankScalarType>(
    b: BuilderView,
    name: Seq<char>,
    row: int,
    values: Seq<S>,
    ok: bool,
    err: HipoError,
    after: BuilderView,
    col: int,
)
    requires
        b.wf(),
        row >= 0,
        ok ==> array_set::<S>(b, name, row, values, after),
        !ok ==> array_unset::<S>(b, name, row, values, err),
    ensures
        unnamed(b.schema.entries, name) ==> !ok,
        last_named(b.schema.entries, name, col) ==> {
            let e = b.schema.entries[col];
            &&& ok == (e.ty == S::spec_type() && e.length == values.len() && row < b.rows)
            &&& ok ==> only_cell_set(b, after, col, row, encoded_all(values))
        },
{
    let s = b.schema;
    if last_named(s.entries, name, col) {
        assert(s.is_column(name, col));
        lemma_the_column(s, name, col);
        if ok {
            lemma_encoded_all_len(values);
            let z = S::spec_type().spec_size();
            let l = s.entries[col].length as int;
            assert(values.len() * z == z * values.len()) by (nonlinear_arith);
            lemma_cell_set(b, col, row, encoded_all(values));
        }
    }
    if unnamed(s.entries, name) {
        assert(!s.has_column(name));
    }
}

/// The bytes of a row of elements are those of the elements, one after the other.
pub proof fn law_elements_follow_each_other<S: BankScalarType>(values: Seq<S>, i: int)
    requires
        0 <= i < values.len(),
    ensures
        ({
            let z = S::spec_type().spec_size();
            &&& encoded_all(values).len() == values.len() * z
            &&& encoded_all(values).subrange(i * z, i * z + z) == values[i].encoded()
        }),
    decreases values.len(),
{
    let z = S::spec_type().spec_size();
    let front = values.drop_last();
    let n = values.len() - 1;
    lemma_encoded_all_len(values);
    lemma_encoded_all_len(front);
    values[i].law_element_round_trip();
    values[n].law_element_round_trip();
    if i < n {
        law_elements_follow_each_other(front, i);
        assert(i * z + z <= n * z && i * z >= 0) by (nonlinear_arith)
            requires
                0 <= i < n,
                z >= 0,
        ;
        assert(encoded_all(values).subrange(i * z, i * z + z) =~= encoded_all(front).subrange(
            i * z,
            i * z + z,
        ));
    } else {
        assert(encoded_all(values).subrange(i * z, i * z + z) =~= values[i].encoded());
    }
}

/// Setting a cell to a 32-bit number succeeds exactly where the last column of the name is of that type, has
/// one element per cell, and there is such a row. It then changes the bytes of that cell, and of no
/// other; where it fails, nothing changes. Without a row number it is the last row.
pub proof fn law_set_i32<'s, 'b>(
    b: &'b mut BankBuilder<'s>,
    name: &str,
    row: u32,
    value: i32,
    r: Result<&'b mut BankBuilder<'s>, HipoError>,
    col: int,
)
    requires
        old(b)@.wf(),
        call_ensures(BankBuilder::<'s>::set_i32_at, (b, name, row, value), r) || (row
            == old(b)@.rows - 1 && call_ensures(BankBuilder::<'s>::set_i32, (b, name, value), r)),
    ensures
        unnamed(old(b)@.schema.entries, name@) ==> r is Err,
        last_named(old(b)@.schema.entries, name@, col) ==> {
            let e = old(b)@.schema.entries[col];
            &&& (r is Ok) == (e.ty == DataType::Int && e.length == 1 && row < old(b)@.rows)
            &&& r matches Ok(x) ==> only_cell_set(
                old(b)@,
                x@,
                col,
                row as int,
                value.encoded(),
            )
        },
        r is Err ==> final(b)@ == old(b)@,
{
    law_element_types();
    let (err, after) = match r {
        Ok(x) => (HipoError::UnknownCompression(0), x@),
        Err(e) => (e, old(b)@),
    };
    lemma_scalar::<i32>(old(b)@, name@, row as int, value, r is Ok, err, after, col);
}

/// Setting a cell to a 64-bit number succeeds exactly where the last column of the name is of that type, has
/// one element per cell, and there is such a row. It then changes the bytes of that cell, and of no
/// other; where it fails, nothing changes. Without a row number it is the last row.
pub proof fn law_set_i64<'s, 'b>(
    b: &'b mut BankBuilder<'s>,
    name: &str,
    row: u32,
    value: i64,
    r: Result<&'b mut BankBuilder<'s>, HipoError>,
    col: int,
)
    requires
        old(b)@.wf(),
        call_ensures(BankBuilder::<'s>::set_i64_at, (b, name, row, value), r) || (row
            == old(b)@.rows - 1 && call_ensures(BankBuilder::<'s>::set_i64, (b, name, value), r)),
    ensures
        unnamed(old(b)@.schema.entries, name@) ==> r is Err,
        last_named(old(b)@.schema.entries, name@, col) ==> {
            let e = old(b)@.schema.entries[col];
            &&& (r is Ok) == (e.ty == DataType::Long && e.length == 1 && row < old(b)@.rows)
            &&& r matches Ok(x) ==> only_cell_set(
                old(b)@,
                x@,
                col,
                row as int,
                value.encoded(),
            )
        },
        r is Err ==> final(b)@ == old(b)@,
{
    law_element_types();
    let (err, after) = match r {
        Ok(x) => (HipoError::UnknownCompression(0), x@),
        Err(e) => (e, old(b)@),
    };
    lemma_scalar::<i64>(old(b)@, name@, row as int, value, r is Ok, err, after, col);
}

/// Setting a cell to a 16-bit number succeeds exactly where the last column of the name is of that type, has
/// one element per cell, and there is such a row. It then changes the bytes of that cell, and of no
/// other; where it fails, nothing changes. Without a row number it is the last row.
pub proof fn law_set_i16<'s, 'b>(
    b: &'b mut BankBuilder<'s>,
    name: &str,
    row: u32,
    value: i16,
    r: Result<&'b mut BankBuilder<'s>, HipoError>,
    col: int,
)
    requires
        old(b)@.wf(),
        call_ensures(BankBuilder::<'s>::set_i16_at, (b, name, row, value), r) || (row
            == old(b)@.rows - 1 && call_ensures(BankBuilder::<'s>::set_i16, (b, name, value), r)),
    ensures
        unnamed(old(b)@.schema.entries, name@) ==> r is Err,
        last_named(old(b)@.schema.entries, name@, col) ==> {
            let e = old(b)@.schema.entries[col];
            &&& (r is Ok) == (e.ty == DataType::Short && e.length == 1 && row < old(b)@.rows)
            &&& r matches Ok(x) ==> only_cell_set(
                old(b)@,
                x@,
                col,
                row as int,
                value.encoded(),
            )
        },
        r is Err ==> final(b)@ == old(b)@,
{
    law_element_types();
    let (err, after) = match r {
        Ok(x) => (HipoError::UnknownCompression(0), x@),
        Err(e) => (e, old(b)@),
    };
    lemma_scalar::<i16>(old(b)@, name@, row as int, value, r is Ok, err, after, col);
}

/// Setting a cell to a byte succeeds exactly where the last column of the name is of that type, has
/// one element per cell, and there is such a row. It then changes the bytes of that cell, and of no
/// other; where it fails, nothing changes. Without a row number it is the last row.
pub proof fn law_set_i8<'s, 'b>(
    b: &'b mut BankBuilder<'s>,
    name: &str,
    row: u32,
    value: i8,
    r: Result<&'b mut BankBuilder<'s>, HipoError>,
    col: int,
)
    requires
        old(b)@.wf(),
        call_ensures(BankBuilder::<'s>::set_i8_at, (b, name, row, value), r) || (row
            == old(b)@.rows - 1 && call_ensures(BankBuilder::<'s>::set_i8, (b, name, value), r)),
    ensures
        unnamed(old(b)@.schema.entries, name@) ==> r is Err,
        last_named(old(b)@.schema.entries, name@, col) ==> {
            let e = old(b)@.schema.entries[col];
            &&& (r is Ok) == (e.ty == DataType::Byte && e.length == 1 && row < old(b)@.rows)
            &&& r matches Ok(x) ==> only_cell_set(
                old(b)@,
                x@,
                col,
                row as int,
                value.encoded(),
            )
        },
        r is Err ==> final(b)@ == old(b)@,
{
    law_element_types();
    let (err, after) = match r {
        Ok(x) => (HipoError::UnknownCompression(0), x@),
        Err(e) => (e, old(b)@),
    };
    lemma_scalar::<i8>(old(b)@, name@, row as int, value, r is Ok, err, after, col);
}

/// Setting a cell to a single succeeds exactly where the last column of the name is of that type, has
/// one element per cell, and there is such a row. It then changes the bytes of that cell, and of no
/// other; where it fails, nothing changes. Without a row number it is the last row.
pub proof fn law_set_f32<'s, 'b>(
    b: &'b mut BankBuilder<'s>,
    name: &str,
    row: u32,
    value: Float32,
    r: Result<&'b mut BankBuilder<'s>, HipoError>,
    col: int,
)
    requires
        old(b)@.wf(),
        call_ensures(BankBuilder::<'s>::set_f32_at, (b, name, row, value), r) || (row
            == old(b)@.rows - 1 && call_ensures(BankBuilder::<'s>::set_f32, (b, name, value), r)),
    ensures
        unnamed(old(b)@.schema.entries, name@) ==> r is Err,
        last_named(old(b)@.schema.entries, name@, col) ==> {
            let e = old(b)@.schema.entries[col];
            &&& (r is Ok) == (e.ty == DataType::Float && e.length == 1 && row < old(b)@.rows)
            &&& r matches Ok(x) ==> only_cell_set(
                old(b)@,
                x@,
                col,
                row as int,
                value.encoded(),
            )
        },
        r is Err ==> final(b)@ == old(b)@,
{
    law_element_types();
    let (err, after) = match r {
        Ok(x) => (HipoError::UnknownCompression(0), x@),
        Err(e) => (e, old(b)@),
    };
    lemma_scalar::<Float32>(old(b)@, name@, row as int, value, r is Ok, err, after, col);
}

/// Setting a cell to a double succeeds exactly where the last column of the name is of that type, has
/// one element per cell, and there is such a row. It then changes the bytes of that cell, and of no
/// other; where it fails, nothing changes. Without a row number it is the last row.
pub proof fn law_set_f64<'s, 'b>(
    b: &'b mut BankBuilder<'s>,
    name: &str,
    row: u32,
    value: Float64,
    r: Result<&'b mut BankBuilder<'s>, HipoError>,
    col: int,
)
    requires
        old(b)@.wf(),
        call_ensures(BankBuilder::<'s>::set_f64_at, (b, name, row, value), r) || (row
            == old(b)@.rows - 1 && call_ensures(BankBuilder::<'s>::set_f64, (b, name, value), r)),
    ensures
        unnamed(old(b)@.schema.entries, name@) ==> r is Err,
        last_named(old(b)@.schema.entries, name@, col) ==> {
            let e = old(b)@.schema.entries[col];
            &&& (r is Ok) == (e.ty == DataType::Double && e.length == 1 && row < old(b)@.rows)
            &&& r matches Ok(x) ==> only_cell_set(
                old(b)@,
                x@,
                col,
                row as int,
                value.encoded(),
            )
        },
        r is Err ==> final(b)@ == old(b)@,
{
    law_element_types();
    let (err, after) = match r {
        Ok(x) => (HipoError::UnknownCompression(0), x@),
        Err(e) => (e, old(b)@),
    };
    lemma_scalar::<Float64>(old(b)@, name@, row as int, value, r is Ok, err, after, col);
}

/// Setting a cell to an array succeeds exactly where the last column of the name holds elements of
/// its type, as many per cell as the array has, and there is such a row. It then changes the bytes
/// of that cell, and of no other; where it fails, nothing changes.
pub proof fn law_set_array<'s, 'b, S: BankScalarType>(
    b: &'b mut BankBuilder<'s>,
    name: &str,
    row: u32,
    values: &[S],
    r: Result<&'b mut BankBuilder<'s>, HipoError>,
    col: int,
)
    requires
        old(b)@.wf(),
        call_ensures(BankBuilder::<'s>::set_array_at::<S>, (b, name, row, values), r) || (row
            == old(b)@.rows - 1 && call_ensures(
            BankBuilder::<'s>::set_array::<S>,
            (b, name, values),
            r,
        )),
    ensures
        unnamed(old(b)@.schema.entries, name@) ==> r is Err,
        last_named(old(b)@.schema.entries, name@, col) ==> {
            let e = old(b)@.schema.entries[col];
            &&& (r is Ok) == (e.ty == S::spec_type() && e.length == values@.len() && row
                < old(b)@.rows)
            &&& r matches Ok(x) ==> only_cell_set(
                old(b)@,
                x@,
                col,
                row as int,
                encoded_all(values@),
            )
        },
        r is Err ==> final(b)@ == old(b)@,
{
    let (err, after) = match r {
        Ok(x) => (HipoError::UnknownCompression(0), x@),
        Err(e) => (e, old(b)@),
    };
    lemma_array::<S>(old(b)@, name@, row as int, values@, r is Ok, err, after, col);
}

proof fn lemma_rows_are_zero(b: BuilderView, n: nat, c: int, k: int)
    requires
        b.wf(),
        0 <= c < b.columns.len(),
    ensures
        ({
            let a = b.with_rows(n);
            let w = cell_bytes(b.schema.entries[c]);
            &&& a.rows == b.rows + n
            &&& a.schema == b.schema
            &&& a.columns.len() == b.columns.len()
            &&& a.columns[c].len() == b.columns[c].len() + n * w
            &&& 0 <= k < b.columns[c].len() ==> a.columns[c][k] == b.columns[c][k]
            &&& b.columns[c].len() <= k < a.columns[c].len() ==> a.columns[c][k] == 0
        }),
    decreases n,
{
    law_element_types();
    let w = cell_bytes(b.schema.entries[c]);
    assert(w == b.schema.entries[c].width());
    if n > 0 {
        lemma_rows_are_zero(b, (n - 1) as nat, c, k);
        assert((n - 1) * w + w == n * w) by (nonlinear_arith);
    } else {
        assert(0 * w == 0) by (nonlinear_arith);
    }
}

/// Pushing rows adds that many rows of zeros at the end of every column, and keeps what was there.
pub proof fn law_rows_are_pushed<'s, 'b>(
    b: &'b mut BankBuilder<'s>,
    n: u32,
    r: &'b mut BankBuilder<'s>,
    c: int,
    k: int,
)
    requires
        old(b)@.wf(),
        call_ensures(BankBuilder::<'s>::push_rows, (b, n), r) || (n == 1 && call_ensures(
            BankBuilder::<'s>::push_row,
            (b,),
            r,
        )),
        0 <= c < old(b)@.columns.len(),
    ensures
        ({
            let w = cell_bytes(old(b)@.schema.entries[c]);
            &&& old(r)@.rows == old(b)@.rows + n
            &&& old(r)@.schema == old(b)@.schema
            &&& old(r)@.columns.len() == old(b)@.columns.len()
            &&& old(r)@.columns[c].len() == old(b)@.columns[c].len() + n * w
            &&& 0 <= k < old(b)@.columns[c].len() ==> old(r)@.columns[c][k] == old(b)@.columns[c][k]
            &&& old(b)@.columns[c].len() <= k < old(r)@.columns[c].len() ==> old(r)@.columns[c][k] == 0
        }),
{
    lemma_rows_are_zero(old(b)@, n as nat, c, k);
    if n == 1 {
        reveal_with_fuel(BuilderView::with_rows, 3);
    }
}

/// A fresh builder has the schema's columns and no rows; so has one that was reset.
pub proof fn law_builder_starts_empty<'s, 'b>(
    schema: &'s Schema,
    r: BankBuilder<'s>,
    b: &'b mut BankBuilder<'s>,
    rows: u32,
    empty: bool,
)
    requires
        call_ensures(BankBuilder::<'s>::new, (schema,), r),
        old(b)@.wf(),
        call_ensures(BankBuilder::<'s>::reset, (b,), ()),
        call_ensures(BankBuilder::<'s>::rows, (&r,), rows),
        call_ensures(BankBuilder::<'s>::is_empty, (&r,), empty),
    ensures
        r@.schema == schema@ && r@.rows == 0 && r@.columns.len() == schema@.entries.len(),
        rows == 0 && empty,
        forall|c: int| 0 <= c < r@.columns.len() ==> (#[trigger] r@.columns[c]).len() == 0,
        final(b)@.schema == old(b)@.schema && final(b)@.rows == 0,
        forall|c: int| 0 <= c < final(b)@.columns.len() ==> (#[trigger] final(b)@.columns[c]).len() == 0,
{
}

/// A number of four bytes after bytes that end where it starts.
proof fn lemma_four_of(s: Seq<u8>, i: int, v: u32)
    requires
        s[i] == le32(v)[0] && s[i + 1] == le32(v)[1] && s[i + 2] == le32(v)[2] && s[i + 3]
            == le32(v)[3],
    ensures
        four(s, i, false) == v,
{
    law_le32_bytes(v);
    reveal(four);
}

/// All columns of a builder, one after the other.
pub open spec fn joined(columns: Seq<Seq<u8>>) -> Seq<u8>
    decreases columns.len(),
{
    if columns.len() == 0 {
        Seq::empty()
    } else {
        joined(columns.drop_last()) + columns.last()
    }
}

proof fn lemma_joined(columns: Seq<Seq<u8>>)
    ensures
        joined(columns) == crate::seqs::concat(columns),
    decreases columns.len(),
{
    if columns.len() > 0 {
        lemma_joined(columns.drop_last());
        crate::seqs::lemma_concat_step(columns, columns.len() - 1);
        assert(columns.subrange(0, columns.len() - 1) =~= columns.drop_last());
        assert(columns.subrange(0, columns.len() as int) =~= columns);
    }
}

/// A finished bank is group, item, type 11, the length of its data, and the columns one after the
/// other; it is refused where the data is 16 MiB or more.
pub proof fn law_bank_is_finished<'s>(b: BankBuilder<'s>, r: Result<Vec<u8>, HipoError>)
    requires
        call_ensures(BankBuilder::<'s>::finish, (b,), r),
    ensures
        (r is Ok) == (joined(b@.columns).len() < 0x100_0000),
        r matches Ok(v) ==> {
            let s = v@;
            let data = joined(b@.columns);
            &&& s.len() == 8 + data.len()
            &&& s[0] + s[1] * 0x100 == b@.schema.group
            &&& s[2] == b@.schema.item
            &&& s[3] == 11
            &&& four(s, 4, false) == data.len()
            &&& s.subrange(8, s.len() as int) == data
        },
{
    lemma_joined(b@.columns);
    if let Ok(v) = r {
        let s = v@;
        let data = joined(b@.columns);
        law_le16_bytes(b@.schema.group);
        law_le32_bytes(data.len() as u32);
        assert(s == b@.structure());
        assert(s[4] == le32(data.len() as u32)[0]);
        assert(s[5] == le32(data.len() as u32)[1]);
        assert(s[6] == le32(data.len() as u32)[2]);
        assert(s[7] == le32(data.len() as u32)[3]);
        lemma_four_of(s, 4, data.len() as u32);
        assert(s.subrange(8, s.len() as int) =~= data);
    }
}

/// A finished event is the letters `EVNT`, its length, its tag and four bytes of zero, and then the
/// structures that it was given.
pub proof fn law_event_is_finished(b: EventBuilder, out: Vec<u8>)
    requires
        call_ensures(EventBuilder::finish, (b,), out),
        16 + b@.structures.len() <= u32::MAX,
    ensures
        out@.len() == 16 + b@.structures.len(),
        out@[0] == 0x45 && out@[1] == 0x56 && out@[2] == 0x4e && out@[3] == 0x54,
        four(out@, 4, false) == out@.len(),
        four(out@, 8, false) == b@.tag,
        four(out@, 12, false) == 0,
        out@.subrange(16, out@.len() as int) == b@.structures,
{
    lemma_event_bytes(b@.structures, b@.tag);
}

/// The bytes of an event that is put together.
pub(crate) proof fn lemma_event_bytes(structures: Seq<u8>, tag: u32)
    requires
        16 + structures.len() <= u32::MAX,
    ensures
        ({
            let s = (crate::event::builders::EventBuilderView { structures, tag }).event();
            &&& s.len() == 16 + structures.len()
            &&& s[0] == 0x45 && s[1] == 0x56 && s[2] == 0x4e && s[3] == 0x54
            &&& four(s, 4, false) == s.len()
            &&& four(s, 8, false) == tag
            &&& four(s, 12, false) == 0
            &&& s.subrange(16, s.len() as int) == structures
        }),
{
    let s = (crate::event::builders::EventBuilderView { structures, tag }).event();
    let n = (16 + structures.len()) as u32;
    law_le32_bytes(n);
    law_le32_bytes(tag);
    law_le32_bytes(0);
    assert(s[4] == le32(n)[0] && s[5] == le32(n)[1] && s[6] == le32(n)[2] && s[7] == le32(n)[3]);
    assert(s[8] == le32(tag)[0] && s[9] == le32(tag)[1]);
    assert(s[10] == le32(tag)[2] && s[11] == le32(tag)[3]);
    assert(s[12] == le32(0)[0] && s[13] == le32(0)[1]);
    assert(s[14] == le32(0)[2] && s[15] == le32(0)[3]);
    lemma_four_of(s, 4, n);
    lemma_four_of(s, 8, tag);
    lemma_four_of(s, 12, 0);
    assert(s.subrange(16, s.len() as int) =~= structures);
}

/// What is added to an event stands behind what it has: the bytes of a bank, or those that a
/// builder finishes with. A bank that is refused changes nothing.
pub proof fn law_banks_are_added<'s, 'b>(
    e: &'b mut EventBuilder,
    bank: BankBuilder<'s>,
    r: Result<&'b mut EventBuilder, HipoError>,
    f: Result<Vec<u8>, HipoError>,
)
    requires
        call_ensures(EventBuilder::add, (e, bank), r) || call_ensures(
            EventBuilder::add_bank,
            (e, &bank),
            r,
        ),
        call_ensures(BankBuilder::<'s>::finish, (bank,), f),
    ensures
        (r is Ok) == (f is Ok),
        r matches Ok(x) ==> f matches Ok(v) && x@.structures == old(e)@.structures + v@ && x@.tag
            == old(e)@.tag,
        r is Err ==> final(e)@ == old(e)@,
{
}

/// The tag of an event is the one it was given last, and raw bytes are added as they are.
pub proof fn law_event_builder_parts<'b>(
    e: EventBuilder,
    tag: u32,
    tagged: EventBuilder,
    t: u32,
    m: &'b mut EventBuilder,
    bytes: &[u8],
    r: &'b mut EventBuilder,
    fresh: EventBuilder,
)
    requires
        call_ensures(EventBuilder::with_tag, (e, tag), tagged),
        call_ensures(EventBuilder::tag, (&tagged,), t),
        call_ensures(EventBuilder::add_bank_bytes, (m, bytes), r),
        call_ensures(EventBuilder::new, (), fresh),
    ensures
        t == tag,
        tagged@.structures == e@.structures,
        old(r)@.structures == old(m)@.structures + bytes@,
        old(r)@.tag == old(m)@.tag,
        fresh@.structures.len() == 0 && fresh@.tag == 0,
{
}

/// Setting a column of the last row to a value succeeds exactly where there is a row and the last
/// column of the name holds elements of the value's type, as many per cell as the value has. It then
/// changes the bytes of that cell, and of no other; where it fails, nothing changes.
pub proof fn law_row_is_set<'a, 'b, T: crate::schema::handle::BankColumnType>(
    w: &'b mut crate::write::row::RowWriter<'a>,
    name: &str,
    value: T,
    r: Result<&'b mut crate::write::row::RowWriter<'a>, HipoError>,
    col: int,
)
    requires
        old(w)@.wf(),
        call_ensures(crate::write::row::RowWriter::<'a>::set::<T>, (w, name, value), r),
    ensures
        unnamed(old(w)@.schema.entries, name@) ==> r is Err,
        last_named(old(w)@.schema.entries, name@, col) ==> {
            let e = old(w)@.schema.entries[col];
            &&& (r is Ok) == (old(w)@.rows > 0 && e.ty == <T::Scalar as BankScalarType>::spec_type()
                && e.length == value.elems().len())
            &&& r matches Ok(x) ==> only_cell_set(
                old(w)@,
                x@,
                col,
                old(w)@.rows - 1,
                encoded_all(value.elems()),
            )
        },
        r is Err ==> final(w)@ == old(w)@,
{
    let b = old(w)@;
    if b.rows > 0 {
        let (err, after) = match r {
            Ok(x) => (HipoError::UnknownCompression(0), x@),
            Err(e) => (e, b),
        };
        lemma_array::<T::Scalar>(
            b,
            name@,
            b.rows - 1,
            value.elems(),
            r is Ok,
            err,
            after,
            col,
        );
    }
}

} // verus!
