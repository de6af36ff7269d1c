//! `Bank<'b>`: a typed view over a column-major data buffer.
//!
//! A bank is the rows of one structure inside an event, paired with a [`Schema`]. Its data
//! section stores columns contiguously: all rows of column 0, then all rows of column 1, and
//! so on.

use vstd::prelude::*;
use vstd::slice::slice_subrange;
use crate::error::{HipoError, Result};
use crate::schema::handle::{BankColumnType, BankScalarType, ColumnHandle};
#[allow(unused_imports)]
use crate::schema::handle::{fits, scalar_type};
use crate::schema::types::Schema;
#[allow(unused_imports)]
use crate::schema::types::{lemma_widths_monotone, widths, SchemaView};
use crate::text::owned;

verus! {

/// What a bank says.
#[verifier::ext_equal]
pub struct BankState {
    pub schema: SchemaView,
    pub data: Seq<u8>,
    pub rows: nat,
    /// The columns that could not be read: their cells in `data` are zeros.
    pub lost: Seq<usize>,
}

/// The elements that `n * size` bytes encode.
pub open spec fn elements<S: BankScalarType>(bytes: Seq<u8>, n: nat) -> Seq<S> {
    Seq::new(
        n,
        |k: int|
            S::decoded(
                bytes.subrange(
                    k * S::spec_type().spec_size(),
                    k * S::spec_type().spec_size() + S::spec_type().spec_size(),
                ),
            ),
    )
}

impl BankState {
    /// Every row has room: the columns, one after the other, lie within the data.
    pub open spec fn whole(self) -> bool {
        &&& self.schema.laid_out()
        &&& self.rows <= u32::MAX
        &&& self.data.len() <= u32::MAX
        &&& self.rows > 0 ==> {
            &&& widths(self.schema.entries, self.schema.entries.len()) <= u32::MAX
            &&& self.rows * widths(self.schema.entries, self.schema.entries.len())
                <= self.data.len()
        }
    }

    /// Where column `col` starts.
    pub open spec fn col_start(self, col: int) -> int {
        (self.rows * widths(self.schema.entries, col as nat)) as int
    }

    /// The bytes of column `col`.
    pub open spec fn col_data(self, col: int) -> Seq<u8> {
        self.data.subrange(
            self.col_start(col),
            self.col_start(col) + self.rows * self.schema.entries[col].width(),
        )
    }

    /// The bytes of cell `(col, row)`.
    pub open spec fn cell(self, col: int, row: int) -> Seq<u8> {
        self.data.subrange(
            self.col_start(col) + row * self.schema.entries[col].width(),
            self.col_start(col) + row * self.schema.entries[col].width()
                + self.schema.entries[col].width(),
        )
    }

    /// The elements of cell `(col, row)`.
    pub open spec fn cell_elems<S: BankScalarType>(self, col: int, row: int) -> Seq<S> {
        elements::<S>(self.cell(col, row), self.schema.entries[col].length as nat)
    }

    /// The bank that `data` holds for `schema`, where its length is a whole number of rows.
    pub open spec fn of(schema: SchemaView, data: Seq<u8>) -> Option<BankState> {
        if schema.row_size == 0 {
            Some(BankState { schema, data, rows: 0, lost: Seq::empty() })
        } else if data.len() % (schema.row_size as nat) != 0 {
            None
        } else {
            Some(
                BankState {
                    schema,
                    data,
                    rows: data.len() / (schema.row_size as nat),
                    lost: Seq::empty(),
                },
            )
        }
    }
}

/// `n` rows of `w` bytes are as long as they say.
proof fn lemma_rows_exact(len: int, w: int)
    by (nonlinear_arith)
    requires
        w > 0,
        len >= 0,
        len % w == 0,
    ensures
        (len / w) * w == len,
        len / w >= 0,
        len / w <= len,
{
}

/// A bank may have this many bytes. A row whose width goes past what a row size can say leaves no
/// room for a full `u32::MAX`: the row size would pass for the width.
pub open spec fn bank_fits(schema: SchemaView, n: nat) -> bool {
    n < u32::MAX || (n == u32::MAX && widths(schema.entries, schema.entries.len()) <= u32::MAX)
}

/// May a bank have this many bytes?
pub fn may_hold(schema: &Schema, n: usize) -> (r: bool)
    ensures
        r == bank_fits(schema@, n as nat),
{
    proof {
        use_type_invariant(schema);
    }
    if n < u32::MAX as usize {
        return true;
    }
    if n > u32::MAX as usize {
        return false;
    }
    let entries = schema.entries();
    let mut total: u64 = 0;
    let mut i: usize = 0;
    while i < entries.len()
        invariant
            i <= entries.len() <= 65536,
            entries@.len() == schema@.entries.len(),
            forall|k: int| 0 <= k < entries.len() ==> (#[trigger] entries@[k])@ == schema@.entries[k],
            total == widths(schema@.entries, i as nat),
            total <= i * 0x8_0000_0000,
        decreases entries.len() - i,
    {
        let size: u64 = entries[i].ty.size() as u64;
        let length: u64 = entries[i].length as u64;
        assert(entries@[i as int]@ == schema@.entries[i as int]);
        assert(0 <= size * length <= 0x8_0000_0000) by (nonlinear_arith)
            requires
                0 <= size <= 8,
                0 <= length <= u32::MAX,
        ;
        total = total + size * length;
        i = i + 1;
    }
    total <= u32::MAX as u64
}

/// Every bank that `of` gives has room for its rows.
pub proof fn law_bank_is_whole(schema: SchemaView, data: Seq<u8>)
    requires
        schema.laid_out(),
        bank_fits(schema, data.len()),
    ensures
        BankState::of(schema, data) matches Some(b) ==> b.whole(),
{
    if schema.row_size > 0 && data.len() % (schema.row_size as nat) == 0 {
        lemma_rows_exact(data.len() as int, schema.row_size as int);
        let total = widths(schema.entries, schema.entries.len());
        if total > u32::MAX {
            let q = data.len() as int / (schema.row_size as int);
            assert(q == 0) by (nonlinear_arith)
                requires
                    q * (schema.row_size as int) == data.len(),
                    schema.row_size == u32::MAX,
                    data.len() < u32::MAX,
                    q >= 0,
            ;
        }
    }
}

/// A column of a whole bank lies within the data, and so does each of its cells.
pub proof fn lemma_col_in_data(b: BankState, col: int)
    requires
        b.whole(),
        0 <= col < b.schema.entries.len(),
    ensures
        0 <= b.col_start(col),
        b.col_start(col) + b.rows * b.schema.entries[col].width() <= b.data.len(),
        b.rows > 0 ==> b.schema.entries[col].row_offset == widths(b.schema.entries, col as nat),
        b.rows == 0 ==> b.col_start(col) == 0,
        forall|row: int|
            0 <= row < b.rows ==> b.col_start(col) <= b.col_start(col) + #[trigger] (row
                * b.schema.entries[col].width()) && row * b.schema.entries[col].width()
                + b.schema.entries[col].width() <= b.rows * b.schema.entries[col].width(),
{
    let w = b.schema.entries[col].width();
    let before = widths(b.schema.entries, col as nat);
    let total = widths(b.schema.entries, b.schema.entries.len());
    lemma_widths_monotone(b.schema.entries, (col + 1) as nat, b.schema.entries.len());
    assert(widths(b.schema.entries, (col + 1) as nat) == before + w);
    assert(b.rows * before >= 0) by (nonlinear_arith);
    assert(b.rows * w >= 0) by (nonlinear_arith);
    assert(b.rows * before + b.rows * w <= b.rows * total) by (nonlinear_arith)
        requires
            before + w <= total,
    ;
    if b.rows == 0 {
        assert(b.rows * before == 0 && b.rows * w == 0) by (nonlinear_arith)
            requires
                b.rows == 0,
        ;
    }
    assert forall|row: int| 0 <= row < b.rows implies b.col_start(col) <= b.col_start(col)
        + #[trigger] (row * w) && row * w + w <= b.rows * w by {
        assert(0 <= row * w && row * w + w <= b.rows * w) by (nonlinear_arith)
            requires
                0 <= row < b.rows,
                w >= 0,
        ;
    }
}

/// The data of a bank: borrowed from the event that holds it, or owned where it was put
/// together from compressed streams.
#[derive(Debug)]
pub enum BankBytes<'b> {
    Borrowed(&'b [u8]),
    Owned(Vec<u8>),
}

impl<'b> View for BankBytes<'b> {
    type V = Seq<u8>;

    open spec fn view(&self) -> Seq<u8> {
        match *self {
            BankBytes::Borrowed(s) => s@,
            BankBytes::Owned(v) => v@,
        }
    }
}

impl<'b> BankBytes<'b> {
    pub fn as_slice(&self) -> (r: &[u8])
        ensures
            r@ == self@,
    {
        match self {
            BankBytes::Borrowed(s) => s,
            BankBytes::Owned(v) => v.as_slice(),
        }
    }
}

impl<'b> Clone for BankBytes<'b> {
    fn clone(&self) -> (r: Self)
        ensures
            r@ == self@,
    {
        match self {
            BankBytes::Borrowed(s) => BankBytes::Borrowed(s),
            BankBytes::Owned(v) => BankBytes::Owned(vstd::slice::slice_to_vec(v.as_slice())),
        }
    }
}

/// A read-only bank.
#[derive(Debug)]
pub struct Bank<'b> {
    schema: &'b Schema,
    /// The bank's data section (excluding the 8-byte structure header).
    data: BankBytes<'b>,
    rows: u32,
    /// Columns that could not be read.
    lost: Vec<usize>,
}

impl<'b> View for Bank<'b> {
    type V = BankState;

    closed spec fn view(&self) -> BankState {
        BankState {
            schema: self.schema@,
            data: self.data@,
            rows: self.rows as nat,
            lost: self.lost@,
        }
    }
}

impl<'b> Clone for Bank<'b> {
    fn clone(&self) -> (r: Self)
        ensures
            r@ == self@,
    {
        proof {
            use_type_invariant(self);
        }
        Bank {
            schema: self.schema,
            data: self.data.clone(),
            rows: self.rows,
            lost: vstd::slice::slice_to_vec(self.lost.as_slice()),
        }
    }
}

/// Read `n` elements from `bytes[off..]`.
pub(crate) fn read_elements<S: BankScalarType>(bytes: &[u8], off: usize, n: usize) -> (r: Vec<S>)
    requires
        off + n * S::spec_type().spec_size() <= bytes.len(),
    ensures
        r@ == elements::<S>(
            bytes@.subrange(off as int, off + n * S::spec_type().spec_size()),
            n as nat,
        ),
{
    let size: usize = S::data_type().size();
    let ghost cell = bytes@.subrange(off as int, off + n * S::spec_type().spec_size());
    let mut out: Vec<S> = Vec::new();
    let mut k: usize = 0;
    while k < n
        invariant
            k <= n,
            size == S::spec_type().spec_size(),
            off + n * size <= bytes.len(),
            cell == bytes@.subrange(off as int, off + n * size),
            out.len() == k,
            forall|j: int| 0 <= j < k ==> out@[j] == elements::<S>(cell, n as nat)[j],
        decreases n - k,
    {
        assert(k * size + size <= n * size && k * size >= 0) by (nonlinear_arith)
            requires
                0 <= k < n,
                size >= 0,
        ;
        let at: usize = off + k * size;
        assert(bytes@.subrange(at as int, at + size) =~= cell.subrange(k * size, k * size + size));
        out.push(S::read_le(bytes, at));
        k = k + 1;
    }
    assert(out@ =~= elements::<S>(cell, n as nat));
    out
}

/// The cell of `T` whose elements are all zero.
pub fn zero_cell<T: BankColumnType>() -> (r: T)
    ensures
        r.elems() == Seq::new(
            T::spec_length(),
            |i: int| <T::Scalar as BankScalarType>::spec_zero(),
        ),
{
    let n: usize = T::length();
    let mut elems: Vec<T::Scalar> = Vec::new();
    let mut i: usize = 0;
    while i < n
        invariant
            i <= n,
            elems.len() == i,
            forall|k: int|
                0 <= k < i ==> elems@[k] == <T::Scalar as BankScalarType>::spec_zero(),
        decreases n - i,
    {
        elems.push(<T::Scalar as BankScalarType>::zero());
        i = i + 1;
    }
    let r = T::from_elems(elems.as_slice());
    assert(elems@ =~= Seq::new(
        T::spec_length(),
        |i: int| <T::Scalar as BankScalarType>::spec_zero(),
    ));
    r
}

/// `r` holds the cells of column `col`, in row order.
pub open spec fn is_column_of<T: BankColumnType>(b: BankState, col: int, r: Seq<T>) -> bool {
    &&& r.len() == b.rows
    &&& forall|i: int|
        0 <= i < r.len() ==> (#[trigger] r[i]).elems() == b.cell_elems::<T::Scalar>(col, i)
}

/// `r` is cell `(col, row)` where the column can be read as `T` and the row is there, and the
/// zero cell otherwise.
pub open spec fn is_cell_or_zero<T: BankColumnType>(b: BankState, col: int, row: int, r: T) -> bool {
    if fits::<T>(b.schema, col) && row < b.rows {
        r.elems() == b.cell_elems::<T::Scalar>(col, row)
    } else {
        r.elems() == Seq::new(
            T::spec_length(),
            |i: int| <T::Scalar as BankScalarType>::spec_zero(),
        )
    }
}

/// `r` is cell `row` of the column `name`, and the zero cell where there is no such column or
/// it cannot be read as `T`.
pub open spec fn is_named_cell<T: BankColumnType>(
    b: BankState,
    name: Seq<char>,
    row: int,
    r: T,
) -> bool {
    if b.schema.has_column(name) {
        exists|col: int| #[trigger]
            b.schema.is_column(name, col) && is_cell_or_zero::<T>(b, col, row, r)
    } else {
        is_zero_cell(r)
    }
}

/// Every element of the cell is zero.
pub open spec fn is_zero_cell<T: BankColumnType>(r: T) -> bool {
    r.elems() == Seq::new(T::spec_length(), |i: int| <T::Scalar as BankScalarType>::spec_zero())
}

/// The error of a strict read of a column that could not be read.
pub open spec fn lost_column() -> HipoError {
    HipoError::CorruptRecord { offset: 0, reason: "Lz4PerColumn: column stream cannot be read" }
}

/// `r` is what reading the column `name` as cells of `T` ends with.
pub open spec fn is_named_column<T: BankColumnType>(
    b: BankState,
    name: Seq<char>,
    r: Result<Vec<T>>,
) -> bool {
    match r {
        Ok(v) => exists|col: int| #[trigger]
            b.schema.is_column(name, col) && fits::<T>(b.schema, col) && !b.lost.contains(
                col as usize,
            ) && is_column_of::<T>(b, col, v@),
        Err(e) => crate::schema::handle::resolved::<T>(b.schema, name, Err(e)) || exists|col: int|
         #[trigger]
            b.schema.is_column(name, col) && fits::<T>(b.schema, col) && b.lost.contains(
                col as usize,
            ) && e == lost_column(),
    }
}

impl<'b> Bank<'b> {
    /// Every bank has room for its rows.
    #[verifier::type_invariant]
    pub open spec fn inv(self) -> bool {
        self@.whole()
    }

    /// Wrap a data buffer with a schema. A length that is not a whole number of rows is a
    /// corrupt bank.
    pub fn new(schema: &'b Schema, data: &'b [u8]) -> (r: Result<Self>)
        requires
            bank_fits(schema@, data@.len()),
        ensures
            match BankState::of(schema@, data@) {
                Some(b) => r is Ok && r->Ok_0@ == b,
                None => r == Err::<Self, HipoError>(
                    HipoError::CorruptRecord {
                        offset: 0,
                        reason: "bank data size is not a multiple of row size",
                    },
                ),
            },
    {
        Bank::over(schema, BankBytes::Borrowed(data))
    }

    /// [`Self::new`] for data that the bank keeps.
    pub fn new_owned(schema: &'b Schema, data: Vec<u8>) -> (r: Result<Self>)
        requires
            bank_fits(schema@, data@.len()),
        ensures
            match BankState::of(schema@, data@) {
                Some(b) => r is Ok && r->Ok_0@ == b,
                None => r == Err::<Self, HipoError>(
                    HipoError::CorruptRecord {
                        offset: 0,
                        reason: "bank data size is not a multiple of row size",
                    },
                ),
            },
    {
        Bank::over(schema, BankBytes::Owned(data))
    }

    /// [`Self::new_owned`] for a bank put together from columns, of which those in `lost` could
    /// not be read.
    pub(crate) fn from_columns(schema: &'b Schema, data: Vec<u8>, lost: Vec<usize>) -> (r: Result<
        Self,
    >)
        requires
            bank_fits(schema@, data@.len()),
        ensures
            match BankState::of(schema@, data@) {
                Some(b) => r is Ok && r->Ok_0@ == (BankState { lost: lost@, ..b }),
                None => r == Err::<Self, HipoError>(
                    HipoError::CorruptRecord {
                        offset: 0,
                        reason: "bank data size is not a multiple of row size",
                    },
                ),
            },
    {
        let b = Bank::new_owned(schema, data)?;
        proof {
            use_type_invariant(&b);
        }
        let Bank { schema, data, rows, lost: _ } = b;
        Ok(Bank { schema, data, rows, lost })
    }

    /// A bank over these bytes.
    fn over(schema: &'b Schema, data: BankBytes<'b>) -> (r: Result<Self>)
        requires
            bank_fits(schema@, data@.len()),
        ensures
            match BankState::of(schema@, data@) {
                Some(b) => r is Ok && r->Ok_0@ == b,
                None => r == Err::<Self, HipoError>(
                    HipoError::CorruptRecord {
                        offset: 0,
                        reason: "bank data size is not a multiple of row size",
                    },
                ),
            },
    {
        proof {
            use_type_invariant(schema);
            law_bank_is_whole(schema@, data@);
        }
        let row_size: u32 = schema.row_size();
        if row_size == 0 {
            return Ok(Bank { schema, data, rows: 0, lost: Vec::new() });
        }
        let len: u32 = data.as_slice().len() as u32;
        if len % row_size != 0 {
            return Err(
                HipoError::CorruptRecord {
                    offset: 0,
                    reason: "bank data size is not a multiple of row size",
                },
            );
        }
        Ok(Bank { schema, data, rows: len / row_size, lost: Vec::new() })
    }

    /// Wrap the largest prefix of `data` that is a whole number of rows.
    pub fn new_lossy(schema: &'b Schema, data: &'b [u8]) -> (r: Self)
        requires
            bank_fits(schema@, data@.len()),
        ensures
            schema@.row_size == 0 ==> r@ == (BankState {
                schema: schema@,
                data: data@,
                rows: data.len() as nat,
                lost: Seq::empty(),
            }),
            schema@.row_size > 0 ==> {
                let rows = data.len() / (schema@.row_size as usize);
                r@ == (BankState {
                    schema: schema@,
                    data: data@.subrange(0, rows * schema@.row_size),
                    rows: rows as nat,
                    lost: Seq::empty(),
                })
            },
    {
        proof {
            use_type_invariant(schema);
        }
        let row_size: u32 = if schema.row_size() == 0 {
            1
        } else {
            schema.row_size()
        };
        let rows: u32 = data.len() as u32 / row_size;
        assert(rows * row_size <= data.len() && rows * row_size <= u32::MAX && rows * row_size >= 0)
            by (nonlinear_arith)
            requires
                rows == data.len() as int / (row_size as int),
                row_size >= 1,
                data.len() <= u32::MAX,
        ;
        let whole = slice_subrange(data, 0, (rows * row_size) as usize);
        proof {
            let total = widths(schema@.entries, schema@.entries.len());
            if schema@.row_size == 0 {
                assert(rows * total == 0) by (nonlinear_arith)
                    requires
                        total == 0,
                ;
                assert(whole@ =~= data@);
            } else if total > u32::MAX {
                assert(rows == 0) by (nonlinear_arith)
                    requires
                        rows * row_size <= data.len(),
                        row_size == u32::MAX,
                        data.len() < u32::MAX,
                        rows >= 0,
                ;
            }
        }
        Bank { schema, data: BankBytes::Borrowed(whole), rows, lost: Vec::new() }
    }

    pub fn schema(&self) -> (r: &'b Schema)
        ensures
            r@ == self@.schema,
    {
        self.schema
    }

    pub fn rows(&self) -> (r: u32)
        ensures
            r == self@.rows,
    {
        self.rows
    }

    pub fn is_empty(&self) -> (r: bool)
        ensures
            r == (self@.rows == 0),
    {
        self.rows == 0
    }

    /// Raw bytes of column `col`.
    pub fn col_bytes(&self, col: usize) -> (r: &[u8])
        requires
            col < self@.schema.entries.len(),
        ensures
            r@ == self@.col_data(col as int),
            r.len() == self@.rows * self@.schema.entries[col as int].width(),
    {
        proof {
            use_type_invariant(self);
            lemma_col_in_data(self@, col as int);
        }
        let entry = &self.schema.entries()[col];
        let rows: usize = self.rows as usize;
        if rows == 0 {
            assert(self@.rows * self@.schema.entries[col as int].width() == 0) by (nonlinear_arith)
                requires
                    self@.rows == 0,
            ;
            let r = slice_subrange(self.data.as_slice(), 0, 0);
            assert(r@ =~= self@.col_data(col as int));
            return r;
        }
        let start: u64 = self.schema.column_byte_offset(col, self.rows);
        let size: u64 = entry.ty.size() as u64;
        let length: u64 = entry.length as u64;
        assert(size * length <= 8 * u32::MAX) by (nonlinear_arith)
            requires
                size <= 8,
                length <= u32::MAX,
        ;
        let width: u64 = size * length;
        assert(width == self@.schema.entries[col as int].width());
        let len: u64 = rows as u64 * width;
        slice_subrange(self.data.as_slice(), start as usize, (start + len) as usize)
    }

    /// Where cell `(col, row)` starts.
    fn cell_offset(&self, col: usize, row: u32) -> (r: usize)
        requires
            col < self@.schema.entries.len(),
            row < self@.rows,
        ensures
            r == self@.col_start(col as int) + row * self@.schema.entries[col as int].width(),
            r + self@.schema.entries[col as int].width() <= self@.data.len(),
    {
        proof {
            use_type_invariant(self);
            lemma_col_in_data(self@, col as int);
            let w = self@.schema.entries[col as int].width();
            assert(self@.col_start(col as int) + #[trigger] (row as int * w) + w
                <= self@.data.len());
        }
        self.schema.cell_byte_offset(col, row, self.rows) as usize
    }

    /// Read cell `(col, row)`.
    fn read_cell<T: BankColumnType>(&self, col: usize, row: u32) -> (r: T)
        requires
            fits::<T>(self@.schema, col as int),
            row < self@.rows,
        ensures
            r.elems() == self@.cell_elems::<T::Scalar>(col as int, row as int),
    {
        let off: usize = self.cell_offset(col, row);
        let ghost w = self@.schema.entries[col as int].width();
        assert(w == T::spec_length() * scalar_type::<T>().spec_size()) by (nonlinear_arith)
            requires
                w == self@.schema.entries[col as int].ty.spec_size()
                    * self@.schema.entries[col as int].length as nat,
                self@.schema.entries[col as int].ty == scalar_type::<T>(),
                self@.schema.entries[col as int].length == T::spec_length(),
        ;
        let elems = read_elements::<T::Scalar>(self.data.as_slice(), off, T::length());
        T::from_elems(elems.as_slice())
    }

    /// Could column `col` not be read?
    fn is_lost(&self, col: usize) -> (r: bool)
        ensures
            r == self@.lost.contains(col),
    {
        let mut k: usize = 0;
        while k < self.lost.len()
            invariant
                k <= self.lost.len(),
                self.lost@ == self@.lost,
                forall|i: int| 0 <= i < k ==> self@.lost[i] != col,
            decreases self.lost.len() - k,
        {
            if self.lost[k] == col {
                assert(self@.lost[k as int] == col);
                return true;
            }
            k = k + 1;
        }
        false
    }

    /// Column `name`, one cell per row. Fails on an unknown name, a type that is not the
    /// column's, a length that is not the column's, and a column that could not be read.
    pub fn col<T: BankColumnType>(&self, name: &str) -> (r: Result<Vec<T>>)
        ensures
            is_named_column::<T>(self@, name@, r),
    {
        let h: ColumnHandle<T> = self.schema.handle::<T>(name)?;
        let col: usize = h.column_index();
        assert(self@.schema.is_column(name@, col as int));
        if self.is_lost(col) {
            return Err(
                HipoError::CorruptRecord {
                    offset: 0,
                    reason: "Lz4PerColumn: column stream cannot be read",
                },
            );
        }
        Ok(self.read(h))
    }

    /// Read using a handle that was resolved against this bank's schema. A column that could not
    /// be read gives zeros.
    pub fn read<T: BankColumnType>(&self, handle: ColumnHandle<T>) -> (r: Vec<T>)
        requires
            fits::<T>(self@.schema, handle@),
        ensures
            is_column_of::<T>(self@, handle@, r@),
    {
        let col: usize = handle.column_index();
        let mut out: Vec<T> = Vec::new();
        let mut row: u32 = 0;
        while row < self.rows
            invariant
                fits::<T>(self@.schema, col as int),
                row <= self@.rows,
                self.rows == self@.rows,
                out.len() == row,
                forall|i: int|
                    0 <= i < row ==> (#[trigger] out@[i]).elems() == self@.cell_elems::<T::Scalar>(
                        col as int,
                        i,
                    ),
            decreases self@.rows - row,
        {
            out.push(self.read_cell::<T>(col, row));
            row = row + 1;
        }
        out
    }

    /// Read one cell through a handle; zero for a placeholder or a row that is not there.
    pub fn read_handle_or_default<T: BankColumnType>(
        &self,
        handle: ColumnHandle<T>,
        row: u32,
    ) -> (r: T)
        requires
            handle@ == u16::MAX || fits::<T>(self@.schema, handle@),
        ensures
            handle@ == u16::MAX ==> r.elems() == Seq::new(
                T::spec_length(),
                |i: int| <T::Scalar as BankScalarType>::spec_zero(),
            ),
            handle@ != u16::MAX ==> is_cell_or_zero::<T>(self@, handle@, row as int, r),
    {
        if handle.is_placeholder() || row >= self.rows {
            return zero_cell::<T>();
        }
        self.read_cell::<T>(handle.column_index(), row)
    }

    /// Read one cell as `T`; zero where the column is missing, its type or length is not that
    /// of `T`, or the row is not there.
    pub fn get<T: BankColumnType>(&self, name: &str, row: u32) -> (r: T)
        ensures
            is_named_cell::<T>(self@, name@, row as int, r),
    {
        let col: usize = match self.schema.column_index(name) {
            Some(c) => c,
            None => {
                return zero_cell::<T>();
            },
        };
        assert(self@.schema.is_column(name@, col as int));
        let entry = &self.schema.entries()[col];
        if entry.ty != <T::Scalar as BankScalarType>::data_type() || entry.length as usize
            != T::length() || row >= self.rows {
            return zero_cell::<T>();
        }
        self.read_cell::<T>(col, row)
    }

    /// One row of an array column whose length is known at run time only.
    pub fn array_at<S: BankScalarType>(&self, name: &str, row: u32) -> (r: Result<Vec<S>>)
        ensures
            match r {
                Ok(v) => exists|col: int| #[trigger]
                    self@.schema.is_column(name@, col) && self@.schema.entries[col].ty
                        == S::spec_type() && row < self@.rows && !self@.lost.contains(
                        col as usize,
                    ) && v@ == self@.cell_elems::<S>(col, row as int),
                Err(HipoError::UnknownColumn { schema, column }) => !self@.schema.has_column(name@)
                    && schema@ == self@.schema.name && column@ == name@,
                Err(HipoError::TypeMismatch { schema, column, expected, actual }) => exists|
                    col: int,
                | #[trigger]
                    self@.schema.is_column(name@, col) && self@.schema.entries[col].ty
                        != S::spec_type() && schema@ == self@.schema.name && column@ == name@
                        && expected == S::spec_type().spec_name() && actual
                        == self@.schema.entries[col].ty.spec_name(),
                Err(e) => exists|col: int| #[trigger]
                    self@.schema.is_column(name@, col) && self@.schema.entries[col].ty
                        == S::spec_type() && (if row >= self@.rows {
                        e == (HipoError::CorruptRecord {
                            offset: 0,
                            reason: "Bank::array_at: row index out of range",
                        })
                    } else {
                        self@.lost.contains(col as usize) && e == lost_column()
                    }),
            },
    {
        let col: usize = self.schema.require_column(name)?;
        assert(self@.schema.is_column(name@, col as int));
        let entry = &self.schema.entries()[col];
        if entry.ty != S::data_type() {
            return Err(
                HipoError::TypeMismatch {
                    schema: owned(self.schema.name()),
                    column: owned(name),
                    expected: S::data_type().name(),
                    actual: entry.ty.name(),
                },
            );
        }
        if row >= self.rows {
            return Err(
                HipoError::CorruptRecord {
                    offset: 0,
                    reason: "Bank::array_at: row index out of range",
                },
            );
        }
        if self.is_lost(col) {
            return Err(
                HipoError::CorruptRecord {
                    offset: 0,
                    reason: "Lz4PerColumn: column stream cannot be read",
                },
            );
        }
        let off: usize = self.cell_offset(col, row);
        let n: usize = entry.length as usize;
        assert(n * S::spec_type().spec_size() == self@.schema.entries[col as int].width())
            by (nonlinear_arith)
            requires
                n == self@.schema.entries[col as int].length,
                self@.schema.entries[col as int].ty == S::spec_type(),
                self@.schema.entries[col as int].width()
                    == self@.schema.entries[col as int].ty.spec_size()
                    * self@.schema.entries[col as int].length as nat,
        ;
        Ok(read_elements::<S>(self.data.as_slice(), off, n))
    }
}

} // verus!
