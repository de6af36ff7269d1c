//! Builders for banks and events.

use vstd::prelude::*;
use crate::error::{HipoError, Result};
use crate::event::event::StructureHeader;
#[allow(unused_imports)]
use crate::event::bank::{elements, BankState};
#[allow(unused_imports)]
use crate::event::event::{
    event_size, event_structures, event_tag, lemma_structures_of_bytes, next_structure,
    struct_bytes, structs_bytes, StructView,
};
use crate::schema::handle::{BankScalarType, Float32, Float64};
#[allow(unused_imports)]
use crate::seqs::{concat, lemma_concat_at, lemma_concat_step, run_start};
use crate::schema::types::{DataType, Schema};
#[allow(unused_imports)]
use crate::schema::types::{widths, SchemaView};
use crate::text::owned;
use crate::wire::bytes::{push_bytes, push_u16_le, push_u32_le, push_zeros};
#[allow(unused_imports)]
use crate::wire::bytes::{law_le32_round_trip, le16, le32, lemma_u32_at_same, spliced};

verus! {

/// The largest data size that a structure header can hold.
pub const MAX_BANK_BYTES: usize = 0xFF_FFFF;

/// A bank under construction: one run of bytes per column.
#[verifier::ext_equal]
pub struct BuilderView {
    pub schema: SchemaView,
    pub columns: Seq<Seq<u8>>,
    pub rows: nat,
}

/// The bytes of a row of elements.
pub open spec fn encoded_all<S: BankScalarType>(values: Seq<S>) -> Seq<u8>
    decreases values.len(),
{
    if values.len() == 0 {
        Seq::empty()
    } else {
        encoded_all(values.drop_last()) + values.last().encoded()
    }
}

impl BuilderView {
    /// Every column holds one cell per row.
    pub open spec fn wf(self) -> bool {
        &&& self.schema.laid_out()
        &&& self.columns.len() == self.schema.entries.len()
        &&& self.rows <= u32::MAX
        &&& forall|c: int|
            0 <= c < self.columns.len() ==> (#[trigger] self.columns[c]).len() == self.rows
                * self.schema.entries[c].width()
    }

    /// No rows yet.
    pub open spec fn fresh(schema: SchemaView) -> BuilderView {
        BuilderView {
            schema,
            columns: Seq::new(schema.entries.len(), |c: int| Seq::empty()),
            rows: 0,
        }
    }

    /// One more row, all zero.
    pub open spec fn with_row(self) -> BuilderView {
        BuilderView {
            columns: Seq::new(
                self.columns.len(),
                |c: int|
                    self.columns[c] + Seq::new(self.schema.entries[c].width(), |i: int| 0u8),
            ),
            rows: self.rows + 1,
            ..self
        }
    }

    /// `n` more rows, all zero.
    pub open spec fn with_rows(self, n: nat) -> BuilderView
        decreases n,
    {
        if n == 0 {
            self
        } else {
            self.with_rows((n - 1) as nat).with_row()
        }
    }

    /// `bytes` in place of cell `(col, row)`.
    pub open spec fn with_cell(self, col: int, row: int, bytes: Seq<u8>) -> BuilderView {
        BuilderView {
            columns: self.columns.update(
                col,
                spliced(self.columns[col], row * self.schema.entries[col].width(), bytes),
            ),
            ..self
        }
    }

    /// The column-major data.
    pub open spec fn data(self) -> Seq<u8> {
        concat(self.columns)
    }

    /// The structure that `finish` writes, as a model.
    pub open spec fn as_struct(self) -> StructView {
        StructView {
            header: StructureHeader {
                group: self.schema.group,
                item: self.schema.item,
                ty: 11,
                data_size: self.data().len() as u32,
                header_size: 0,
            },
            data: self.data(),
        }
    }

    /// The structure that `finish` writes: group, item, the type code of a plain bank, the
    /// size, the data.
    pub open spec fn structure(self) -> Seq<u8> {
        le16(self.schema.group) + seq![self.schema.item, 11u8] + le32(self.data().len() as u32)
            + self.data()
    }
}

/// Why a cell cannot be set to `n` elements of type `ty`; `None` where it can. The checks are
/// made in order: name, type, row, length.
pub open spec fn cell_fault(b: BuilderView, name: Seq<char>, ty: DataType, row: int, n: nat) -> Fault {
    if !b.schema.has_column(name) {
        Fault::NoColumn
    } else {
        let col = the_column(b.schema, name);
        if b.schema.entries[col].ty != ty {
            Fault::OtherType
        } else if row >= b.rows {
            Fault::NoRow
        } else if b.schema.entries[col].length != n {
            Fault::OtherLength
        } else {
            Fault::Absent
        }
    }
}

/// What `cell_fault` tells apart.
pub enum Fault {
    Absent,
    NoColumn,
    OtherType,
    OtherLength,
    NoRow,
}

/// The column that a name stands for: the last with that name.
pub open spec fn the_column(s: SchemaView, name: Seq<char>) -> int {
    choose|i: int| #[trigger] s.is_column(name, i)
}

/// A name stands for one column.
pub proof fn lemma_the_column(s: SchemaView, name: Seq<char>, i: int)
    requires
        s.is_column(name, i),
    ensures
        s.has_column(name),
        the_column(s, name) == i,
{
    let j = the_column(s, name);
    assert(s.is_column(name, j));
    if i < j {
        assert(s.entries[j].name != name);
    } else if j < i {
        assert(s.entries[i].name != name);
    }
}

/// `err` is the error for the fault `f`.
pub open spec fn is_fault_error(
    f: Fault,
    b: BuilderView,
    name: Seq<char>,
    ty: DataType,
    expected: u32,
    actual: u32,
    err: HipoError,
) -> bool {
    match f {
        Fault::Absent => false,
        Fault::NoColumn => err matches HipoError::UnknownColumn { schema, column } && schema@
            == b.schema.name && column@ == name,
        Fault::OtherType => err matches HipoError::TypeMismatch {
            schema,
            column,
            expected: e,
            actual: a,
        } && schema@ == b.schema.name && column@ == name && e == ty.spec_name() && a
            == b.schema.entries[the_column(b.schema, name)].ty.spec_name(),
        Fault::OtherLength => err matches HipoError::ColumnLengthMismatch {
            schema,
            column,
            expected: e,
            actual: a,
        } && schema@ == b.schema.name && column@ == name && e == expected && a == actual,
        Fault::NoRow => err is InvalidUsage,
    }
}

/// Setting a cell keeps a builder well-formed.
pub proof fn lemma_with_cell_wf(b: BuilderView, col: int, row: int, bytes: Seq<u8>)
    requires
        b.wf(),
        0 <= col < b.columns.len(),
        0 <= row < b.rows,
        bytes.len() == b.schema.entries[col].width(),
    ensures
        b.with_cell(col, row, bytes).wf(),
        0 <= row * b.schema.entries[col].width(),
        row * b.schema.entries[col].width() + b.schema.entries[col].width()
            <= b.columns[col].len(),
{
    let w = b.schema.entries[col].width();
    assert(0 <= row * w && row * w + w <= b.rows * w) by (nonlinear_arith)
        requires
            0 <= row < b.rows,
            w >= 0,
    ;
}

/// One more row keeps a builder well-formed.
pub proof fn lemma_with_row_wf(b: BuilderView)
    requires
        b.wf(),
        b.rows < u32::MAX,
    ensures
        b.with_row().wf(),
{
    let n = b.with_row();
    assert forall|c: int| 0 <= c < n.columns.len() implies (#[trigger] n.columns[c]).len()
        == n.rows * n.schema.entries[c].width() by {
        let w = b.schema.entries[c].width();
        assert((b.rows + 1) * w == b.rows * w + w) by (nonlinear_arith);
    }
}

/// The bytes of `n` elements of one type are as long as the elements together.
pub proof fn lemma_encoded_all_len<S: BankScalarType>(values: Seq<S>)
    ensures
        encoded_all(values).len() == values.len() * S::spec_type().spec_size(),
    decreases values.len(),
{
    let size = S::spec_type().spec_size();
    if values.len() > 0 {
        lemma_encoded_all_len(values.drop_last());
        values.last().law_element_round_trip();
        assert((values.len() - 1) * size + size == values.len() * size) by (nonlinear_arith);
    } else {
        assert(0 * size == 0) by (nonlinear_arith);
    }
}

/// Write `bytes` over `buf[at..]`.
fn overwrite(buf: &mut Vec<u8>, at: usize, bytes: &[u8])
    requires
        at + bytes.len() <= old(buf).len(),
    ensures
        final(buf)@ == spliced(old(buf)@, at as int, bytes@),
{
    let mut i: usize = 0;
    while i < bytes.len()
        invariant
            i <= bytes.len(),
            at + bytes.len() <= old(buf).len(),
            buf@ =~= old(buf)@.subrange(0, at as int) + bytes@.subrange(0, i as int) + old(buf)@.subrange(at + i, old(buf).len() as int),
        decreases bytes.len() - i,
    {
        buf.set(at + i, bytes[i]);
        i = i + 1;
    }
    assert(buf@ =~= spliced(old(buf)@, at as int, bytes@));
}

/// Builds a bank one row at a time. Storage is column-major from the start.
#[derive(Debug)]
pub struct BankBuilder<'s> {
    schema: &'s Schema,
    columns: Vec<Vec<u8>>,
    rows: u32,
}

impl<'s> View for BankBuilder<'s> {
    type V = BuilderView;

    closed spec fn view(&self) -> BuilderView {
        BuilderView {
            schema: self.schema@,
            columns: self.columns@.map_values(|c: Vec<u8>| c@),
            rows: self.rows as nat,
        }
    }
}

impl<'s> BankBuilder<'s> {
    pub fn new(schema: &'s Schema) -> (r: Self)
        ensures
            r@ == BuilderView::fresh(schema@),
            r@.wf(),
    {
        Self::with_buffers(schema, Vec::new())
    }

    /// A builder whose columns start with room for `rows` rows.
    pub fn with_row_capacity(schema: &'s Schema, rows: u32) -> (r: Self)
        requires
            forall|c: int|
                0 <= c < schema@.entries.len() ==> rows * (#[trigger] schema@.entries[c]).width()
                    <= usize::MAX,
        ensures
            r@ == BuilderView::fresh(schema@),
            r@.wf(),
    {
        let n: usize = schema.num_columns();
        let mut buffers: Vec<Vec<u8>> = Vec::new();
        let mut i: usize = 0;
        while i < n
            invariant
                i <= n,
                n == schema@.entries.len(),
                forall|c: int|
                    0 <= c < schema@.entries.len() ==> rows * (
                    #[trigger] schema@.entries[c]).width() <= usize::MAX,
            decreases n - i,
        {
            let e = &schema.entries()[i];
            let ghost w = schema@.entries[i as int].width();
            let size: usize = e.ty.size();
            let length: usize = e.length as usize;
            assert(rows * w <= usize::MAX);
            assert(rows as int * size <= usize::MAX || rows == 0 || length == 0) by (nonlinear_arith)
                requires
                    rows * w <= usize::MAX,
                    w == size * length,
                    length >= 1 || length == 0,
                    rows >= 0,
                    size >= 0,
            ;
            proof {
                use_type_invariant(schema);
            }
            assert(rows as int * size <= usize::MAX) by (nonlinear_arith)
                requires
                    rows * w <= usize::MAX,
                    w == size * length,
                    length >= 1,
                    rows >= 0,
                    size >= 0,
            ;
            assert((rows as int * size) * length == rows * w) by (nonlinear_arith)
                requires
                    w == size * length,
            ;
            buffers.push(Vec::with_capacity(rows as usize * size * length));
            i = i + 1;
        }
        Self::with_buffers(schema, buffers)
    }

    pub fn schema(&self) -> (r: &'s Schema)
        ensures
            r@ == self@.schema,
    {
        self.schema
    }

    pub fn rows(&self) -> (r: u32)
        ensures
            r == self@.rows,
    {
        self.rows
    }

    pub fn is_empty(&self) -> (r: bool)
        ensures
            r == (self@.rows == 0),
    {
        self.rows == 0
    }

    /// Append a zero-filled row; later `set_*` calls modify it.
    pub fn push_row(&mut self) -> (r: &mut Self)
        requires
            old(self)@.wf(),
            old(self)@.rows < u32::MAX,
        ensures
            r@ == old(self)@.with_row(),
            r@.wf(),
            *final(self) == *final(r),
    {
        self.add_row();
        self
    }

    fn add_row(&mut self)
        requires
            old(self)@.wf(),
            old(self)@.rows < u32::MAX,
        ensures
            final(self)@ == old(self)@.with_row(),
            final(self)@.wf(),
    {
        let ghost before = self@;
        let entries = self.schema.entries();
        let mut c: usize = 0;
        while c < self.columns.len()
            invariant
                c <= self.columns.len(),
                before.wf(),
                before == old(self)@,
                self.schema == old(self).schema,
                self.rows == old(self).rows,
                self.columns.len() == before.columns.len(),
                entries.len() == before.schema.entries.len(),
                forall|i: int|
                    0 <= i < entries.len() ==> (#[trigger] entries@[i])@
                        == before.schema.entries[i],
                forall|i: int|
                    0 <= i < c ==> (#[trigger] self.columns@[i])@ == before.with_row().columns[i],
                forall|i: int|
                    c <= i < self.columns.len() ==> (#[trigger] self.columns@[i])@
                        == before.columns[i],
            decreases self.columns.len() - c,
        {
            let size: usize = entries[c].ty.size();
            let length: u32 = entries[c].length;
            let ghost w = before.schema.entries[c as int].width();
            let mut col = Vec::new();
            core::mem::swap(&mut col, &mut self.columns[c]);
            let mut k: u32 = 0;
            assert(col@ =~= before.columns[c as int] + Seq::new((size * k) as nat, |i: int| 0u8))
                by {
                assert(size * k == 0) by (nonlinear_arith)
                    requires
                        k == 0,
                ;
            }
            while k < length
                invariant
                    k <= length,
                    size >= 1,
                    col@ =~= before.columns[c as int] + Seq::new(
                        (size * k) as nat,
                        |i: int| 0u8,
                    ),
                decreases length - k,
            {
                push_zeros(&mut col, size);
                assert(size * (k + 1) == size * k + size) by (nonlinear_arith);
                k = k + 1;
            }
            assert(size * k == w);
            self.columns.set(c, col);
            c = c + 1;
        }
        self.rows = self.rows + 1;
        proof {
            lemma_with_row_wf(before);
            assert(self@.columns =~= before.with_row().columns);
        }
    }

    pub fn push_rows(&mut self, n: u32) -> (r: &mut Self)
        requires
            old(self)@.wf(),
            old(self)@.rows + n <= u32::MAX,
        ensures
            r@ == old(self)@.with_rows(n as nat),
            r@.wf(),
            *final(self) == *final(r),
    {
        let mut k: u32 = 0;
        while k < n
            invariant
                k <= n,
                self@.wf(),
                self@ == old(self)@.with_rows(k as nat),
                self@.rows == old(self)@.rows + k,
                old(self)@.rows + n <= u32::MAX,
            decreases n - k,
        {
            self.add_row();
            k = k + 1;
        }
        self
    }

    /// Build over caller-owned column buffers. They are cleared and brought to the schema's
    /// column count, so any set can be handed to any schema.
    pub fn with_buffers(schema: &'s Schema, buffers: Vec<Vec<u8>>) -> (r: Self)
        ensures
            r@ == BuilderView::fresh(schema@),
            r@.wf(),
    {
        let n: usize = schema.num_columns();
        let mut buffers = buffers;
        buffers.truncate(n);
        let mut i: usize = 0;
        while i < buffers.len()
            invariant
                i <= buffers.len(),
                buffers.len() <= n,
                forall|c: int| 0 <= c < i ==> (#[trigger] buffers@[c])@ == Seq::<u8>::empty(),
            decreases buffers.len() - i,
        {
            buffers[i].clear();
            i = i + 1;
        }
        while buffers.len() < n
            invariant
                buffers.len() <= n,
                forall|c: int|
                    0 <= c < buffers.len() ==> (#[trigger] buffers@[c])@ == Seq::<u8>::empty(),
            decreases n - buffers.len(),
        {
            buffers.push(Vec::new());
        }
        proof {
            use_type_invariant(schema);
            assert forall|c: int| 0 <= c < schema@.entries.len() implies 0 * (
            #[trigger] schema@.entries[c]).width() == 0 by {
                let w = schema@.entries[c].width();
                assert(0 * w == 0) by (nonlinear_arith);
            }
        }
        let r = BankBuilder { schema, columns: buffers, rows: 0 };
        assert(r@.columns =~= BuilderView::fresh(schema@).columns);
        r
    }

    /// Reclaim the column buffers, to hand to the next [`Self::with_buffers`].
    pub fn into_buffers(self) -> (r: Vec<Vec<u8>>)
        ensures
            r@.map_values(|c: Vec<u8>| c@) == self@.columns,
    {
        self.columns
    }

    /// Back to zero rows, keeping the column buffers.
    pub fn reset(&mut self)
        requires
            old(self)@.wf(),
        ensures
            final(self)@ == BuilderView::fresh(old(self)@.schema),
            final(self)@.wf(),
    {
        let mut columns = Vec::new();
        core::mem::swap(&mut columns, &mut self.columns);
        *self = Self::with_buffers(self.schema, columns);
    }

    /// The column named `name`, if it holds elements of type `expected`.
    fn check_col(&self, name: &str, expected: DataType) -> (r: Result<usize>)
        ensures
            match r {
                Ok(c) => self@.schema.is_column(name@, c as int) && the_column(self@.schema, name@)
                    == c && self@.schema.has_column(name@) && self@.schema.entries[c as int].ty
                    == expected && c < self@.schema.entries.len(),
                Err(e) => {
                    let f = cell_fault(self@, name@, expected, 0, 0);
                    (f is NoColumn || f is OtherType) && is_fault_error(
                        f,
                        self@,
                        name@,
                        expected,
                        0,
                        0,
                        e,
                    )
                },
            },
    {
        let col: usize = self.schema.require_column(name)?;
        proof {
            lemma_the_column(self@.schema, name@, col as int);
        }
        let entry = &self.schema.entries()[col];
        if entry.ty != expected {
            return Err(
                HipoError::TypeMismatch {
                    schema: owned(self.schema.name()),
                    column: owned(name),
                    expected: expected.name(),
                    actual: entry.ty.name(),
                },
            );
        }
        Ok(col)
    }

    /// The row that `push_row` appended last.
    fn last_row(&self) -> (r: Result<u32>)
        ensures
            match r {
                Ok(row) => self@.rows > 0 && row == self@.rows - 1,
                Err(e) => self@.rows == 0 && e == (HipoError::InvalidUsage {
                    what: "BankBuilder: set_* called before push_row()",
                }),
            },
    {
        if self.rows == 0 {
            Err(HipoError::InvalidUsage { what: "BankBuilder: set_* called before push_row()" })
        } else {
            Ok(self.rows - 1)
        }
    }

    /// Put `bytes` into cell `(col, row)`.
    fn put(&mut self, col: usize, row: u32, bytes: &[u8])
        requires
            old(self)@.wf(),
            col < old(self)@.columns.len(),
            row < old(self)@.rows,
            bytes.len() == old(self)@.schema.entries[col as int].width(),
        ensures
            final(self)@ == old(self)@.with_cell(col as int, row as int, bytes@),
            final(self)@.wf(),
    {
        proof {
            lemma_with_cell_wf(self@, col as int, row as int, bytes@);
            assert(self@.columns[col as int] == self.columns@[col as int]@);
            assert(row * bytes.len() + bytes.len() <= self.columns@[col as int].len());
        }
        let ghost before = self@;
        let mut buf = Vec::new();
        core::mem::swap(&mut buf, &mut self.columns[col]);
        overwrite(&mut buf, row as usize * bytes.len(), bytes);
        self.columns.set(col, buf);
        assert(self@.columns =~= before.with_cell(col as int, row as int, bytes@).columns);
    }

    /// Set the scalar cell `(name, row)`.
    fn set_scalar_at<S: BankScalarType>(&mut self, name: &str, row: u32, value: S) -> (r: Result<()>)
        requires
            old(self)@.wf(),
        ensures
            set_outcome::<S>(old(self)@, name@, row as int, value, r, final(self)@),
    {
        let ty = S::data_type();
        let col: usize = self.check_col(name, ty)?;
        let entry = &self.schema.entries()[col];
        let length: u32 = entry.length;
        if length != 1 {
            return Err(
                HipoError::ColumnLengthMismatch {
                    schema: owned(self.schema.name()),
                    column: owned(name),
                    expected: 1,
                    actual: length,
                },
            );
        }
        if row >= self.rows {
            return Err(
                HipoError::InvalidUsage {
                    what: "BankBuilder: row index out of range (call push_rows first)",
                },
            );
        }
        let bytes = value.to_le();
        proof {
            value.law_element_round_trip();
            assert(self@.schema.entries[col as int].width() == bytes.len());
        }
        self.put(col, row, bytes.as_slice());
        Ok(())
    }

    pub fn set_i32(&mut self, name: &str, value: i32) -> (r: Result<&mut Self>)
        requires
            old(self)@.wf(),
        ensures
            old(self)@.rows == 0 ==> no_row_yet(r) && final(self)@ == old(self)@,
            old(self)@.rows > 0 ==> match r {
                Ok(b) => scalar_set::<i32>(old(self)@, name@, old(self)@.rows - 1, value, b@)
                    && *final(self) == *final(b),
                Err(e) => scalar_unset::<i32>(old(self)@, name@, old(self)@.rows - 1, e)
                    && final(self)@ == old(self)@,
            },
    {
        let row: u32 = self.last_row()?;
        self.set_i32_at(name, row, value)
    }

    pub fn set_i32_at(&mut self, name: &str, row: u32, value: i32) -> (r: Result<&mut Self>)
        requires
            old(self)@.wf(),
        ensures
            match r {
                Ok(b) => scalar_set::<i32>(old(self)@, name@, row as int, value, b@)
                    && *final(self) == *final(b),
                Err(e) => scalar_unset::<i32>(old(self)@, name@, row as int, e) && final(self)@
                    == old(self)@,
            },
    {
        self.set_scalar_at::<i32>(name, row, value)?;
        Ok(self)
    }

    pub fn set_i64(&mut self, name: &str, value: i64) -> (r: Result<&mut Self>)
        requires
            old(self)@.wf(),
        ensures
            old(self)@.rows == 0 ==> no_row_yet(r) && final(self)@ == old(self)@,
            old(self)@.rows > 0 ==> match r {
                Ok(b) => scalar_set::<i64>(old(self)@, name@, old(self)@.rows - 1, value, b@)
                    && *final(self) == *final(b),
                Err(e) => scalar_unset::<i64>(old(self)@, name@, old(self)@.rows - 1, e)
                    && final(self)@ == old(self)@,
            },
    {
        let row: u32 = self.last_row()?;
        self.set_i64_at(name, row, value)
    }

    pub fn set_i64_at(&mut self, name: &str, row: u32, value: i64) -> (r: Result<&mut Self>)
        requires
            old(self)@.wf(),
        ensures
            match r {
                Ok(b) => scalar_set::<i64>(old(self)@, name@, row as int, value, b@)
                    && *final(self) == *final(b),
                Err(e) => scalar_unset::<i64>(old(self)@, name@, row as int, e) && final(self)@
                    == old(self)@,
            },
    {
        self.set_scalar_at::<i64>(name, row, value)?;
        Ok(self)
    }

    pub fn set_i16(&mut self, name: &str, value: i16) -> (r: Result<&mut Self>)
        requires
            old(self)@.wf(),
        ensures
            old(self)@.rows == 0 ==> no_row_yet(r) && final(self)@ == old(self)@,
            old(self)@.rows > 0 ==> match r {
                Ok(b) => scalar_set::<i16>(old(self)@, name@, old(self)@.rows - 1, value, b@)
                    && *final(self) == *final(b),
                Err(e) => scalar_unset::<i16>(old(self)@, name@, old(self)@.rows - 1, e)
                    && final(self)@ == old(self)@,
            },
    {
        let row: u32 = self.last_row()?;
        self.set_i16_at(name, row, value)
    }

    pub fn set_i16_at(&mut self, name: &str, row: u32, value: i16) -> (r: Result<&mut Self>)
        requires
            old(self)@.wf(),
        ensures
            match r {
                Ok(b) => scalar_set::<i16>(old(self)@, name@, row as int, value, b@)
                    && *final(self) == *final(b),
                Err(e) => scalar_unset::<i16>(old(self)@, name@, row as int, e) && final(self)@
                    == old(self)@,
            },
    {
        self.set_scalar_at::<i16>(name, row, value)?;
        Ok(self)
    }

    pub fn set_i8(&mut self, name: &str, value: i8) -> (r: Result<&mut Self>)
        requires
            old(self)@.wf(),
        ensures
            old(self)@.rows == 0 ==> no_row_yet(r) && final(self)@ == old(self)@,
            old(self)@.rows > 0 ==> match r {
                Ok(b) => scalar_set::<i8>(old(self)@, name@, old(self)@.rows - 1, value, b@)
                    && *final(self) == *final(b),
                Err(e) => scalar_unset::<i8>(old(self)@, name@, old(self)@.rows - 1, e)
                    && final(self)@ == old(self)@,
            },
    {
        let row: u32 = self.last_row()?;
        self.set_i8_at(name, row, value)
    }

    pub fn set_i8_at(&mut self, name: &str, row: u32, value: i8) -> (r: Result<&mut Self>)
        requires
            old(self)@.wf(),
        ensures
            match r {
                Ok(b) => scalar_set::<i8>(old(self)@, name@, row as int, value, b@)
                    && *final(self) == *final(b),
                Err(e) => scalar_unset::<i8>(old(self)@, name@, row as int, e) && final(self)@
                    == old(self)@,
            },
    {
        self.set_scalar_at::<i8>(name, row, value)?;
        Ok(self)
    }

    pub fn set_f32(&mut self, name: &str, value: Float32) -> (r: Result<&mut Self>)
        requires
            old(self)@.wf(),
        ensures
            old(self)@.rows == 0 ==> no_row_yet(r) && final(self)@ == old(self)@,
            old(self)@.rows > 0 ==> match r {
                Ok(b) => scalar_set::<Float32>(old(self)@, name@, old(self)@.rows - 1, value, b@)
                    && *final(self) == *final(b),
                Err(e) => scalar_unset::<Float32>(old(self)@, name@, old(self)@.rows - 1, e)
                    && final(self)@ == old(self)@,
            },
    {
        let row: u32 = self.last_row()?;
        self.set_f32_at(name, row, value)
    }

    pub fn set_f32_at(&mut self, name: &str, row: u32, value: Float32) -> (r: Result<&mut Self>)
        requires
            old(self)@.wf(),
        ensures
            match r {
                Ok(b) => scalar_set::<Float32>(old(self)@, name@, row as int, value, b@)
                    && *final(self) == *final(b),
                Err(e) => scalar_unset::<Float32>(old(self)@, name@, row as int, e) && final(self)@
                    == old(self)@,
            },
    {
        self.set_scalar_at::<Float32>(name, row, value)?;
        Ok(self)
    }

    pub fn set_f64(&mut self, name: &str, value: Float64) -> (r: Result<&mut Self>)
        requires
            old(self)@.wf(),
        ensures
            old(self)@.rows == 0 ==> no_row_yet(r) && final(self)@ == old(self)@,
            old(self)@.rows > 0 ==> match r {
                Ok(b) => scalar_set::<Float64>(old(self)@, name@, old(self)@.rows - 1, value, b@)
                    && *final(self) == *final(b),
                Err(e) => scalar_unset::<Float64>(old(self)@, name@, old(self)@.rows - 1, e)
                    && final(self)@ == old(self)@,
            },
    {
        let row: u32 = self.last_row()?;
        self.set_f64_at(name, row, value)
    }

    pub fn set_f64_at(&mut self, name: &str, row: u32, value: Float64) -> (r: Result<&mut Self>)
        requires
            old(self)@.wf(),
        ensures
            match r {
                Ok(b) => scalar_set::<Float64>(old(self)@, name@, row as int, value, b@)
                    && *final(self) == *final(b),
                Err(e) => scalar_unset::<Float64>(old(self)@, name@, row as int, e) && final(self)@
                    == old(self)@,
            },
    {
        self.set_scalar_at::<Float64>(name, row, value)?;
        Ok(self)
    }

    /// Write an array into the row that was pushed last.
    pub fn set_array<S: BankScalarType>(&mut self, name: &str, values: &[S]) -> (r: Result<&mut Self>)
        requires
            old(self)@.wf(),
        ensures
            old(self)@.rows == 0 ==> no_row_yet(r) && final(self)@ == old(self)@,
            old(self)@.rows > 0 ==> match r {
                Ok(b) => array_set::<S>(old(self)@, name@, old(self)@.rows - 1, values@, b@)
                    && *final(self) == *final(b),
                Err(e) => array_unset::<S>(old(self)@, name@, old(self)@.rows - 1, values@, e)
                    && final(self)@ == old(self)@,
            },
    {
        let row: u32 = self.last_row()?;
        self.set_array_at::<S>(name, row, values)
    }

    /// Write an array into row `row`. The column must hold elements of the array's type, as
    /// many per cell as the array has.
    pub fn set_array_at<S: BankScalarType>(&mut self, name: &str, row: u32, values: &[S]) -> (r:
        Result<&mut Self>)
        requires
            old(self)@.wf(),
        ensures
            match r {
                Ok(b) => array_set::<S>(old(self)@, name@, row as int, values@, b@)
                    && *final(self) == *final(b),
                Err(e) => array_unset::<S>(old(self)@, name@, row as int, values@, e) && final(self)@ == old(self)@,
            },
    {
        let ty = S::data_type();
        let col: usize = self.check_col(name, ty)?;
        if row >= self.rows {
            return Err(
                HipoError::InvalidUsage {
                    what: "BankBuilder: row index out of range (call push_rows first)",
                },
            );
        }
        let length: u32 = self.schema.entries()[col].length;
        if values.len() != length as usize {
            return Err(
                HipoError::ColumnLengthMismatch {
                    schema: owned(self.schema.name()),
                    column: owned(name),
                    expected: length,
                    actual: values.len() as u32,
                },
            );
        }
        let bytes = encode_all::<S>(values);
        proof {
            lemma_encoded_all_len(values@);
            let size = ty.spec_size();
            assert(size * values.len() == values.len() * size) by (nonlinear_arith);
        }
        self.put(col, row, bytes.as_slice());
        Ok(self)
    }

    /// Append the structure header and the column data to `out`. A bank whose data does not
    /// fit the 24-bit size field is refused, and `out` stays as it is.
    pub fn finish_into(&self, out: &mut Vec<u8>) -> (r: Result<()>)
        ensures
            finish_outcome(self@, r),
            r is Ok ==> final(out)@ == old(out)@ + self@.structure(),
            r is Err ==> final(out)@ == old(out)@,
    {
        let mut size: usize = 0;
        let mut c: usize = 0;
        while c < self.columns.len()
            invariant
                c <= self.columns.len(),
                self.columns.len() == self@.columns.len(),
                size == crate::compress::capped(concat(self@.columns.subrange(0, c as int)).len()),
            decreases self.columns.len() - c,
        {
            proof {
                lemma_concat_step(self@.columns, c as int);
            }
            size = size.saturating_add(self.columns[c].len());
            c = c + 1;
        }
        assert(self@.columns.subrange(0, c as int) =~= self@.columns);
        if size > MAX_BANK_BYTES {
            return Err(
                HipoError::BankTooLarge {
                    schema: owned(self.schema.name()),
                    size,
                    max: MAX_BANK_BYTES,
                },
            );
        }
        let ghost head = le16(self@.schema.group) + seq![self@.schema.item, 11u8] + le32(
            size as u32,
        );
        push_u16_le(out, self.schema.group());
        out.push(self.schema.item());
        // The type code of a plain bank.
        out.push(11);
        push_u32_le(out, size as u32);
        assert(out@ =~= old(out)@ + head);
        let mut k: usize = 0;
        while k < self.columns.len()
            invariant
                k <= self.columns.len(),
                self.columns.len() == self@.columns.len(),
                out@ =~= old(out)@ + head + concat(self@.columns.subrange(0, k as int)),
            decreases self.columns.len() - k,
        {
            proof {
                lemma_concat_step(self@.columns, k as int);
            }
            push_bytes(out, self.columns[k].as_slice());
            k = k + 1;
        }
        assert(self@.columns.subrange(0, k as int) =~= self@.columns);
        assert(out@ =~= old(out)@ + self@.structure());
        Ok(())
    }

    /// The structure as a fresh vector.
    pub fn finish(self) -> (r: Result<Vec<u8>>)
        ensures
            match r {
                Ok(v) => finish_outcome(self@, Ok(())) && v@ == self@.structure(),
                Err(e) => finish_outcome(self@, Err(e)),
            },
    {
        let mut out: Vec<u8> = Vec::new();
        self.finish_into(&mut out)?;
        assert(Seq::<u8>::empty() + self@.structure() =~= self@.structure());
        Ok(out)
    }
}

/// What setting the scalar cell `(name, row)` does: an error says why it could not be done and
/// nothing changes; otherwise the cell holds the value.
pub open spec fn set_outcome<S: BankScalarType>(
    before: BuilderView,
    name: Seq<char>,
    row: int,
    value: S,
    r: Result<()>,
    after: BuilderView,
) -> bool {
    match r {
        Ok(_) => scalar_set::<S>(before, name, row, value, after),
        Err(e) => scalar_unset::<S>(before, name, row, e) && after == before,
    }
}

/// Why a scalar cannot be set: `cell_fault`, with the length checked before the row.
pub open spec fn scalar_fault<S: BankScalarType>(b: BuilderView, name: Seq<char>, row: int) -> Fault {
    match cell_fault(b, name, S::spec_type(), row, 1) {
        Fault::NoRow => if b.schema.entries[the_column(b.schema, name)].length != 1 {
            Fault::OtherLength
        } else {
            Fault::NoRow
        },
        f => f,
    }
}

/// The scalar could be set, and it was.
pub open spec fn scalar_set<S: BankScalarType>(
    before: BuilderView,
    name: Seq<char>,
    row: int,
    value: S,
    after: BuilderView,
) -> bool {
    &&& scalar_fault::<S>(before, name, row) is Absent
    &&& after == before.with_cell(the_column(before.schema, name), row, value.encoded())
    &&& after.wf()
}

/// The scalar could not be set, for the reason that `e` gives.
pub open spec fn scalar_unset<S: BankScalarType>(
    before: BuilderView,
    name: Seq<char>,
    row: int,
    e: HipoError,
) -> bool {
    is_fault_error(
        scalar_fault::<S>(before, name, row),
        before,
        name,
        S::spec_type(),
        1,
        before.schema.entries[the_column(before.schema, name)].length,
        e,
    )
}

/// The array could be set, and it was.
pub open spec fn array_set<S: BankScalarType>(
    before: BuilderView,
    name: Seq<char>,
    row: int,
    values: Seq<S>,
    after: BuilderView,
) -> bool {
    &&& cell_fault(before, name, S::spec_type(), row, values.len()) is Absent
    &&& after == before.with_cell(the_column(before.schema, name), row, encoded_all(values))
    &&& after.wf()
}

/// The array could not be set, for the reason that `e` gives.
pub open spec fn array_unset<S: BankScalarType>(
    before: BuilderView,
    name: Seq<char>,
    row: int,
    values: Seq<S>,
    e: HipoError,
) -> bool {
    is_fault_error(
        cell_fault(before, name, S::spec_type(), row, values.len()),
        before,
        name,
        S::spec_type(),
        before.schema.entries[the_column(before.schema, name)].length,
        values.len() as u32,
        e,
    )
}

/// A setter was called before any row was pushed.
pub open spec fn no_row_yet<T>(r: Result<T>) -> bool {
    r matches Err(e) && e == (HipoError::InvalidUsage {
        what: "BankBuilder: set_* called before push_row()",
    })
}

/// A bank is refused exactly where its data does not fit the size field.
pub open spec fn finish_outcome(b: BuilderView, r: Result<()>) -> bool {
    match r {
        Ok(_) => b.data().len() <= MAX_BANK_BYTES,
        Err(e) => b.data().len() > MAX_BANK_BYTES && (e matches HipoError::BankTooLarge {
            schema,
            size,
            max,
        } && schema@ == b.schema.name && size == crate::compress::capped(b.data().len()) && max
            == MAX_BANK_BYTES),
    }
}

/// The bytes of the elements, one after the other.
fn encode_all<S: BankScalarType>(values: &[S]) -> (r: Vec<u8>)
    ensures
        r@ == encoded_all(values@),
{
    let mut out: Vec<u8> = Vec::new();
    let mut i: usize = 0;
    while i < values.len()
        invariant
            i <= values.len(),
            out@ == encoded_all(values@.subrange(0, i as int)),
        decreases values.len() - i,
    {
        assert(values@.subrange(0, i + 1).drop_last() =~= values@.subrange(0, i as int));
        let bytes = values[i].to_le();
        push_bytes(&mut out, bytes.as_slice());
        i = i + 1;
    }
    assert(values@.subrange(0, i as int) =~= values@);
    out
}

/// The structures that an event builder has been given, and its tag.
#[verifier::ext_equal]
pub struct EventBuilderView {
    pub structures: Seq<u8>,
    pub tag: u32,
}

impl EventBuilderView {
    /// The event that `finish` writes: `EVNT`, the size, the tag, a reserved word, the
    /// structures.
    pub open spec fn event(self) -> Seq<u8> {
        seq![0x45u8, 0x56, 0x4E, 0x54] + le32((16 + self.structures.len()) as u32) + le32(self.tag)
            + le32(0) + self.structures
    }
}

/// How many structures `s` holds from `pos` on. The last may be cut off within its data.
pub open spec fn count_structures(s: Seq<u8>, pos: int) -> nat
    decreases s.len() + 0x100_0000 - pos,
{
    if pos + 8 <= s.len() {
        1 + count_structures(s, next_structure(s, pos))
    } else {
        0
    }
}

/// Builds an event out of banks.
#[derive(Debug)]
pub struct EventBuilder {
    structures: Vec<u8>,
    tag: u32,
}

impl View for EventBuilder {
    type V = EventBuilderView;

    closed spec fn view(&self) -> EventBuilderView {
        EventBuilderView { structures: self.structures@, tag: self.tag }
    }
}

impl Default for EventBuilder {
    fn default() -> (r: Self)
        ensures
            r@ == (EventBuilderView { structures: Seq::empty(), tag: 0 }),
    {
        EventBuilder::new()
    }
}

impl EventBuilder {
    pub fn new() -> (r: Self)
        ensures
            r@ == (EventBuilderView { structures: Seq::empty(), tag: 0 }),
    {
        EventBuilder { structures: Vec::new(), tag: 0 }
    }

    /// Set the per-event tag.
    pub fn with_tag(self, tag: u32) -> (r: Self)
        ensures
            r@ == (EventBuilderView { tag, ..self@ }),
    {
        EventBuilder { structures: self.structures, tag }
    }

    pub fn tag(&self) -> (r: u32)
        ensures
            r == self@.tag,
    {
        self.tag
    }

    /// Set the per-event tag in place.
    pub fn set_tag(&mut self, tag: u32) -> (r: &mut Self)
        ensures
            r@ == (EventBuilderView { tag, ..old(self)@ }),
            *final(self) == *final(r),
    {
        self.tag = tag;
        self
    }

    /// Append the bytes of a structure.
    pub fn add_bank_bytes(&mut self, bank_bytes: &[u8]) -> (r: &mut Self)
        ensures
            r@ == (EventBuilderView { structures: old(self)@.structures + bank_bytes@, ..old(self)@ }),
            *final(self) == *final(r),
    {
        push_bytes(&mut self.structures, bank_bytes);
        self
    }

    /// Serialise `bank` and append it. Fails where `bank` is too large.
    pub fn add(&mut self, bank: BankBuilder<'_>) -> (r: Result<&mut Self>)
        ensures
            match r {
                Ok(b) => finish_outcome(bank@, Ok(())) && b@ == (EventBuilderView {
                    structures: old(self)@.structures + bank@.structure(),
                    ..old(self)@
                }) && *final(self) == *final(b),
                Err(e) => finish_outcome(bank@, Err(e)) && final(self)@ == old(self)@,
            },
    {
        let bytes = bank.finish()?;
        Ok(self.add_bank_bytes(bytes.as_slice()))
    }

    /// Serialise `bank` and append it, without an intermediate vector.
    pub fn add_bank(&mut self, bank: &BankBuilder<'_>) -> (r: Result<&mut Self>)
        ensures
            match r {
                Ok(b) => finish_outcome(bank@, Ok(())) && b@ == (EventBuilderView {
                    structures: old(self)@.structures + bank@.structure(),
                    ..old(self)@
                }) && *final(self) == *final(b),
                Err(e) => finish_outcome(bank@, Err(e)) && final(self)@ == old(self)@,
            },
    {
        bank.finish_into(&mut self.structures)?;
        Ok(self)
    }

    /// How many structures have been added, counted by walking them.
    pub fn structure_count(&self) -> (r: usize)
        ensures
            r == count_structures(self@.structures, 0),
    {
        let mut pos: usize = 0;
        let mut count: usize = 0;
        while pos <= self.structures.len() && self.structures.len() - pos >= 8
            invariant
                count + count_structures(self@.structures, pos as int) == count_structures(
                    self@.structures,
                    0,
                ),
                8 * count <= pos,
                pos <= self.structures.len() || pos <= self.structures.len() + 0x100_0000,
                self@.structures == self.structures@,
            decreases self.structures.len() + 0x200_0000 - pos,
        {
            let h = StructureHeader::parse_at(self.structures.as_slice(), pos);
            let step: usize = 8 + h.data_size as usize;
            if step > usize::MAX - pos {
                // The structure runs past anything addressable, so it is the last.
                assert(count_structures(self@.structures, next_structure(self@.structures, pos as int))
                    == 0);
                return count + 1;
            }
            pos = pos + step;
            count = count + 1;
        }
        count
    }

    /// How many bytes the structures take up.
    pub(crate) fn len(&self) -> (r: usize)
        ensures
            r == self@.structures.len(),
    {
        self.structures.len()
    }

    pub fn finished_size(&self) -> (r: usize)
        requires
            16 + self@.structures.len() <= usize::MAX,
        ensures
            r == 16 + self@.structures.len(),
    {
        16 + self.structures.len()
    }

    /// Clear the structures and the tag, keeping the buffer.
    pub fn reset(&mut self)
        ensures
            final(self)@ == (EventBuilderView { structures: Seq::empty(), tag: 0 }),
    {
        self.structures.clear();
        self.tag = 0;
    }

    /// Append the event to `out`.
    pub fn finish_into(&self, out: &mut Vec<u8>)
        requires
            16 + self@.structures.len() <= u32::MAX,
        ensures
            final(out)@ == old(out)@ + self@.event(),
    {
        out.push(0x45);
        out.push(0x56);
        out.push(0x4E);
        out.push(0x54);
        push_u32_le(out, (16 + self.structures.len()) as u32);
        push_u32_le(out, self.tag);
        push_u32_le(out, 0);
        push_bytes(out, self.structures.as_slice());
        assert(out@ =~= old(out)@ + self@.event());
    }

    pub fn finish(self) -> (r: Vec<u8>)
        requires
            16 + self@.structures.len() <= u32::MAX,
        ensures
            r@ == self@.event(),
    {
        let mut out: Vec<u8> = Vec::new();
        self.finish_into(&mut out);
        assert(Seq::<u8>::empty() + self@.event() =~= self@.event());
        out
    }
}

/// The columns before column `k` take up as many bytes as their widths say.
proof fn lemma_column_starts(b: BuilderView, k: int)
    requires
        b.wf(),
        0 <= k <= b.columns.len(),
    ensures
        run_start(b.columns, k) == b.rows * widths(b.schema.entries, k as nat),
    decreases k,
{
    if k > 0 {
        lemma_column_starts(b, k - 1);
        lemma_concat_step(b.columns, k - 1);
        let before = widths(b.schema.entries, (k - 1) as nat);
        let w = b.schema.entries[k - 1].width();
        assert(b.rows * (before + w) == b.rows * before + b.rows * w) by (nonlinear_arith);
    } else {
        assert(b.rows * 0 == 0) by (nonlinear_arith);
    }
}

/// What a bank builder was given, a bank gives back: the data of the structure that it writes
/// is a bank with the same number of rows, and each cell holds the bytes that were put there.
pub proof fn law_built_bank_reads_back(b: BuilderView, col: int, row: int)
    requires
        b.wf(),
        b.data().len() <= MAX_BANK_BYTES,
        b.schema.row_size > 0,
        0 <= col < b.columns.len(),
        0 <= row < b.rows,
    ensures
        BankState::of(b.schema, b.data()) matches Some(bank) && bank.rows == b.rows && bank.cell(
            col,
            row,
        ) == b.columns[col].subrange(
            row * b.schema.entries[col].width(),
            row * b.schema.entries[col].width() + b.schema.entries[col].width(),
        ),
{
    let n = b.columns.len() as int;
    let total = widths(b.schema.entries, n as nat);
    lemma_column_starts(b, n);
    assert(b.columns.subrange(0, n) =~= b.columns);
    assert(b.data().len() == b.rows * total);
    assert(total <= MAX_BANK_BYTES) by (nonlinear_arith)
        requires
            b.rows >= 1,
            b.rows * total <= MAX_BANK_BYTES,
    ;
    assert(b.schema.row_size == total);
    assert((b.rows * total) % total == 0 && (b.rows * total) / total == b.rows)
        by (nonlinear_arith)
        requires
            total > 0,
    ;
    let bank = BankState::of(b.schema, b.data())->0;
    assert(bank.rows == b.rows);
    lemma_column_starts(b, col);
    lemma_concat_at(b.columns, col);
    let w = b.schema.entries[col].width();
    assert(0 <= row * w && row * w + w <= b.rows * w) by (nonlinear_arith)
        requires
            0 <= row < b.rows,
            w >= 0,
    ;
    assert(bank.cell(col, row) =~= b.columns[col].subrange(row * w, row * w + w)) by {
        let start = run_start(b.columns, col);
        let whole = b.data().subrange(start, start + b.columns[col].len());
        assert(bank.cell(col, row) =~= whole.subrange(row * w, row * w + w));
    }
}

/// A cell that was set holds what it was set to, and setting it leaves every other cell alone.
pub proof fn law_set_cell(b: BuilderView, col: int, row: int, bytes: Seq<u8>, c: int, r: int)
    requires
        b.wf(),
        0 <= col < b.columns.len(),
        0 <= row < b.rows,
        bytes.len() == b.schema.entries[col].width(),
        0 <= c < b.columns.len(),
        0 <= r < b.rows,
    ensures
        b.with_cell(col, row, bytes).columns[c].subrange(
            r * b.schema.entries[c].width(),
            r * b.schema.entries[c].width() + b.schema.entries[c].width(),
        ) == (if c == col && r == row {
            bytes
        } else {
            b.columns[c].subrange(
                r * b.schema.entries[c].width(),
                r * b.schema.entries[c].width() + b.schema.entries[c].width(),
            )
        }),
{
    lemma_with_cell_wf(b, col, row, bytes);
    let w = b.schema.entries[c].width();
    assert(0 <= r * w && r * w + w <= b.rows * w) by (nonlinear_arith)
        requires
            0 <= r < b.rows,
            w >= 0,
    ;
    if c == col {
        if r < row {
            assert(r * w + w <= row * w) by (nonlinear_arith)
                requires
                    r < row,
                    w >= 0,
            ;
        } else if row < r {
            assert(row * w + w <= r * w) by (nonlinear_arith)
                requires
                    row < r,
                    w >= 0,
            ;
        }
        let col_after = b.with_cell(col, row, bytes).columns[c];
        let expected = if r == row {
            bytes
        } else {
            b.columns[c].subrange(r * w, r * w + w)
        };
        assert(col_after.subrange(r * w, r * w + w) =~= expected);
    }
}

/// Encoding a row of elements and decoding it again gives the elements back.
pub proof fn law_elements_round_trip<S: BankScalarType>(values: Seq<S>)
    ensures
        elements::<S>(encoded_all(values), values.len()) =~= values,
    decreases values.len(),
{
    let size = S::spec_type().spec_size();
    let bytes = encoded_all(values);
    lemma_encoded_all_len(values);
    if values.len() > 0 {
        let front = values.drop_last();
        law_elements_round_trip(front);
        lemma_encoded_all_len(front);
        values.last().law_element_round_trip();
        assert forall|k: int| 0 <= k < values.len() implies elements::<S>(bytes, values.len())[k]
            == values[k] by {
            let n = front.len();
            assert(k * size >= 0) by (nonlinear_arith)
                requires
                    k >= 0,
                    size >= 0,
            ;
            if k < n {
                assert(k * size + size <= n * size) by (nonlinear_arith)
                    requires
                        k < n,
                        size >= 0,
                ;
                assert(bytes.subrange(k * size, k * size + size) =~= encoded_all(front).subrange(
                    k * size,
                    k * size + size,
                ));
                assert(elements::<S>(encoded_all(front), n)[k] == front[k]);
            } else {
                assert(bytes.subrange(k * size, k * size + size) =~= values.last().encoded());
            }
        }
    }
}

/// The structure that a bank builder writes is the structure of its schema's id, the plain
/// bank's type code and its data.
pub proof fn law_built_structure(b: BuilderView)
    requires
        b.data().len() <= MAX_BANK_BYTES,
    ensures
        b.structure() == struct_bytes(b.as_struct()),
        b.as_struct().sized(),
{
    assert(le16(b.schema.group) + seq![b.schema.item, 11u8] + le32(b.data().len() as u32)
        + b.data() =~= struct_bytes(b.as_struct()));
}

/// What an event builder was given, an event gives back: its tag, its size, and the structures
/// in the order in which they were added.
pub proof fn law_built_event_reads_back(sts: Seq<StructView>, tag: u32)
    requires
        forall|i: int| 0 <= i < sts.len() ==> (#[trigger] sts[i]).sized(),
        16 + structs_bytes(sts).len() <= u32::MAX,
    ensures
        ({
            let ev = (EventBuilderView { structures: structs_bytes(sts), tag }).event();
            &&& event_tag(ev) == tag
            &&& event_size(ev) == ev.len()
            &&& event_structures(ev) == sts
        }),
{
    let body = structs_bytes(sts);
    let ev = (EventBuilderView { structures: body, tag }).event();
    let size = (16 + body.len()) as u32;
    law_le32_round_trip(size);
    law_le32_round_trip(tag);
    law_le32_round_trip(0);
    assert(ev.len() == 16 + body.len());
    assert(ev[4] == le32(size)[0] && ev[5] == le32(size)[1] && ev[6] == le32(size)[2] && ev[7]
        == le32(size)[3]);
    lemma_u32_at_same(ev, 4, le32(size), 0);
    assert(ev[8] == le32(tag)[0] && ev[9] == le32(tag)[1] && ev[10] == le32(tag)[2] && ev[11]
        == le32(tag)[3]);
    lemma_u32_at_same(ev, 8, le32(tag), 0);
    assert(ev.subrange(16, ev.len() as int) =~= body);
    lemma_structures_of_bytes(ev, 16, sts);
}

} // verus!
