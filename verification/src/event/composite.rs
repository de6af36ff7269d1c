//! `Composite`: heterogeneous rows described by an inline format string.
//!
//! Unlike other banks, composite banks carry their layout inline:
//!
//! ```text
//! [0..8]           structure header (group, item, type, length word)
//! [8..8+fmt_len]   format string (one lowercase letter per field)
//! [8+fmt_len..]    rows, one after the other
//! ```

use vstd::prelude::*;
use vstd::slice::{slice_subrange, slice_to_vec};
use crate::error::{HipoError, Result};
#[allow(unused_imports)]
use crate::event::event::header_at;
use crate::event::event::StructureHeader;
use crate::schema::handle::{Float32, Float64};
use crate::schema::types::DataType;
use crate::text::{chars_of, owned, text_of, utf8_text};
use crate::wire::bytes::{read_i16_le, read_u32_le, read_u64_le};
#[allow(unused_imports)]
use crate::wire::bytes::{u16_at, u32_at, u64_at};
#[allow(unused_imports)]
use crate::wire::split::corrupt;

verus! {

/// The type that a letter of a format string stands for.
pub open spec fn composite_type(c: char) -> Option<DataType> {
    if c == 'b' {
        Some(DataType::Byte)
    } else if c == 's' {
        Some(DataType::Short)
    } else if c == 'i' {
        Some(DataType::Int)
    } else if c == 'f' {
        Some(DataType::Float)
    } else if c == 'd' {
        Some(DataType::Double)
    } else if c == 'l' {
        Some(DataType::Long)
    } else {
        None
    }
}

fn type_of_letter(c: char) -> (r: Option<DataType>)
    ensures
        r == composite_type(c),
{
    match c {
        'b' => Some(DataType::Byte),
        's' => Some(DataType::Short),
        'i' => Some(DataType::Int),
        'f' => Some(DataType::Float),
        'd' => Some(DataType::Double),
        'l' => Some(DataType::Long),
        _ => None,
    }
}

/// The field types of a format string: its letters, without the characters that stand for no
/// type.
pub open spec fn field_types(s: Seq<char>) -> Seq<DataType>
    decreases s.len(),
{
    if s.len() == 0 {
        Seq::empty()
    } else {
        match composite_type(s.last()) {
            Some(t) => field_types(s.drop_last()).push(t),
            None => field_types(s.drop_last()),
        }
    }
}

/// The sizes of the first `n` fields, added up.
pub open spec fn field_sizes(ts: Seq<DataType>, n: nat) -> nat
    decreases n,
{
    if n == 0 {
        0
    } else {
        field_sizes(ts, (n - 1) as nat) + ts[n - 1].spec_size()
    }
}

/// The sizes of the first fields look at those alone.
proof fn lemma_field_sizes_same(a: Seq<DataType>, b: Seq<DataType>, n: nat)
    requires
        n <= a.len(),
        n <= b.len(),
        forall|i: int| 0 <= i < n ==> a[i] == b[i],
    ensures
        field_sizes(a, n) == field_sizes(b, n),
    decreases n,
{
    if n > 0 {
        lemma_field_sizes_same(a, b, (n - 1) as nat);
    }
}

/// More fields are at least as large.
pub proof fn lemma_field_sizes_monotone(ts: Seq<DataType>, a: nat, b: nat)
    requires
        a <= b,
    ensures
        field_sizes(ts, a) <= field_sizes(ts, b),
    decreases b,
{
    if a < b {
        lemma_field_sizes_monotone(ts, a, (b - 1) as nat);
    }
}

/// `s` without the NUL characters at its end.
pub open spec fn without_nuls(s: Seq<char>) -> Seq<char>
    decreases s.len(),
{
    if s.len() > 0 && s.last() == '\0' {
        without_nuls(s.drop_last())
    } else {
        s
    }
}

/// NUL characters at the end stand for no field.
pub proof fn lemma_nuls_no_fields(s: Seq<char>)
    ensures
        field_types(without_nuls(s)) == field_types(s),
        without_nuls(s).len() <= s.len(),
    decreases s.len(),
{
    if s.len() > 0 && s.last() == '\0' {
        lemma_nuls_no_fields(s.drop_last());
    }
}

#[derive(Debug, Clone, Copy, PartialEq, Eq, Structural)]
pub struct CompositeField {
    pub ty: DataType,
    /// Byte offset from the start of a row.
    pub row_offset: u32,
}

/// The layout of a composite bank's rows.
#[derive(Debug, Clone)]
pub struct CompositeFormat {
    pub fields: Vec<CompositeField>,
    pub row_size: u32,
}

impl CompositeFormat {
    /// The types of the fields.
    pub open spec fn types(self) -> Seq<DataType> {
        self.fields@.map_values(|f: CompositeField| f.ty)
    }

    /// Every field starts where the one before it ends, and a row is as long as its fields.
    pub open spec fn wf(self) -> bool {
        &&& self.row_size == field_sizes(self.types(), self.types().len())
        &&& forall|i: int|
            0 <= i < self.fields.len() ==> (#[trigger] self.fields@[i]).row_offset == field_sizes(
                self.types(),
                i as nat,
            )
    }

    /// Parse a format string. Characters that stand for no type are skipped. A row must fit the
    /// 32 bits of its size.
    pub fn parse(format: &str) -> (r: Result<Self>)
        requires
            format@.len() <= 0x1fff_ffff,
        ensures
            match r {
                Ok(f) => f.wf() && f.types() == field_types(format@) && f.types().len() > 0,
                Err(e) => field_types(format@).len() == 0 && (e matches HipoError::SchemaParse(m)
                    && m@ == "composite format \""@ + format@ + "\" has no fields"@),
            },
    {
        let chars = chars_of(format);
        let mut fields: Vec<CompositeField> = Vec::new();
        let mut offset: u32 = 0;
        let mut i: usize = 0;
        assert(format@.subrange(0, 0) =~= Seq::<char>::empty());
        assert(fields@.map_values(|f: CompositeField| f.ty) =~= Seq::<DataType>::empty());
        while i < chars.len()
            invariant
                i <= chars.len(),
                chars@ == format@,
                chars.len() <= 0x1fff_ffff,
                fields.len() <= i,
                offset <= 8 * i,
                fields@.map_values(|f: CompositeField| f.ty) == field_types(
                    format@.subrange(0, i as int),
                ),
                offset == field_sizes(
                    fields@.map_values(|f: CompositeField| f.ty),
                    fields.len() as nat,
                ),
                forall|k: int|
                    0 <= k < fields.len() ==> (#[trigger] fields@[k]).row_offset == field_sizes(
                        fields@.map_values(|f: CompositeField| f.ty),
                        k as nat,
                    ),
            decreases chars.len() - i,
        {
            let ghost before = fields@.map_values(|f: CompositeField| f.ty);
            assert(format@.subrange(0, i + 1).drop_last() =~= format@.subrange(0, i as int));
            if let Some(ty) = type_of_letter(chars[i]) {
                fields.push(CompositeField { ty, row_offset: offset });
                proof {
                    let after = fields@.map_values(|f: CompositeField| f.ty);
                    assert(after =~= before.push(ty));
                    assert forall|k: int| 0 <= k < fields.len() implies (
                    #[trigger] fields@[k]).row_offset == field_sizes(after, k as nat) by {
                        lemma_field_sizes_same(before, after, k as nat);
                    }
                    lemma_field_sizes_same(before, after, before.len());
                }
                offset = offset + ty.size() as u32;
            }
            i = i + 1;
        }
        assert(format@.subrange(0, i as int) =~= format@);
        if fields.len() == 0 {
            let mut msg = owned("composite format \"");
            msg.append(format);
            msg.append("\" has no fields");
            return Err(HipoError::SchemaParse(msg));
        }
        Ok(CompositeFormat { fields, row_size: offset })
    }

    pub fn fields(&self) -> (r: &[CompositeField])
        ensures
            r@ == self.fields@,
    {
        self.fields.as_slice()
    }

    pub fn row_size(&self) -> (r: u32)
        ensures
            r == self.row_size,
    {
        self.row_size
    }
}

/// What a composite bank says.
#[verifier::ext_equal]
pub struct CompositeView {
    pub types: Seq<DataType>,
    pub data: Seq<u8>,
    pub rows: nat,
}

impl CompositeView {
    /// Bytes per row.
    pub open spec fn row_size(self) -> nat {
        field_sizes(self.types, self.types.len())
    }

    /// The rows fill the data.
    pub open spec fn wf(self) -> bool {
        &&& self.rows * self.row_size() == self.data.len()
        &&& self.rows <= u32::MAX
        &&& self.row_size() <= u32::MAX
        &&& self.data.len() <= u32::MAX
    }

    /// Where field `field` of row `row` starts.
    pub open spec fn at(self, field: int, row: int) -> int {
        row * self.row_size() + field_sizes(self.types, field as nat)
    }
}

/// Every field of every row lies within the data.
pub proof fn lemma_field_in_data(v: CompositeView, field: int, row: int)
    requires
        v.wf(),
        0 <= field < v.types.len(),
        0 <= row < v.rows,
    ensures
        0 <= v.at(field, row),
        v.at(field, row) + v.types[field].spec_size() <= v.data.len(),
{
    lemma_field_sizes_monotone(v.types, (field + 1) as nat, v.types.len());
    let w = v.row_size();
    assert(0 <= row * w && row * w + w <= v.rows * w) by (nonlinear_arith)
        requires
            0 <= row < v.rows,
            w >= 0,
    ;
}

/// The bank that `data` holds for fields of these types, where its length is a whole number of
/// rows.
pub open spec fn composite_of(types: Seq<DataType>, data: Seq<u8>) -> Option<CompositeView> {
    let w = field_sizes(types, types.len());
    if w == 0 {
        Some(CompositeView { types, data: Seq::empty(), rows: 0 })
    } else if data.len() % w != 0 {
        None
    } else {
        Some(CompositeView { types, data, rows: data.len() / w })
    }
}

/// What a whole composite structure says, header included, or why it is none. The checks are
/// made in order.
pub open spec fn composite_decoded(s: Seq<u8>) -> core::result::Result<
    CompositeView,
    CompositeFault,
> {
    let h = header_at(s, 0);
    let format = s.subrange(8, 8 + h.header_size);
    if s.len() < 8 {
        Err(CompositeFault::Corrupt("composite structure shorter than header"))
    } else if h.header_size == 0 {
        Err(CompositeFault::Corrupt("composite structure has zero-length format string"))
    } else if 8 + h.header_size > s.len() || 8 + h.data_size > s.len() || h.header_size
        > h.data_size {
        Err(CompositeFault::Corrupt("composite structure truncated"))
    } else if !vstd::utf8::valid_utf8(format) {
        Err(CompositeFault::BadFormat)
    } else {
        let types = field_types(vstd::utf8::decode_utf8(format));
        if types.len() == 0 {
            Err(CompositeFault::BadFormat)
        } else {
            match composite_of(types, s.subrange(8 + h.header_size, 8 + h.data_size)) {
                Some(v) => Ok(v),
                None => Err(
                    CompositeFault::Corrupt("composite data size is not a multiple of row size"),
                ),
            }
        }
    }
}

/// What is wrong with a composite structure.
pub enum CompositeFault {
    /// A corrupt structure, for this reason.
    Corrupt(&'static str),
    /// A format string that is not UTF-8, or has no fields.
    BadFormat,
}

/// Zero-copy view over a composite structure's rows. Fields are found by position.
#[derive(Debug)]
pub struct Composite<'b> {
    format: CompositeFormat,
    data: &'b [u8],
    rows: u32,
}

impl<'b> View for Composite<'b> {
    type V = CompositeView;

    closed spec fn view(&self) -> CompositeView {
        CompositeView { types: self.format.types(), data: self.data@, rows: self.rows as nat }
    }
}

/// Read the text of a format string.
pub fn parse_format_bytes(bytes: &[u8]) -> (r: Result<CompositeFormat>)
    requires
        bytes.len() <= 255,
    ensures
        match r {
            Ok(f) => vstd::utf8::valid_utf8(bytes@) && f.wf() && f.types() == field_types(
                vstd::utf8::decode_utf8(bytes@),
            ) && f.types().len() > 0 && f.row_size <= 8 * 255,
            Err(e) => e is SchemaParse && (!vstd::utf8::valid_utf8(bytes@) || field_types(
                vstd::utf8::decode_utf8(bytes@),
            ).len() == 0),
        },
{
    match utf8_text(slice_to_vec(bytes)) {
        None => Err(HipoError::SchemaParse(owned("composite format is not valid UTF-8"))),
        Some(text) => {
            let mut chars = chars_of(text.as_str());
            let ghost all = chars@;
            proof {
                lemma_decoded_len(bytes@);
                lemma_nuls_no_fields(all);
            }
            while chars.len() > 0 && chars[chars.len() - 1] == '\0'
                invariant
                    without_nuls(chars@) == without_nuls(all),
                    chars.len() <= all.len(),
                decreases chars.len(),
            {
                let n: usize = chars.len() - 1;
                assert(chars@.subrange(0, n as int) =~= chars@.drop_last());
                chars.truncate(n);
            }
            let trimmed = text_of(chars.as_slice());
            let f = CompositeFormat::parse(trimmed.as_str())?;
            proof {
                lemma_field_types_len(chars@);
                lemma_field_sizes_bound(f.types(), f.types().len());
            }
            Ok(f)
        },
    }
}

/// A format string has at most as many fields as characters.
proof fn lemma_field_types_len(s: Seq<char>)
    ensures
        field_types(s).len() <= s.len(),
    decreases s.len(),
{
    if s.len() > 0 {
        lemma_field_types_len(s.drop_last());
    }
}

/// No field is larger than eight bytes.
proof fn lemma_field_sizes_bound(ts: Seq<DataType>, n: nat)
    ensures
        field_sizes(ts, n) <= 8 * n,
    decreases n,
{
    if n > 0 {
        lemma_field_sizes_bound(ts, (n - 1) as nat);
    }
}

/// A text has at most as many characters as bytes.
proof fn lemma_decoded_len(bytes: Seq<u8>)
    requires
        vstd::utf8::valid_utf8(bytes),
    ensures
        vstd::utf8::decode_utf8(bytes).len() <= bytes.len(),
    decreases bytes.len(),
{
    reveal_with_fuel(vstd::utf8::decode_utf8, 2);
    if bytes.len() > 0 {
        lemma_decoded_len(vstd::utf8::pop_first_scalar(bytes));
    }
}

impl<'b> Composite<'b> {
    /// The rows fill the data, and the layout is that of the fields.
    #[verifier::type_invariant]
    pub closed spec fn inv(self) -> bool {
        self@.wf() && self.format.wf()
    }

    /// Decode the bytes of a whole structure, its 8-byte header included.
    pub fn from_structure(bytes: &'b [u8]) -> (r: Result<Self>)
        ensures
            match composite_decoded(bytes@) {
                Ok(v) => r is Ok && r->Ok_0@ == v,
                Err(CompositeFault::Corrupt(reason)) => r == Err::<Self, HipoError>(
                    corrupt(reason),
                ),
                Err(CompositeFault::BadFormat) => r is Err && r->Err_0 is SchemaParse,
            },
    {
        if bytes.len() < 8 {
            return Err(
                HipoError::CorruptRecord {
                    offset: 0,
                    reason: "composite structure shorter than header",
                },
            );
        }
        let h = StructureHeader::parse_at(bytes, 0);
        let format_size: usize = h.header_size as usize;
        let data_size: usize = h.data_size as usize;
        if format_size == 0 {
            return Err(
                HipoError::CorruptRecord {
                    offset: 0,
                    reason: "composite structure has zero-length format string",
                },
            );
        }
        if format_size > bytes.len() - 8 || data_size > bytes.len() - 8 || format_size
            > data_size {
            return Err(
                HipoError::CorruptRecord { offset: 0, reason: "composite structure truncated" },
            );
        }
        let format = parse_format_bytes(slice_subrange(bytes, 8, 8 + format_size))?;
        Self::from_parts(format, slice_subrange(bytes, 8 + format_size, 8 + data_size))
    }

    /// Wrap rows with a layout. A length that is not a whole number of rows is corrupt.
    pub fn from_parts(format: CompositeFormat, data: &'b [u8]) -> (r: Result<Self>)
        requires
            format.wf(),
            data.len() <= u32::MAX,
        ensures
            match composite_of(format.types(), data@) {
                Some(v) => r is Ok && r->Ok_0@ == v,
                None => r == Err::<Self, HipoError>(
                    corrupt("composite data size is not a multiple of row size"),
                ),
            },
    {
        if format.row_size == 0 {
            let none = slice_subrange(data, 0, 0);
            assert(none@ =~= Seq::<u8>::empty());
            return Ok(Composite { format, data: none, rows: 0 });
        }
        let w: usize = format.row_size as usize;
        if data.len() % w != 0 {
            return Err(
                HipoError::CorruptRecord {
                    offset: 0,
                    reason: "composite data size is not a multiple of row size",
                },
            );
        }
        let rows: usize = data.len() / w;
        assert(rows * w == data.len() && rows <= data.len()) by (nonlinear_arith)
            requires
                w > 0,
                rows == data.len() as int / w as int,
                data.len() as int % w as int == 0,
        ;
        Ok(Composite { format, data, rows: rows as u32 })
    }

    pub fn format(&self) -> (r: &CompositeFormat)
        ensures
            r.types() == self@.types,
            r.wf(),
    {
        proof {
            use_type_invariant(self);
        }
        &self.format
    }

    pub fn rows(&self) -> (r: u32)
        ensures
            r == self@.rows,
    {
        self.rows
    }

    pub fn is_empty(&self) -> (r: bool)
        ensures
            r == (self@.rows == 0),
    {
        self.rows == 0
    }

    pub fn fields(&self) -> (r: &[CompositeField])
        ensures
            r.len() == self@.types.len(),
            forall|i: int| 0 <= i < r.len() ==> (#[trigger] r@[i]).ty == self@.types[i],
    {
        self.format.fields.as_slice()
    }

    /// Where a field of a row starts.
    fn offset(&self, field: usize, row: u32) -> (r: usize)
        requires
            field < self@.types.len(),
            row < self@.rows,
        ensures
            r == self@.at(field as int, row as int),
            r + self@.types[field as int].spec_size() <= self@.data.len(),
            self@.types[field as int] == self.format.fields@[field as int].ty,
    {
        proof {
            use_type_invariant(self);
            lemma_field_in_data(self@, field as int, row as int);
            let w = self@.row_size();
            assert(row as int * w >= 0) by (nonlinear_arith)
                requires
                    w >= 0,
                    row >= 0,
            ;
        }
        row as usize * self.format.row_size as usize + self.format.fields[field].row_offset as usize
    }

    pub fn i8(&self, field: usize, row: u32) -> (r: i8)
        requires
            field < self@.types.len(),
            row < self@.rows,
        ensures
            r == self@.data[self@.at(field as int, row as int)] as i8,
    {
        let off: usize = self.offset(field, row);
        self.data[off] as i8
    }

    /// The two bytes where the field starts, whatever its type. They must be there.
    pub fn i16(&self, field: usize, row: u32) -> (r: i16)
        requires
            field < self@.types.len(),
            row < self@.rows,
            self@.at(field as int, row as int) + 2 <= self@.data.len(),
        ensures
            r == u16_at(self@.data, self@.at(field as int, row as int)) as i16,
    {
        let off: usize = self.offset(field, row);
        read_i16_le(self.data, off)
    }

    /// An integer field of up to four bytes; zero for any other.
    pub fn i32(&self, field: usize, row: u32) -> (r: i32)
        requires
            field < self@.types.len(),
            row < self@.rows,
        ensures
            ({
                let at = self@.at(field as int, row as int);
                r == (match self@.types[field as int] {
                    DataType::Byte => (self@.data[at] as i8) as i32,
                    DataType::Short => (u16_at(self@.data, at) as i16) as i32,
                    DataType::Int => u32_at(self@.data, at) as i32,
                    _ => 0,
                })
            }),
    {
        let off: usize = self.offset(field, row);
        match self.format.fields[field].ty {
            DataType::Byte => self.data[off] as i8 as i32,
            DataType::Short => read_i16_le(self.data, off) as i32,
            DataType::Int => read_u32_le(self.data, off) as i32,
            _ => 0,
        }
    }

    /// An integer field; zero for any other.
    pub fn i64(&self, field: usize, row: u32) -> (r: i64)
        requires
            field < self@.types.len(),
            row < self@.rows,
        ensures
            ({
                let at = self@.at(field as int, row as int);
                r == (match self@.types[field as int] {
                    DataType::Long => u64_at(self@.data, at) as i64,
                    DataType::Int => (u32_at(self@.data, at) as i32) as i64,
                    DataType::Short => (u16_at(self@.data, at) as i16) as i64,
                    DataType::Byte => (self@.data[at] as i8) as i64,
                    _ => 0,
                })
            }),
    {
        let off: usize = self.offset(field, row);
        match self.format.fields[field].ty {
            DataType::Long => read_u64_le(self.data, off) as i64,
            DataType::Int => read_u32_le(self.data, off) as i32 as i64,
            DataType::Short => read_i16_le(self.data, off) as i64,
            DataType::Byte => self.data[off] as i8 as i64,
            _ => 0,
        }
    }

    /// A single-precision field; the zero pattern for any other.
    pub fn single(&self, field: usize, row: u32) -> (r: Float32)
        requires
            field < self@.types.len(),
            row < self@.rows,
        ensures
            r.bits == (match self@.types[field as int] {
                DataType::Float => u32_at(self@.data, self@.at(field as int, row as int)),
                _ => 0,
            }),
    {
        let off: usize = self.offset(field, row);
        match self.format.fields[field].ty {
            DataType::Float => Float32 { bits: read_u32_le(self.data, off) },
            _ => Float32 { bits: 0 },
        }
    }

    /// A double-precision field; the zero pattern for any other.
    pub fn double(&self, field: usize, row: u32) -> (r: Float64)
        requires
            field < self@.types.len(),
            row < self@.rows,
        ensures
            r.bits == (match self@.types[field as int] {
                DataType::Double => u64_at(self@.data, self@.at(field as int, row as int)),
                _ => 0,
            }),
    {
        let off: usize = self.offset(field, row);
        match self.format.fields[field].ty {
            DataType::Double => Float64 { bits: read_u64_le(self.data, off) },
            _ => Float64 { bits: 0 },
        }
    }
}

} // verus!
