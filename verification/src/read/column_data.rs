//! Columns that were read: one flat run of values each, and the rows of every event.

use vstd::prelude::*;
#[allow(unused_imports)]
use crate::event::bank::elements;
use crate::event::bank::read_elements;
use crate::schema::handle::{Float32, Float64};
#[allow(unused_imports)]
use crate::schema::handle::BankScalarType;
use crate::schema::types::DataType;
#[allow(unused_imports)]
use crate::schema::types::EntryView;

verus! {

/// The values of a column. A column of `T#N` holds `N` values per row, and
/// [`MaterializedColumn::inner_len`] says so.
#[derive(Debug, PartialEq, Eq)]
pub enum ColumnData {
    I8(Vec<i8>),
    I16(Vec<i16>),
    I32(Vec<i32>),
    I64(Vec<i64>),
    F32(Vec<Float32>),
    F64(Vec<Float64>),
}

impl ColumnData {
    /// The type of the values.
    pub open spec fn spec_type(self) -> DataType {
        match self {
            ColumnData::I8(_) => DataType::Byte,
            ColumnData::I16(_) => DataType::Short,
            ColumnData::I32(_) => DataType::Int,
            ColumnData::I64(_) => DataType::Long,
            ColumnData::F32(_) => DataType::Float,
            ColumnData::F64(_) => DataType::Double,
        }
    }

    /// How many values there are.
    pub open spec fn spec_len(self) -> nat {
        match self {
            ColumnData::I8(v) => v@.len(),
            ColumnData::I16(v) => v@.len(),
            ColumnData::I32(v) => v@.len(),
            ColumnData::I64(v) => v@.len(),
            ColumnData::F32(v) => v@.len(),
            ColumnData::F64(v) => v@.len(),
        }
    }

    /// The values are of type `ty`, and are those that `bytes` encode.
    pub open spec fn decodes(self, ty: DataType, bytes: Seq<u8>) -> bool {
        let n = bytes.len() / ty.spec_size();
        &&& self.spec_type() == ty
        &&& match self {
            ColumnData::I8(v) => v@ == elements::<i8>(bytes, n),
            ColumnData::I16(v) => v@ == elements::<i16>(bytes, n),
            ColumnData::I32(v) => v@ == elements::<i32>(bytes, n),
            ColumnData::I64(v) => v@ == elements::<i64>(bytes, n),
            ColumnData::F32(v) => v@ == elements::<Float32>(bytes, n),
            ColumnData::F64(v) => v@ == elements::<Float64>(bytes, n),
        }
    }

    /// No values, of the given type.
    pub fn empty_for(dt: DataType) -> (r: Self)
        ensures
            r.spec_type() == dt,
            r.spec_len() == 0,
    {
        match dt {
            DataType::Byte => ColumnData::I8(Vec::new()),
            DataType::Short => ColumnData::I16(Vec::new()),
            DataType::Int => ColumnData::I32(Vec::new()),
            DataType::Long => ColumnData::I64(Vec::new()),
            DataType::Float => ColumnData::F32(Vec::new()),
            DataType::Double => ColumnData::F64(Vec::new()),
        }
    }

    /// The values of type `dt` that `bytes` encode.
    pub fn decode(dt: DataType, bytes: &[u8]) -> (r: Self)
        ensures
            r.decodes(dt, bytes@),
            r.spec_len() == bytes.len() / (dt.spec_size() as usize),
    {
        match dt {
            DataType::Byte => ColumnData::I8(decode_all(bytes)),
            DataType::Short => ColumnData::I16(decode_all(bytes)),
            DataType::Int => ColumnData::I32(decode_all(bytes)),
            DataType::Long => ColumnData::I64(decode_all(bytes)),
            DataType::Float => ColumnData::F32(decode_all(bytes)),
            DataType::Double => ColumnData::F64(decode_all(bytes)),
        }
    }

    /// Append a value. Where the values are of another type, nothing happens; so too for the
    /// other five.
    pub fn push_i8(&mut self, v: i8)
        ensures
            match *old(self) {
                ColumnData::I8(b) => *final(self) is I8 && final(self)->I8_0@ == b@.push(v),
                _ => *final(self) == *old(self),
            },
    {
        match self {
            ColumnData::I8(b) => {
                b.push(v);
            },
            _ => {},
        }
    }

    pub fn push_i16(&mut self, v: i16)
        ensures
            match *old(self) {
                ColumnData::I16(b) => *final(self) is I16 && final(self)->I16_0@ == b@.push(v),
                _ => *final(self) == *old(self),
            },
    {
        match self {
            ColumnData::I16(b) => {
                b.push(v);
            },
            _ => {},
        }
    }

    pub fn push_i32(&mut self, v: i32)
        ensures
            match *old(self) {
                ColumnData::I32(b) => *final(self) is I32 && final(self)->I32_0@ == b@.push(v),
                _ => *final(self) == *old(self),
            },
    {
        match self {
            ColumnData::I32(b) => {
                b.push(v);
            },
            _ => {},
        }
    }

    pub fn push_i64(&mut self, v: i64)
        ensures
            match *old(self) {
                ColumnData::I64(b) => *final(self) is I64 && final(self)->I64_0@ == b@.push(v),
                _ => *final(self) == *old(self),
            },
    {
        match self {
            ColumnData::I64(b) => {
                b.push(v);
            },
            _ => {},
        }
    }

    pub fn push_f32(&mut self, v: Float32)
        ensures
            match *old(self) {
                ColumnData::F32(b) => *final(self) is F32 && final(self)->F32_0@ == b@.push(v),
                _ => *final(self) == *old(self),
            },
    {
        match self {
            ColumnData::F32(b) => {
                b.push(v);
            },
            _ => {},
        }
    }

    pub fn push_f64(&mut self, v: Float64)
        ensures
            match *old(self) {
                ColumnData::F64(b) => *final(self) is F64 && final(self)->F64_0@ == b@.push(v),
                _ => *final(self) == *old(self),
            },
    {
        match self {
            ColumnData::F64(b) => {
                b.push(v);
            },
            _ => {},
        }
    }

    /// The type of the values.
    pub fn data_type(&self) -> (r: DataType)
        ensures
            r == self.spec_type(),
    {
        match self {
            ColumnData::I8(_) => DataType::Byte,
            ColumnData::I16(_) => DataType::Short,
            ColumnData::I32(_) => DataType::Int,
            ColumnData::I64(_) => DataType::Long,
            ColumnData::F32(_) => DataType::Float,
            ColumnData::F64(_) => DataType::Double,
        }
    }

    /// How many values there are: rows times values per row.
    pub fn len(&self) -> (r: usize)
        ensures
            r == self.spec_len(),
    {
        match self {
            ColumnData::I8(v) => v.len(),
            ColumnData::I16(v) => v.len(),
            ColumnData::I32(v) => v.len(),
            ColumnData::I64(v) => v.len(),
            ColumnData::F32(v) => v.len(),
            ColumnData::F64(v) => v.len(),
        }
    }

    pub fn is_empty(&self) -> (r: bool)
        ensures
            r == (self.spec_len() == 0),
    {
        self.len() == 0
    }
}

/// The elements that `bytes` encode; what is left over at the end is not one.
fn decode_all<S: BankScalarType>(bytes: &[u8]) -> (r: Vec<S>)
    requires
        S::spec_type().spec_size() > 0,
    ensures
        r@ == elements::<S>(bytes@, bytes@.len() / S::spec_type().spec_size()),
        r.len() == bytes.len() / (S::spec_type().spec_size() as usize),
{
    let size: usize = S::data_type().size();
    let n: usize = bytes.len() / size;
    assert(n * size <= bytes.len() && 0 <= n * size) by (nonlinear_arith)
        requires
            size > 0,
            n == bytes.len() as int / size as int,
    ;
    let r = read_elements::<S>(bytes, 0, n);
    proof {
        let head = bytes@.subrange(0, n * size);
        assert forall|k: int| 0 <= k < n implies #[trigger] elements::<S>(head, n as nat)[k]
            == elements::<S>(bytes@, n as nat)[k] by {
            assert(0 <= k * size && k * size + size <= n * size) by (nonlinear_arith)
                requires
                    0 <= k < n,
                    size > 0,
            ;
            assert(head.subrange(k * size, k * size + size) =~= bytes@.subrange(
                k * size,
                k * size + size,
            ));
        }
        assert(r@ =~= elements::<S>(bytes@, n as nat));
    }
    r
}

/// One column that was read.
#[derive(Debug, PartialEq, Eq)]
pub struct MaterializedColumn {
    /// The column's name.
    pub name: String,
    /// The type of its values.
    pub data_type: DataType,
    /// Values per row: one, or the `N` of `T#N`.
    pub inner_len: u32,
    /// The values of every event, one after the other.
    pub data: ColumnData,
}

impl MaterializedColumn {
    /// The column is the one that `e` describes, with the values that `bytes` encode.
    pub open spec fn holds(self, e: EntryView, bytes: Seq<u8>) -> bool {
        &&& self.name@ == e.name
        &&& self.data_type == e.ty
        &&& self.inner_len == e.length
        &&& self.data.decodes(e.ty, bytes)
    }
}

/// The columns of one bank, with the rows of every event: those of event `e` are
/// `offsets[e]..offsets[e + 1]`.
#[derive(Debug, PartialEq, Eq)]
pub struct ColumnBuffers {
    /// The bank's name.
    pub bank: String,
    /// Where the rows of each event start, and where the last ones end.
    pub offsets: Vec<i64>,
    /// The columns, in the order in which they were asked for.
    pub columns: Vec<MaterializedColumn>,
}

impl ColumnBuffers {
    /// How many events there are.
    pub fn event_count(&self) -> (r: usize)
        requires
            self.offsets.len() > 0,
        ensures
            r == self.offsets.len() - 1,
    {
        self.offsets.len() - 1
    }

    /// How many rows all events have.
    pub fn total_rows(&self) -> (r: i64)
        ensures
            r == (if self.offsets.len() == 0 {
                0
            } else {
                self.offsets@.last()
            }),
    {
        if self.offsets.len() == 0 {
            0
        } else {
            self.offsets[self.offsets.len() - 1]
        }
    }
}

/// Where a record stands in a chain.
#[derive(Debug, Clone, Copy, PartialEq, Eq, Structural)]
pub struct ChainRecordSpan {
    pub file_index: usize,
    pub record_index: usize,
    /// The number of the record's first event.
    pub global_event_start: u64,
    pub event_count: u32,
}

} // verus!
