//! `ColumnHandle<T>`: a pre-resolved, typed column index.
//!
//! Two layers of types stand behind it. [`BankScalarType`] is implemented by the six element
//! types of a bank cell; [`BankColumnType`] by what a column can hold, a scalar or a
//! fixed-length array of scalars.
//!
//! Floating-point elements are held as their IEEE 754 bit patterns, in [`Float32`] and
//! [`Float64`]: nothing here computes with them.

use core::marker::PhantomData;

use vstd::prelude::*;
use crate::error::{HipoError, Result};
use crate::schema::types::{DataType, Schema};
#[allow(unused_imports)]
use crate::schema::types::SchemaView;
use crate::text::owned;
use crate::wire::bytes::{read_u16_le, read_u32_le, read_u64_le};
#[allow(unused_imports)]
use crate::wire::bytes::{
    law_le16_round_trip, law_le32_round_trip, law_le64_round_trip, lemma_u32_at_same, le16, le32,
    le64, u16_at, u32_at, u64_at,
};
use crate::wire::bytes::{push_u16_le, push_u32_le, push_u64_le};

verus! {

/// A single-precision float, as its bit pattern.
#[derive(Debug, Clone, Copy, Default, PartialEq, Eq, Structural)]
pub struct Float32 {
    pub bits: u32,
}

/// A double-precision float, as its bit pattern.
#[derive(Debug, Clone, Copy, Default, PartialEq, Eq, Structural)]
pub struct Float64 {
    pub bits: u64,
}

/// Element types of a bank column: `i8`, `i16`, `i32`, `i64`, `Float32`, `Float64`.
pub trait BankScalarType: Copy {
    /// The wire type of the element.
    spec fn spec_type() -> DataType;

    /// The element that little-endian bytes encode.
    spec fn decoded(bytes: Seq<u8>) -> Self;

    /// The little-endian bytes of the element.
    spec fn encoded(self) -> Seq<u8>;

    /// The element whose bytes are all zero.
    spec fn spec_zero() -> Self;

    /// Decoding undoes encoding, and every element has the width of its type.
    proof fn law_element_round_trip(self)
        ensures
            self.encoded().len() == Self::spec_type().spec_size(),
            Self::decoded(self.encoded()) == self,
    ;

    /// Only the bytes of the element matter.
    proof fn lemma_decoded_zero(bytes: Seq<u8>)
        requires
            bytes.len() == Self::spec_type().spec_size(),
            forall|i: int| 0 <= i < bytes.len() ==> bytes[i] == 0,
        ensures
            Self::decoded(bytes) == Self::spec_zero(),
    ;

    fn data_type() -> (r: DataType)
        ensures
            r == Self::spec_type(),
    ;

    fn zero() -> (r: Self)
        ensures
            r == Self::spec_zero(),
    ;

    /// The element at `bytes[off..]`.
    fn read_le(bytes: &[u8], off: usize) -> (r: Self)
        requires
            off + Self::spec_type().spec_size() <= bytes.len(),
        ensures
            r == Self::decoded(
                bytes@.subrange(off as int, off + Self::spec_type().spec_size()),
            ),
    ;

    /// The bytes of the element.
    fn to_le(self) -> (r: Vec<u8>)
        ensures
            r@ == self.encoded(),
    ;
}

impl BankScalarType for i8 {
    open spec fn spec_type() -> DataType {
        DataType::Byte
    }

    open spec fn decoded(bytes: Seq<u8>) -> i8 {
        bytes[0] as i8
    }

    open spec fn encoded(self) -> Seq<u8> {
        seq![self as u8]
    }

    open spec fn spec_zero() -> i8 {
        0
    }

    proof fn law_element_round_trip(self) {
        assert((self as u8) as i8 == self) by (bit_vector);
    }

    proof fn lemma_decoded_zero(bytes: Seq<u8>) {
        assert(0u8 as i8 == 0i8) by (bit_vector);
    }

    fn data_type() -> (r: DataType) {
        DataType::Byte
    }

    fn zero() -> (r: i8) {
        0
    }

    fn read_le(bytes: &[u8], off: usize) -> (r: i8) {
        bytes[off] as i8
    }

    fn to_le(self) -> (r: Vec<u8>) {
        let mut v: Vec<u8> = Vec::new();
        v.push(self as u8);
        assert(v@ =~= self.encoded());
        v
    }
}

impl BankScalarType for i16 {
    open spec fn spec_type() -> DataType {
        DataType::Short
    }

    open spec fn decoded(bytes: Seq<u8>) -> i16 {
        u16_at(bytes, 0) as i16
    }

    open spec fn encoded(self) -> Seq<u8> {
        le16(self as u16)
    }

    open spec fn spec_zero() -> i16 {
        0
    }

    proof fn law_element_round_trip(self) {
        law_le16_round_trip(self as u16);
        assert((self as u16) as i16 == self) by (bit_vector);
    }

    proof fn lemma_decoded_zero(bytes: Seq<u8>) {
        reveal(u16_at);
        assert(0u16 as i16 == 0i16) by (bit_vector);
    }

    fn data_type() -> (r: DataType) {
        DataType::Short
    }

    fn zero() -> (r: i16) {
        0
    }

    fn read_le(bytes: &[u8], off: usize) -> (r: i16) {
        proof {
            reveal(u16_at);
            assert(u16_at(bytes@, off as int) == u16_at(bytes@.subrange(off as int, off + 2), 0));
        }
        read_u16_le(bytes, off) as i16
    }

    fn to_le(self) -> (r: Vec<u8>) {
        let mut v: Vec<u8> = Vec::new();
        push_u16_le(&mut v, self as u16);
        assert(v@ =~= self.encoded());
        v
    }
}

impl BankScalarType for i32 {
    open spec fn spec_type() -> DataType {
        DataType::Int
    }

    open spec fn decoded(bytes: Seq<u8>) -> i32 {
        u32_at(bytes, 0) as i32
    }

    open spec fn encoded(self) -> Seq<u8> {
        le32(self as u32)
    }

    open spec fn spec_zero() -> i32 {
        0
    }

    proof fn law_element_round_trip(self) {
        law_le32_round_trip(self as u32);
        assert((self as u32) as i32 == self) by (bit_vector);
    }

    proof fn lemma_decoded_zero(bytes: Seq<u8>) {
        reveal(u32_at);
        assert(0u32 as i32 == 0i32) by (bit_vector);
    }

    fn data_type() -> (r: DataType) {
        DataType::Int
    }

    fn zero() -> (r: i32) {
        0
    }

    fn read_le(bytes: &[u8], off: usize) -> (r: i32) {
        proof {
            lemma_u32_at_same(bytes@, off as int, bytes@.subrange(off as int, off + 4), 0);
        }
        read_u32_le(bytes, off) as i32
    }

    fn to_le(self) -> (r: Vec<u8>) {
        let mut v: Vec<u8> = Vec::new();
        push_u32_le(&mut v, self as u32);
        assert(v@ =~= self.encoded());
        v
    }
}

impl BankScalarType for i64 {
    open spec fn spec_type() -> DataType {
        DataType::Long
    }

    open spec fn decoded(bytes: Seq<u8>) -> i64 {
        u64_at(bytes, 0) as i64
    }

    open spec fn encoded(self) -> Seq<u8> {
        le64(self as u64)
    }

    open spec fn spec_zero() -> i64 {
        0
    }

    proof fn law_element_round_trip(self) {
        law_le64_round_trip(self as u64);
        assert((self as u64) as i64 == self) by (bit_vector);
    }

    proof fn lemma_decoded_zero(bytes: Seq<u8>) {
        reveal(u32_at);
        assert(0u64 as i64 == 0i64) by (bit_vector);
    }

    fn data_type() -> (r: DataType) {
        DataType::Long
    }

    fn zero() -> (r: i64) {
        0
    }

    fn read_le(bytes: &[u8], off: usize) -> (r: i64) {
        proof {
            let cell = bytes@.subrange(off as int, off + 8);
            lemma_u32_at_same(bytes@, off as int, cell, 0);
            lemma_u32_at_same(bytes@, off + 4, cell, 4);
        }
        read_u64_le(bytes, off) as i64
    }

    fn to_le(self) -> (r: Vec<u8>) {
        let mut v: Vec<u8> = Vec::new();
        push_u64_le(&mut v, self as u64);
        assert(v@ =~= self.encoded());
        v
    }
}

impl BankScalarType for Float32 {
    open spec fn spec_type() -> DataType {
        DataType::Float
    }

    open spec fn decoded(bytes: Seq<u8>) -> Float32 {
        Float32 { bits: u32_at(bytes, 0) }
    }

    open spec fn encoded(self) -> Seq<u8> {
        le32(self.bits)
    }

    open spec fn spec_zero() -> Float32 {
        Float32 { bits: 0 }
    }

    proof fn law_element_round_trip(self) {
        law_le32_round_trip(self.bits);
    }

    proof fn lemma_decoded_zero(bytes: Seq<u8>) {
        reveal(u32_at);
    }

    fn data_type() -> (r: DataType) {
        DataType::Float
    }

    fn zero() -> (r: Float32) {
        Float32 { bits: 0 }
    }

    fn read_le(bytes: &[u8], off: usize) -> (r: Float32) {
        proof {
            lemma_u32_at_same(bytes@, off as int, bytes@.subrange(off as int, off + 4), 0);
        }
        Float32 { bits: read_u32_le(bytes, off) }
    }

    fn to_le(self) -> (r: Vec<u8>) {
        let mut v: Vec<u8> = Vec::new();
        push_u32_le(&mut v, self.bits);
        assert(v@ =~= self.encoded());
        v
    }
}

impl BankScalarType for Float64 {
    open spec fn spec_type() -> DataType {
        DataType::Double
    }

    open spec fn decoded(bytes: Seq<u8>) -> Float64 {
        Float64 { bits: u64_at(bytes, 0) }
    }

    open spec fn encoded(self) -> Seq<u8> {
        le64(self.bits)
    }

    open spec fn spec_zero() -> Float64 {
        Float64 { bits: 0 }
    }

    proof fn law_element_round_trip(self) {
        law_le64_round_trip(self.bits);
    }

    proof fn lemma_decoded_zero(bytes: Seq<u8>) {
        reveal(u32_at);
    }

    fn data_type() -> (r: DataType) {
        DataType::Double
    }

    fn zero() -> (r: Float64) {
        Float64 { bits: 0 }
    }

    fn read_le(bytes: &[u8], off: usize) -> (r: Float64) {
        proof {
            let cell = bytes@.subrange(off as int, off + 8);
            lemma_u32_at_same(bytes@, off as int, cell, 0);
            lemma_u32_at_same(bytes@, off + 4, cell, 4);
        }
        Float64 { bits: read_u64_le(bytes, off) }
    }

    fn to_le(self) -> (r: Vec<u8>) {
        let mut v: Vec<u8> = Vec::new();
        push_u64_le(&mut v, self.bits);
        assert(v@ =~= self.encoded());
        v
    }
}

/// What a bank column can hold: a scalar (length-1 cell) or a `[T; N]` array (length-N cell).
pub trait BankColumnType: Copy {
    /// The element type. For arrays, that of the elements.
    type Scalar: BankScalarType;

    /// The elements of the cell.
    spec fn elems(self) -> Seq<Self::Scalar>;

    /// Elements per cell.
    spec fn spec_length() -> nat;

    /// A cell holds as many elements as its type says.
    proof fn lemma_elems_len(self)
        ensures
            self.elems().len() == Self::spec_length(),
    ;

    fn length() -> (r: usize)
        ensures
            r == Self::spec_length(),
    ;

    /// The cell made of `elems`.
    fn from_elems(elems: &[Self::Scalar]) -> (r: Self)
        requires
            elems.len() == Self::spec_length(),
        ensures
            r.elems() == elems@,
    ;

    fn to_elems(self) -> (r: Vec<Self::Scalar>)
        ensures
            r@ == self.elems(),
    ;
}

impl<T: BankScalarType> BankColumnType for T {
    type Scalar = T;

    open spec fn elems(self) -> Seq<T> {
        seq![self]
    }

    open spec fn spec_length() -> nat {
        1
    }

    proof fn lemma_elems_len(self) {
    }

    fn length() -> (r: usize) {
        1
    }

    fn from_elems(elems: &[T]) -> (r: T) {
        let r = elems[0];
        assert(seq![r] =~= elems@);
        r
    }

    fn to_elems(self) -> (r: Vec<T>) {
        let mut v: Vec<T> = Vec::new();
        v.push(self);
        assert(v@ =~= self.elems());
        v
    }
}

impl<T: BankScalarType, const N: usize> BankColumnType for [T; N] {
    type Scalar = T;

    open spec fn elems(self) -> Seq<T> {
        self@
    }

    open spec fn spec_length() -> nat {
        N as nat
    }

    proof fn lemma_elems_len(self) {
    }

    fn length() -> (r: usize) {
        N
    }

    fn from_elems(elems: &[T]) -> (r: [T; N]) {
        let mut r: [T; N] = [T::zero(); N];
        let mut i: usize = 0;
        while i < N
            invariant
                i <= N,
                elems.len() == N,
                forall|k: int| 0 <= k < i ==> r@[k] == elems@[k],
            decreases N - i,
        {
            r[i] = elems[i];
            i = i + 1;
        }
        assert(r@ =~= elems@);
        r
    }

    fn to_elems(self) -> (r: Vec<T>) {
        let mut v: Vec<T> = Vec::new();
        let mut i: usize = 0;
        while i < N
            invariant
                i <= N,
                v.len() == i,
                forall|k: int| 0 <= k < i ==> v@[k] == self@[k],
            decreases N - i,
        {
            v.push(self[i]);
            i = i + 1;
        }
        assert(v@ =~= self.elems());
        v
    }
}

/// The wire type of the elements of a column of `T`.
pub open spec fn scalar_type<T: BankColumnType>() -> DataType {
    <T::Scalar as BankScalarType>::spec_type()
}

/// Column `i` of `schema` can be read as a column of `T`.
pub open spec fn fits<T: BankColumnType>(schema: SchemaView, i: int) -> bool {
    &&& 0 <= i < schema.entries.len()
    &&& schema.entries[i].ty == scalar_type::<T>()
    &&& schema.entries[i].length == T::spec_length()
}

/// The outcome of resolving the column `name` as a column of `T`: an unknown name, a type that
/// is not the column's, a length that is not the column's, or a handle to it. (A column whose
/// index does not fit a handle, the 65,536th, reads as a placeholder.)
pub open spec fn resolved<T: BankColumnType>(
    schema: SchemaView,
    name: Seq<char>,
    r: Result<ColumnHandle<T>>,
) -> bool {
    match r {
        Ok(h) => schema.is_column(name, h@) && fits::<T>(schema, h@),
        Err(HipoError::UnknownColumn { schema: s, column }) => !schema.has_column(name) && s@
            == schema.name && column@ == name,
        Err(HipoError::TypeMismatch { schema: s, column, expected, actual }) => exists|i: int|
            #[trigger] schema.is_column(name, i) && schema.entries[i].ty != scalar_type::<T>() && s@
                == schema.name && column@ == name && expected == scalar_type::<T>().spec_name()
                && actual == schema.entries[i].ty.spec_name(),
        Err(HipoError::ColumnLengthMismatch { schema: s, column, expected, actual }) => exists|
            i: int,
        |
            #[trigger] schema.is_column(name, i) && schema.entries[i].ty == scalar_type::<T>()
                && schema.entries[i].length != T::spec_length() && s@ == schema.name && column@
                == name && expected == T::spec_length() as u32 && actual
                == schema.entries[i].length,
        _ => false,
    }
}

/// Pre-resolved, typed column index. Cheap to copy. Construct via [`Schema::handle`].
#[derive(Debug)]
pub struct ColumnHandle<T> {
    col: u16,
    _phantom: PhantomData<T>,
}

impl<T> Copy for ColumnHandle<T> {

}

impl<T> Clone for ColumnHandle<T> {
    fn clone(&self) -> (r: Self)
        ensures
            r == *self,
    {
        *self
    }
}

impl<T> View for ColumnHandle<T> {
    type V = int;

    closed spec fn view(&self) -> int {
        self.col as int
    }
}

impl<T: BankColumnType> ColumnHandle<T> {
    /// Resolve against a schema: the column exists, its wire type is that of `T`'s elements,
    /// and its length is that of `T`.
    pub fn resolve(schema: &Schema, name: &str) -> (r: Result<Self>)
        ensures
            resolved::<T>(schema@, name@, r),
    {
        let col: usize = schema.require_column(name)?;
        let entry = &schema.entries()[col];
        assert(schema@.is_column(name@, col as int));
        let ty = <T::Scalar as BankScalarType>::data_type();
        if entry.ty != ty {
            return Err(
                HipoError::TypeMismatch {
                    schema: owned(schema.name()),
                    column: owned(name),
                    expected: ty.name(),
                    actual: entry.ty.name(),
                },
            );
        }
        if entry.length as usize != T::length() {
            return Err(
                HipoError::ColumnLengthMismatch {
                    schema: owned(schema.name()),
                    column: owned(name),
                    expected: T::length() as u32,
                    actual: entry.length,
                },
            );
        }
        proof {
            use_type_invariant(schema);
        }
        Ok(Self::from_index(col as u16))
    }

    /// Build a handle from an already-resolved column index, without checking type or length
    /// again.
    pub fn from_index(col: u16) -> (r: Self)
        ensures
            r@ == col,
    {
        ColumnHandle { col, _phantom: PhantomData }
    }

    /// Index of the column inside the schema's `entries()`.
    pub fn column_index(&self) -> (r: usize)
        ensures
            r == self@,
            r <= u16::MAX,
    {
        self.col as usize
    }

    /// Elements per cell of this handle's column.
    pub fn length(&self) -> (r: u32)
        ensures
            r == T::spec_length() as u32,
    {
        T::length() as u32
    }

    /// The handle that stands for "no such column". Reads through it give zero.
    pub fn placeholder() -> (r: Self)
        ensures
            r@ == u16::MAX,
    {
        ColumnHandle { col: u16::MAX, _phantom: PhantomData }
    }

    pub fn is_placeholder(&self) -> (r: bool)
        ensures
            r == (self@ == u16::MAX),
    {
        self.col == u16::MAX
    }
}

} // verus!
