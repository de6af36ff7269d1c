//! Numbers as bytes: the least significant byte first, for every width and every element type.

use vstd::prelude::*;
use crate::schema::handle::{BankColumnType, BankScalarType, Float32, Float64};
use crate::schema::types::DataType;
#[allow(unused_imports)]
use crate::wire::bytes::{le16, le32, le64, u16_at, u32_at, u64_at};
use crate::wire::bytes::{read_i16_le, read_i32_le, read_u16_le, read_u32_le, read_u64_le};

verus! {

/// The unsigned number with the bits of `x`, in two's complement of `modulus` values.
pub open spec fn unsigned(x: int, modulus: int) -> int {
    if x < 0 {
        x + modulus
    } else {
        x
    }
}

/// A 16-bit number is written with its least significant byte first: byte `k` is the number divided
/// by `256^k`, modulo 256.
pub proof fn law_le16_bytes(v: u16)
    ensures
        le16(v).len() == 2,
        le16(v)[0] == v % 0x100,
        le16(v)[1] == v / 0x100 % 0x100,
{
    reveal(le16);
    reveal(le32);
}

/// A 16-bit number is read from its bytes, the least significant first: it is the sum of the bytes,
/// byte `k` times `256^k`.
pub proof fn law_u16_at_bytes(s: Seq<u8>, i: int)
    ensures
        u16_at(s, i) == s[i]
            + s[i + 1] * 0x100,
{
    reveal(u16_at);
    reveal(u32_at);
}

/// What [`read_u16_le`] returns is the sum of the bytes from `off` on, byte `k` times `256^k`.
pub proof fn law_read_u16(buf: &[u8], off: usize, r: u16)
    requires
        call_ensures(read_u16_le, (buf, off), r),
        off + 2 <= buf@.len(),
    ensures
        r == buf@[off as int]
            + buf@[off + 1] * 0x100,
{
    law_u16_at_bytes(buf@, off as int);
}

/// A 32-bit number is written with its least significant byte first: byte `k` is the number divided
/// by `256^k`, modulo 256.
pub proof fn law_le32_bytes(v: u32)
    ensures
        le32(v).len() == 4,
        le32(v)[0] == v % 0x100,
        le32(v)[1] == v / 0x100 % 0x100,
        le32(v)[2] == v / 0x10000 % 0x100,
        le32(v)[3] == v / 0x1000000 % 0x100,
{
    reveal(le16);
    reveal(le32);
}

/// A 32-bit number is read from its bytes, the least significant first: it is the sum of the bytes,
/// byte `k` times `256^k`.
pub proof fn law_u32_at_bytes(s: Seq<u8>, i: int)
    ensures
        u32_at(s, i) == s[i]
            + s[i + 1] * 0x100
            + s[i + 2] * 0x10000
            + s[i + 3] * 0x1000000,
{
    reveal(u16_at);
    reveal(u32_at);
}

/// What [`read_u32_le`] returns is the sum of the bytes from `off` on, byte `k` times `256^k`.
pub proof fn law_read_u32(buf: &[u8], off: usize, r: u32)
    requires
        call_ensures(read_u32_le, (buf, off), r),
        off + 4 <= buf@.len(),
    ensures
        r == buf@[off as int]
            + buf@[off + 1] * 0x100
            + buf@[off + 2] * 0x10000
            + buf@[off + 3] * 0x1000000,
{
    law_u32_at_bytes(buf@, off as int);
}

/// A 64-bit number is written with its least significant byte first: byte `k` is the number divided
/// by `256^k`, modulo 256.
pub proof fn law_le64_bytes(v: u64)
    ensures
        le64(v).len() == 8,
        le64(v)[0] == v % 0x100,
        le64(v)[1] == v / 0x100 % 0x100,
        le64(v)[2] == v / 0x10000 % 0x100,
        le64(v)[3] == v / 0x1000000 % 0x100,
        le64(v)[4] == v / 0x100000000 % 0x100,
        le64(v)[5] == v / 0x10000000000 % 0x100,
        le64(v)[6] == v / 0x1000000000000 % 0x100,
        le64(v)[7] == v / 0x100000000000000 % 0x100,
{
    let lo = (v % 0x1_0000_0000) as u32;
    let hi = (v / 0x1_0000_0000) as u32;
    law_le32_bytes(lo);
    law_le32_bytes(hi);
    let (a, b, s) = (le32(lo), le32(hi), le64(v));
    assert(s[0] == a[0] && s[1] == a[1] && s[2] == a[2] && s[3] == a[3]);
    assert(s[4] == b[0] && s[5] == b[1] && s[6] == b[2] && s[7] == b[3]);
    assert(v % 0x1_0000_0000 % 0x100 == v % 0x100 && v % 0x1_0000_0000 / 0x100 % 0x100 == v / 0x100
        % 0x100 && v % 0x1_0000_0000 / 0x1_0000 % 0x100 == v / 0x1_0000 % 0x100 && v % 0x1_0000_0000
        / 0x100_0000 % 0x100 == v / 0x100_0000 % 0x100 && v / 0x1_0000_0000 / 0x100 == v
        / 0x100_0000_0000 && v / 0x1_0000_0000 / 0x1_0000 == v / 0x1_0000_0000_0000 && v
        / 0x1_0000_0000 / 0x100_0000 == v / 0x100_0000_0000_0000) by (bit_vector);
}

/// A 64-bit number is read from its bytes, the least significant first: it is the sum of the bytes,
/// byte `k` times `256^k`.
pub proof fn law_u64_at_bytes(s: Seq<u8>, i: int)
    ensures
        u64_at(s, i) == s[i]
            + s[i + 1] * 0x100
            + s[i + 2] * 0x10000
            + s[i + 3] * 0x1000000
            + s[i + 4] * 0x100000000
            + s[i + 5] * 0x10000000000
            + s[i + 6] * 0x1000000000000
            + s[i + 7] * 0x100000000000000,
{
    reveal(u16_at);
    reveal(u32_at);
}

/// What [`read_u64_le`] returns is the sum of the bytes from `off` on, byte `k` times `256^k`.
pub proof fn law_read_u64(buf: &[u8], off: usize, r: u64)
    requires
        call_ensures(read_u64_le, (buf, off), r),
        off + 8 <= buf@.len(),
    ensures
        r == buf@[off as int]
            + buf@[off + 1] * 0x100
            + buf@[off + 2] * 0x10000
            + buf@[off + 3] * 0x1000000
            + buf@[off + 4] * 0x100000000
            + buf@[off + 5] * 0x10000000000
            + buf@[off + 6] * 0x1000000000000
            + buf@[off + 7] * 0x100000000000000,
{
    law_u64_at_bytes(buf@, off as int);
}

/// An element of type `i8` is written in 1 byte, the least significant first.
pub proof fn law_i8_bytes(x: i8)
    ensures
        x.encoded().len() == 1,
        x.encoded()[0] == unsigned(x as int, 0x100) % 0x100,
{
    assert((x as u8) as int == unsigned(x as int, 0x100)) by {
        assert(x < 0 ==> x as u8 == 0x100 + x) by (bit_vector);
        assert(x >= 0 ==> x as u8 == x) by (bit_vector);
    }
}

/// An element of type `i8` is the sum of its bytes, byte `k` times `256^k`.
pub proof fn law_i8_of_bytes(b: Seq<u8>)
    requires
        b.len() == 1,
    ensures
        unsigned(<i8 as BankScalarType>::decoded(b) as int, 0x100) == b[0],
{
    let u = b[0];
    assert(u >= 0x80 ==> u as i8 == u - 0x100) by (bit_vector);
    assert(u < 0x80 ==> u as i8 == u) by (bit_vector);
}

/// What reading an element of type `i8` returns is the sum of its bytes, byte `k` times `256^k`.
pub proof fn law_i8_is_read(bytes: &[u8], off: usize, r: i8)
    requires
        call_ensures(<i8 as BankScalarType>::read_le, (bytes, off), r),
        off + 1 <= bytes@.len(),
    ensures
        unsigned(r as int, 0x100) == bytes@[off as int],
{
    law_i8_of_bytes(bytes@.subrange(off as int, off + 1));
}

/// What writing an element of type `i8` returns are its bytes, the least significant first.
pub proof fn law_i8_is_written(x: i8, r: Vec<u8>)
    requires
        call_ensures(<i8 as BankScalarType>::to_le, (x,), r),
    ensures
        r@.len() == 1,
        r@[0] == unsigned(x as int, 0x100) % 0x100,
{
    law_i8_bytes(x);
}

/// An element of type `i16` is written in 2 bytes, the least significant first.
pub proof fn law_i16_bytes(x: i16)
    ensures
        x.encoded().len() == 2,
        x.encoded()[0] == unsigned(x as int, 0x10000) % 0x100,
        x.encoded()[1] == unsigned(x as int, 0x10000) / 0x100 % 0x100,
{
    assert((x as u16) as int == unsigned(x as int, 0x10000)) by {
        assert(x < 0 ==> x as u16 == 0x10000 + x) by (bit_vector);
        assert(x >= 0 ==> x as u16 == x) by (bit_vector);
    }
    law_le16_bytes(x as u16);
}

/// An element of type `i16` is the sum of its bytes, byte `k` times `256^k`.
pub proof fn law_i16_of_bytes(b: Seq<u8>)
    requires
        b.len() == 2,
    ensures
        unsigned(<i16 as BankScalarType>::decoded(b) as int, 0x10000) == b[0]
            + b[1] * 0x100,
{
    law_u16_at_bytes(b, 0);
    let u = u16_at(b, 0);
    assert(u >= 0x8000 ==> u as i16 == u - 0x10000) by (bit_vector);
    assert(u < 0x8000 ==> u as i16 == u) by (bit_vector);
}

/// What reading an element of type `i16` returns is the sum of its bytes, byte `k` times `256^k`.
pub proof fn law_i16_is_read(bytes: &[u8], off: usize, r: i16)
    requires
        call_ensures(<i16 as BankScalarType>::read_le, (bytes, off), r),
        off + 2 <= bytes@.len(),
    ensures
        unsigned(r as int, 0x10000) == bytes@[off as int]
            + bytes@[off + 1] * 0x100,
{
    law_i16_of_bytes(bytes@.subrange(off as int, off + 2));
}

/// What writing an element of type `i16` returns are its bytes, the least significant first.
pub proof fn law_i16_is_written(x: i16, r: Vec<u8>)
    requires
        call_ensures(<i16 as BankScalarType>::to_le, (x,), r),
    ensures
        r@.len() == 2,
        r@[0] == unsigned(x as int, 0x10000) % 0x100,
        r@[1] == unsigned(x as int, 0x10000) / 0x100 % 0x100,
{
    law_i16_bytes(x);
}

/// An element of type `i32` is written in 4 bytes, the least significant first.
pub proof fn law_i32_bytes(x: i32)
    ensures
        x.encoded().len() == 4,
        x.encoded()[0] == unsigned(x as int, 0x100000000) % 0x100,
        x.encoded()[1] == unsigned(x as int, 0x100000000) / 0x100 % 0x100,
        x.encoded()[2] == unsigned(x as int, 0x100000000) / 0x10000 % 0x100,
        x.encoded()[3] == unsigned(x as int, 0x100000000) / 0x1000000 % 0x100,
{
    assert((x as u32) as int == unsigned(x as int, 0x100000000)) by {
        assert(x < 0 ==> x as u32 == 0x100000000 + x) by (bit_vector);
        assert(x >= 0 ==> x as u32 == x) by (bit_vector);
    }
    law_le32_bytes(x as u32);
}

/// An element of type `i32` is the sum of its bytes, byte `k` times `256^k`.
pub proof fn law_i32_of_bytes(b: Seq<u8>)
    requires
        b.len() == 4,
    ensures
        unsigned(<i32 as BankScalarType>::decoded(b) as int, 0x100000000) == b[0]
            + b[1] * 0x100
            + b[2] * 0x10000
            + b[3] * 0x1000000,
{
    law_u32_at_bytes(b, 0);
    let u = u32_at(b, 0);
    assert(u >= 0x80000000 ==> u as i32 == u - 0x100000000) by (bit_vector);
    assert(u < 0x80000000 ==> u as i32 == u) by (bit_vector);
}

/// What reading an element of type `i32` returns is the sum of its bytes, byte `k` times `256^k`.
pub proof fn law_i32_is_read(bytes: &[u8], off: usize, r: i32)
    requires
        call_ensures(<i32 as BankScalarType>::read_le, (bytes, off), r),
        off + 4 <= bytes@.len(),
    ensures
        unsigned(r as int, 0x100000000) == bytes@[off as int]
            + bytes@[off + 1] * 0x100
            + bytes@[off + 2] * 0x10000
            + bytes@[off + 3] * 0x1000000,
{
    law_i32_of_bytes(bytes@.subrange(off as int, off + 4));
}

/// What writing an element of type `i32` returns are its bytes, the least significant first.
pub proof fn law_i32_is_written(x: i32, r: Vec<u8>)
    requires
        call_ensures(<i32 as BankScalarType>::to_le, (x,), r),
    ensures
        r@.len() == 4,
        r@[0] == unsigned(x as int, 0x100000000) % 0x100,
        r@[1] == unsigned(x as int, 0x100000000) / 0x100 % 0x100,
        r@[2] == unsigned(x as int, 0x100000000) / 0x10000 % 0x100,
        r@[3] == unsigned(x as int, 0x100000000) / 0x1000000 % 0x100,
{
    law_i32_bytes(x);
}

/// An element of type `i64` is written in 8 bytes, the least significant first.
pub proof fn law_i64_bytes(x: i64)
    ensures
        x.encoded().len() == 8,
        x.encoded()[0] == unsigned(x as int, 0x10000000000000000) % 0x100,
        x.encoded()[1] == unsigned(x as int, 0x10000000000000000) / 0x100 % 0x100,
        x.encoded()[2] == unsigned(x as int, 0x10000000000000000) / 0x10000 % 0x100,
        x.encoded()[3] == unsigned(x as int, 0x10000000000000000) / 0x1000000 % 0x100,
        x.encoded()[4] == unsigned(x as int, 0x10000000000000000) / 0x100000000 % 0x100,
        x.encoded()[5] == unsigned(x as int, 0x10000000000000000) / 0x10000000000 % 0x100,
        x.encoded()[6] == unsigned(x as int, 0x10000000000000000) / 0x1000000000000 % 0x100,
        x.encoded()[7] == unsigned(x as int, 0x10000000000000000) / 0x100000000000000 % 0x100,
{
    assert((x as u64) as int == unsigned(x as int, 0x10000000000000000)) by {
        assert(x < 0 ==> x as u64 == 0x10000000000000000 + x) by (bit_vector);
        assert(x >= 0 ==> x as u64 == x) by (bit_vector);
    }
    law_le64_bytes(x as u64);
}

/// An element of type `i64` is the sum of its bytes, byte `k` times `256^k`.
pub proof fn law_i64_of_bytes(b: Seq<u8>)
    requires
        b.len() == 8,
    ensures
        unsigned(<i64 as BankScalarType>::decoded(b) as int, 0x10000000000000000) == b[0]
            + b[1] * 0x100
            + b[2] * 0x10000
            + b[3] * 0x1000000
            + b[4] * 0x100000000
            + b[5] * 0x10000000000
            + b[6] * 0x1000000000000
            + b[7] * 0x100000000000000,
{
    law_u64_at_bytes(b, 0);
    let u = u64_at(b, 0);
    assert(u >= 0x8000000000000000 ==> u as i64 == u - 0x10000000000000000) by (bit_vector);
    assert(u < 0x8000000000000000 ==> u as i64 == u) by (bit_vector);
}

/// What reading an element of type `i64` returns is the sum of its bytes, byte `k` times `256^k`.
pub proof fn law_i64_is_read(bytes: &[u8], off: usize, r: i64)
    requires
        call_ensures(<i64 as BankScalarType>::read_le, (bytes, off), r),
        off + 8 <= bytes@.len(),
    ensures
        unsigned(r as int, 0x10000000000000000) == bytes@[off as int]
            + bytes@[off + 1] * 0x100
            + bytes@[off + 2] * 0x10000
            + bytes@[off + 3] * 0x1000000
            + bytes@[off + 4] * 0x100000000
            + bytes@[off + 5] * 0x10000000000
            + bytes@[off + 6] * 0x1000000000000
            + bytes@[off + 7] * 0x100000000000000,
{
    law_i64_of_bytes(bytes@.subrange(off as int, off + 8));
}

/// What writing an element of type `i64` returns are its bytes, the least significant first.
pub proof fn law_i64_is_written(x: i64, r: Vec<u8>)
    requires
        call_ensures(<i64 as BankScalarType>::to_le, (x,), r),
    ensures
        r@.len() == 8,
        r@[0] == unsigned(x as int, 0x10000000000000000) % 0x100,
        r@[1] == unsigned(x as int, 0x10000000000000000) / 0x100 % 0x100,
        r@[2] == unsigned(x as int, 0x10000000000000000) / 0x10000 % 0x100,
        r@[3] == unsigned(x as int, 0x10000000000000000) / 0x1000000 % 0x100,
        r@[4] == unsigned(x as int, 0x10000000000000000) / 0x100000000 % 0x100,
        r@[5] == unsigned(x as int, 0x10000000000000000) / 0x10000000000 % 0x100,
        r@[6] == unsigned(x as int, 0x10000000000000000) / 0x1000000000000 % 0x100,
        r@[7] == unsigned(x as int, 0x10000000000000000) / 0x100000000000000 % 0x100,
{
    law_i64_bytes(x);
}

/// An element of type `Float32` is written in 4 bytes, the least significant first.
pub proof fn law_float32_bytes(x: Float32)
    ensures
        x.encoded().len() == 4,
        x.encoded()[0] == x.bits as int % 0x100,
        x.encoded()[1] == x.bits as int / 0x100 % 0x100,
        x.encoded()[2] == x.bits as int / 0x10000 % 0x100,
        x.encoded()[3] == x.bits as int / 0x1000000 % 0x100,
{
    law_le32_bytes(x.bits);
}

/// An element of type `Float32` is the sum of its bytes, byte `k` times `256^k`.
pub proof fn law_float32_of_bytes(b: Seq<u8>)
    requires
        b.len() == 4,
    ensures
        <Float32 as BankScalarType>::decoded(b).bits as int == b[0]
            + b[1] * 0x100
            + b[2] * 0x10000
            + b[3] * 0x1000000,
{
    law_u32_at_bytes(b, 0);
}

/// What reading an element of type `Float32` returns is the sum of its bytes, byte `k` times `256^k`.
pub proof fn law_float32_is_read(bytes: &[u8], off: usize, r: Float32)
    requires
        call_ensures(<Float32 as BankScalarType>::read_le, (bytes, off), r),
        off + 4 <= bytes@.len(),
    ensures
        r.bits as int == bytes@[off as int]
            + bytes@[off + 1] * 0x100
            + bytes@[off + 2] * 0x10000
            + bytes@[off + 3] * 0x1000000,
{
    law_float32_of_bytes(bytes@.subrange(off as int, off + 4));
}

/// What writing an element of type `Float32` returns are its bytes, the least significant first.
pub proof fn law_float32_is_written(x: Float32, r: Vec<u8>)
    requires
        call_ensures(<Float32 as BankScalarType>::to_le, (x,), r),
    ensures
        r@.len() == 4,
        r@[0] == x.bits as int % 0x100,
        r@[1] == x.bits as int / 0x100 % 0x100,
        r@[2] == x.bits as int / 0x10000 % 0x100,
        r@[3] == x.bits as int / 0x1000000 % 0x100,
{
    law_float32_bytes(x);
}

/// An element of type `Float64` is written in 8 bytes, the least significant first.
pub proof fn law_float64_bytes(x: Float64)
    ensures
        x.encoded().len() == 8,
        x.encoded()[0] == x.bits as int % 0x100,
        x.encoded()[1] == x.bits as int / 0x100 % 0x100,
        x.encoded()[2] == x.bits as int / 0x10000 % 0x100,
        x.encoded()[3] == x.bits as int / 0x1000000 % 0x100,
        x.encoded()[4] == x.bits as int / 0x100000000 % 0x100,
        x.encoded()[5] == x.bits as int / 0x10000000000 % 0x100,
        x.encoded()[6] == x.bits as int / 0x1000000000000 % 0x100,
        x.encoded()[7] == x.bits as int / 0x100000000000000 % 0x100,
{
    law_le64_bytes(x.bits);
}

/// An element of type `Float64` is the sum of its bytes, byte `k` times `256^k`.
pub proof fn law_float64_of_bytes(b: Seq<u8>)
    requires
        b.len() == 8,
    ensures
        <Float64 as BankScalarType>::decoded(b).bits as int == b[0]
            + b[1] * 0x100
            + b[2] * 0x10000
            + b[3] * 0x1000000
            + b[4] * 0x100000000
            + b[5] * 0x10000000000
            + b[6] * 0x1000000000000
            + b[7] * 0x100000000000000,
{
    law_u64_at_bytes(b, 0);
}

/// What reading an element of type `Float64` returns is the sum of its bytes, byte `k` times `256^k`.
pub proof fn law_float64_is_read(bytes: &[u8], off: usize, r: Float64)
    requires
        call_ensures(<Float64 as BankScalarType>::read_le, (bytes, off), r),
        off + 8 <= bytes@.len(),
    ensures
        r.bits as int == bytes@[off as int]
            + bytes@[off + 1] * 0x100
            + bytes@[off + 2] * 0x10000
            + bytes@[off + 3] * 0x1000000
            + bytes@[off + 4] * 0x100000000
            + bytes@[off + 5] * 0x10000000000
            + bytes@[off + 6] * 0x1000000000000
            + bytes@[off + 7] * 0x100000000000000,
{
    law_float64_of_bytes(bytes@.subrange(off as int, off + 8));
}

/// What writing an element of type `Float64` returns are its bytes, the least significant first.
pub proof fn law_float64_is_written(x: Float64, r: Vec<u8>)
    requires
        call_ensures(<Float64 as BankScalarType>::to_le, (x,), r),
    ensures
        r@.len() == 8,
        r@[0] == x.bits as int % 0x100,
        r@[1] == x.bits as int / 0x100 % 0x100,
        r@[2] == x.bits as int / 0x10000 % 0x100,
        r@[3] == x.bits as int / 0x1000000 % 0x100,
        r@[4] == x.bits as int / 0x100000000 % 0x100,
        r@[5] == x.bits as int / 0x10000000000 % 0x100,
        r@[6] == x.bits as int / 0x1000000000000 % 0x100,
        r@[7] == x.bits as int / 0x100000000000000 % 0x100,
{
    law_float64_bytes(x);
}

/// Element types, their wire types and their widths, one by one; zero is zero.
pub proof fn law_element_types()
    ensures
        <i8 as BankScalarType>::spec_type() == DataType::Byte,
        <i16 as BankScalarType>::spec_type() == DataType::Short,
        <i32 as BankScalarType>::spec_type() == DataType::Int,
        <i64 as BankScalarType>::spec_type() == DataType::Long,
        <Float32 as BankScalarType>::spec_type() == DataType::Float,
        <Float64 as BankScalarType>::spec_type() == DataType::Double,
        <i8 as BankScalarType>::spec_zero() == 0,
        <i16 as BankScalarType>::spec_zero() == 0,
        <i32 as BankScalarType>::spec_zero() == 0,
        <i64 as BankScalarType>::spec_zero() == 0,
        <Float32 as BankScalarType>::spec_zero() == (Float32 { bits: 0 }),
        <Float64 as BankScalarType>::spec_zero() == (Float64 { bits: 0 }),
        DataType::Byte.spec_size() == 1,
        DataType::Short.spec_size() == 2,
        DataType::Int.spec_size() == 4,
        DataType::Long.spec_size() == 8,
        DataType::Float.spec_size() == 4,
        DataType::Double.spec_size() == 8,
{
}

/// A cell of one element is that element.
pub proof fn law_scalar_cell<T: BankScalarType>(x: T)
    ensures
        <T as BankColumnType>::spec_length() == 1,
        x.elems().len() == 1,
        x.elems()[0] == x,
{
}

/// A cell that is an array holds the elements of the array in order.
pub proof fn law_array_cell<T: BankScalarType, const N: usize>(x: [T; N], i: int)
    requires
        0 <= i < N,
    ensures
        <[T; N] as BankColumnType>::spec_length() == N,
        x.elems().len() == N,
        x.elems()[i] == x@[i],
{
}

/// What [`read_i16_le`] and [`read_i32_le`] return is the number whose two's complement the bytes
/// are.
pub proof fn law_read_signed(buf: &[u8], off: usize, a: i16, b: i32)
    requires
        call_ensures(read_i16_le, (buf, off), a),
        call_ensures(read_i32_le, (buf, off), b),
        off + 4 <= buf@.len(),
    ensures
        unsigned(a as int, 0x1_0000) == buf@[off as int] + buf@[off + 1] * 0x100,
        unsigned(b as int, 0x1_0000_0000) == buf@[off as int] + buf@[off + 1] * 0x100 + buf@[off + 2]
            * 0x1_0000 + buf@[off + 3] * 0x100_0000,
{
    law_i16_of_bytes(buf@.subrange(off as int, off + 2));
    law_i32_of_bytes(buf@.subrange(off as int, off + 4));
    law_u16_at_bytes(buf@, off as int);
    law_u32_at_bytes(buf@, off as int);
    law_u16_at_bytes(buf@.subrange(off as int, off + 2), 0);
    law_u32_at_bytes(buf@.subrange(off as int, off + 4), 0);
}

} // verus!
