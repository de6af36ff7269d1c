//! Composite banks: rows whose layout a format string gives.

use vstd::prelude::*;
use crate::error::HipoError;
use crate::event::composite::{Composite, CompositeFormat};
#[allow(unused_imports)]
use crate::event::composite::{composite_type, field_sizes, field_types};
#[allow(unused_imports)]
use crate::event::event::header_at;
#[allow(unused_imports)]
use crate::laws::banks::type_bytes;
#[allow(unused_imports)]
use crate::laws::bytes::{
    law_element_types, law_u16_at_bytes, law_u32_at_bytes, law_u64_at_bytes, unsigned,
};
#[allow(unused_imports)]
use crate::laws::events::{length_at, lemma_header, word};
use crate::schema::handle::{Float32, Float64};
use crate::schema::types::DataType;
#[allow(unused_imports)]
use crate::wire::bytes::{u16_at, u32_at, u64_at};

verus! {

/// The type that a letter of a format stands for.
pub open spec fn letter_is(c: char, t: DataType) -> bool {
    match t {
        DataType::Byte => c == 'b',
        DataType::Short => c == 's',
        DataType::Int => c == 'i',
        DataType::Long => c == 'l',
        DataType::Float => c == 'f',
        DataType::Double => c == 'd',
    }
}

/// `at` gives, for every field, the place of its letter in the format: the letters come in order,
/// and every other character stands for no type.
pub open spec fn letters_at(s: Seq<char>, types: Seq<DataType>, at: Seq<int>) -> bool {
    &&& at.len() == types.len()
    &&& forall|i: int|
        0 <= i < at.len() ==> 0 <= #[trigger] at[i] < s.len() && letter_is(s[at[i]], types[i])
    &&& forall|i: int, j: int| 0 <= i < j < at.len() ==> at[i] < at[j]
    &&& forall|k: int, t: DataType|
        0 <= k < s.len() && !at.contains(k) ==> !#[trigger] letter_is(s[k], t)
}

proof fn lemma_letters(s: Seq<char>) -> (at: Seq<int>)
    ensures
        letters_at(s, field_types(s), at),
    decreases s.len(),
{
    if s.len() == 0 {
        Seq::empty()
    } else {
        let front = s.drop_last();
        let a = lemma_letters(front);
        let n = s.len() - 1;
        let ts = field_types(s);
        let old_ts = field_types(front);
        match composite_type(s.last()) {
            Some(t) => {
                let at = a.push(n);
                assert forall|i: int| 0 <= i < at.len() implies 0 <= #[trigger] at[i] < s.len()
                    && letter_is(s[at[i]], ts[i]) by {
                    if i < a.len() {
                        assert(at[i] == a[i]);
                        assert(letter_is(front[a[i]], old_ts[i]));
                    }
                }
                assert forall|i: int, j: int| 0 <= i < j < at.len() implies at[i] < at[j] by {
                    assert(at[i] == a[i]);
                    if j < a.len() {
                        assert(at[j] == a[j]);
                    }
                }
                assert forall|k: int, u: DataType|
                    0 <= k < s.len() && !at.contains(k) implies !#[trigger] letter_is(s[k], u) by {
                    if k == n {
                        assert(at[a.len() as int] == n);
                    } else {
                        if a.contains(k) {
                            let i = choose|i: int| 0 <= i < a.len() && a[i] == k;
                            assert(at[i] == k);
                        }
                        assert(!letter_is(front[k], u));
                    }
                }
                at
            },
            None => {
                assert forall|i: int| 0 <= i < a.len() implies 0 <= #[trigger] a[i] < s.len()
                    && letter_is(s[a[i]], ts[i]) by {
                    assert(letter_is(front[a[i]], old_ts[i]));
                }
                assert forall|k: int, u: DataType|
                    0 <= k < s.len() && !a.contains(k) implies !#[trigger] letter_is(s[k], u) by {
                    if k < n {
                        assert(!letter_is(front[k], u));
                    }
                }
                a
            },
        }
    }
}

/// The bytes of the first `n` fields.
pub open spec fn fields_take(types: Seq<DataType>, n: int) -> int
    decreases n,
{
    if n <= 0 {
        0
    } else {
        fields_take(types, n - 1) + type_bytes(types[n - 1])
    }
}

pub(crate) proof fn lemma_fields_take(types: Seq<DataType>, n: nat)
    ensures
        field_sizes(types, n) == fields_take(types, n as int),
    decreases n,
{
    law_element_types();
    if n > 0 {
        lemma_fields_take(types, (n - 1) as nat);
    }
}

/// A format has a field for every letter that stands for a type, in order; a field starts where
/// those before it end, and a row is as long as all of them. A format without fields is refused.
pub proof fn law_format_is_parsed(format: &str, r: Result<CompositeFormat, HipoError>, i: int) -> (
at: Seq<int>)
    requires
        format@.len() <= 0x1fff_ffff,
        call_ensures(CompositeFormat::parse, (format,), r),
    ensures
        letters_at(format@, field_types(format@), at),
        (r is Ok) == (at.len() > 0),
        r matches Ok(f) ==> {
            let types = f.fields@.map_values(
                |x: crate::event::composite::CompositeField| x.ty,
            );
            &&& types == field_types(format@)
            &&& f.fields@.len() == at.len()
            &&& 0 <= i < at.len() ==> letter_is(format@[at[i]], f.fields@[i].ty)
                && f.fields@[i].row_offset == fields_take(types, i)
            &&& f.row_size == fields_take(types, at.len() as int)
        },
{
    let at = lemma_letters(format@);
    if let Ok(f) = r {
        let types = f.types();
        lemma_fields_take(types, types.len());
        if 0 <= i < at.len() {
            lemma_fields_take(types, i as nat);
            assert(0 <= at[i]);
            assert(types[i] == f.fields@[i].ty);
        }
    }
    at
}

/// A composite structure is eight bytes of header, the format string, whose length is the last of
/// them, and the rows, up to the length that the three bytes before it give. There are as many rows
/// as the fields of one go into the data, without a rest.
pub proof fn law_composite_is_read<'b>(bytes: &'b [u8], r: Result<Composite<'b>, HipoError>)
    requires
        call_ensures(Composite::<'b>::from_structure, (bytes,), r),
    ensures
        r matches Ok(c) ==> {
            let s = bytes@;
            let f = s[7] as int;
            let types = field_types(vstd::utf8::decode_utf8(s.subrange(8, 8 + f)));
            let row = fields_take(types, types.len() as int);
            let data = s.subrange(8 + f, 8 + length_at(s, 0));
            &&& s.len() >= 8 + length_at(s, 0)
            &&& 0 < f <= length_at(s, 0)
            &&& c@.types == types
            &&& types.len() > 0
            &&& c@.data == data
            &&& row > 0
            &&& c@.rows * row == data.len()
        },
{
    law_element_types();
    if let Ok(c) = r {
        let s = bytes@;
        lemma_header(s, 0);
        let h = header_at(s, 0);
        let types = field_types(vstd::utf8::decode_utf8(s.subrange(8, 8 + h.header_size)));
        lemma_fields_take(types, types.len());
        crate::event::composite::lemma_field_sizes_monotone(types, 1, types.len());
        reveal_with_fuel(field_sizes, 3);
        let w = field_sizes(types, types.len());
        let n = c@.data.len();
        let k = n / w;
        assert(k * w == n) by (nonlinear_arith)
            requires
                w > 0,
                k == n / w,
                n % w == 0,
        ;
    }
}

/// The signed number with the bits of an unsigned one stays within its type.
proof fn lemma_signed(a: u8, b: u16, c: u32, d: u64)
    ensures
        unsigned((a as i8) as int, 0x100) == a,
        unsigned((b as i16) as int, 0x1_0000) == b,
        unsigned((c as i32) as int, 0x1_0000_0000) == c,
        unsigned((d as i64) as int, 0x1_0000_0000_0000_0000) == d,
{
    assert((a >= 0x80 ==> a as i8 == a - 0x100) && (a < 0x80 ==> a as i8 == a) && (b >= 0x8000
        ==> b as i16 == b - 0x1_0000) && (b < 0x8000 ==> b as i16 == b) && (c >= 0x8000_0000
        ==> c as i32 == c - 0x1_0000_0000) && (c < 0x8000_0000 ==> c as i32 == c) && (d
        >= 0x8000_0000_0000_0000 ==> d as i64 == d - 0x1_0000_0000_0000_0000) && (d
        < 0x8000_0000_0000_0000 ==> d as i64 == d)) by (bit_vector);
}

/// A value of a composite bank is the number in the bytes of its field: `row` rows on, and behind
/// the fields before it. Asked for as a type that it does not have, it is zero; smaller integers are
/// widened.
pub proof fn law_composite_values<'b>(
    c: Composite<'b>,
    field: usize,
    row: u32,
    byte: i8,
    small: i32,
    long: i64,
    single: Float32,
    double: Float64,
)
    requires
        call_ensures(Composite::<'b>::i8, (&c, field, row), byte),
        call_ensures(Composite::<'b>::i32, (&c, field, row), small),
        call_ensures(Composite::<'b>::i64, (&c, field, row), long),
        call_ensures(Composite::<'b>::single, (&c, field, row), single),
        call_ensures(Composite::<'b>::double, (&c, field, row), double),
        field < c@.types.len(),
        row < c@.rows,
    ensures
        ({
            let s = c@.data;
            let i = row * fields_take(c@.types, c@.types.len() as int) + fields_take(
                c@.types,
                field as int,
            );
            &&& unsigned(byte as int, 0x100) == s[i]
            &&& match c@.types[field as int] {
                DataType::Byte => small == byte && long == byte && single.bits == 0 && double.bits
                    == 0,
                DataType::Short => unsigned(small as int, 0x1_0000) == s[i] + s[i + 1] * 0x100 && long
                    == small && single.bits == 0 && double.bits == 0,
                DataType::Int => unsigned(small as int, 0x1_0000_0000) == word(s, i) && long == small
                    && single.bits == 0 && double.bits == 0,
                DataType::Long => small == 0 && unsigned(long as int, 0x1_0000_0000_0000_0000)
                    == word(s, i) + word(s, i + 4) * 0x1_0000_0000 && single.bits == 0
                    && double.bits == 0,
                DataType::Float => small == 0 && long == 0 && single.bits == word(s, i)
                    && double.bits == 0,
                DataType::Double => small == 0 && long == 0 && single.bits == 0 && double.bits
                    == word(s, i) + word(s, i + 4) * 0x1_0000_0000,
            }
        }),
{
    lemma_fields_take(c@.types, c@.types.len());
    lemma_fields_take(c@.types, field as nat);
    let s = c@.data;
    let i = c@.at(field as int, row as int);
    law_u16_at_bytes(s, i);
    law_u32_at_bytes(s, i);
    law_u64_at_bytes(s, i);
    lemma_signed(s[i], u16_at(s, i), u32_at(s, i), u64_at(s, i));
}

} // verus!
