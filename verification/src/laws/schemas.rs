//! Types, schemas and dictionaries.

use vstd::prelude::*;
use crate::error::HipoError;
#[allow(unused_imports)]
use crate::laws::banks::{cell_bytes, last_named, type_bytes};
#[allow(unused_imports)]
use crate::laws::bytes::law_element_types;
use crate::schema::dict::Dict;
use crate::schema::handle::{BankColumnType, ColumnHandle};
#[allow(unused_imports)]
use crate::schema::handle::scalar_type;
#[allow(unused_imports)]
use crate::schema::types::{bare_entries, triples, widths};
use crate::schema::types::{DataType, Schema};

verus! {

/// What stands for a type: a letter, a number, a name, and how many bytes an element takes.
pub open spec fn type_facts(t: DataType, letter: char, number: u8, size: int, name: Seq<char>) -> bool {
    match t {
        DataType::Byte => letter == 'B' && number == 1 && size == 1 && name == "byte"@,
        DataType::Short => letter == 'S' && number == 2 && size == 2 && name == "short"@,
        DataType::Int => letter == 'I' && number == 3 && size == 4 && name == "int"@,
        DataType::Float => letter == 'F' && number == 4 && size == 4 && name == "float"@,
        DataType::Double => letter == 'D' && number == 5 && size == 8 && name == "double"@,
        DataType::Long => letter == 'L' && number == 8 && size == 8 && name == "long"@,
    }
}

/// Every type has its letter, its number, its size and its name.
pub proof fn law_type_facts(t: DataType, letter: char, number: u8, size: usize, name: &'static str)
    requires
        call_ensures(DataType::letter, (t,), letter),
        call_ensures(DataType::type_id, (t,), number),
        call_ensures(DataType::size, (t,), size),
        call_ensures(DataType::name, (t,), name),
    ensures
        type_facts(t, letter, number, size as int, name@),
{
}

/// A letter or a number stands for the type that has it, and for none where none has it.
pub proof fn law_type_of_letter_and_number(
    c: char,
    id: u8,
    by_letter: Option<DataType>,
    by_number: Option<DataType>,
)
    requires
        call_ensures(DataType::from_letter, (c,), by_letter),
        call_ensures(DataType::from_type_id, (id,), by_number),
    ensures
        (by_letter is Some) == (c == 'B' || c == 'S' || c == 'I' || c == 'F' || c == 'D' || c == 'L'),
        c == 'B' ==> by_letter == Some(DataType::Byte),
        c == 'S' ==> by_letter == Some(DataType::Short),
        c == 'I' ==> by_letter == Some(DataType::Int),
        c == 'F' ==> by_letter == Some(DataType::Float),
        c == 'D' ==> by_letter == Some(DataType::Double),
        c == 'L' ==> by_letter == Some(DataType::Long),
        (by_number is Some) == (1 <= id <= 5 || id == 8),
        id == 1 ==> by_number == Some(DataType::Byte),
        id == 2 ==> by_number == Some(DataType::Short),
        id == 3 ==> by_number == Some(DataType::Int),
        id == 4 ==> by_number == Some(DataType::Float),
        id == 5 ==> by_number == Some(DataType::Double),
        id == 8 ==> by_number == Some(DataType::Long),
{
    if by_number is None {
        assert(DataType::Byte.number() != id && DataType::Short.number() != id);
        assert(DataType::Int.number() != id && DataType::Float.number() != id);
        assert(DataType::Double.number() != id && DataType::Long.number() != id);
    }
}

/// The bytes of the first `n` columns of a list of types and lengths; no length counts as one.
pub open spec fn bytes_of(cols: Seq<(String, DataType, u32)>, n: int) -> int
    decreases n,
{
    if n <= 0 {
        0
    } else {
        bytes_of(cols, n - 1) + type_bytes(cols[n - 1].1) * (if cols[n - 1].2 == 0 {
            1
        } else {
            cols[n - 1].2 as int
        })
    }
}

proof fn lemma_bytes_of(cols: Seq<(String, DataType, u32)>, n: nat)
    requires
        n <= cols.len(),
        n <= 65536,
    ensures
        widths(bare_entries(triples(cols)), n) == bytes_of(cols, n as int),
    decreases n,
{
    law_element_types();
    if n > 0 {
        lemma_bytes_of(cols, (n - 1) as nat);
    }
}

/// A schema that is made of columns has its name and id, and the columns in order, each with its
/// name, its type and its length, and no length counted as one. A column starts where those before
/// it end, and a row is as long as all of them.
pub proof fn law_schema_of_columns(
    name: &str,
    group: u16,
    item: u8,
    cols: Vec<(String, DataType, u32)>,
    s: Schema,
    i: int,
)
    requires
        call_ensures(Schema::from_columns, (name, group, item, cols), s),
        cols@.len() <= 65536,
        bytes_of(cols@, cols@.len() as int) <= u32::MAX,
    ensures
        s@.name == name@ && s@.group == group && s@.item == item,
        s@.entries.len() == cols@.len(),
        s@.row_size == bytes_of(cols@, cols@.len() as int),
        0 <= i < cols@.len() ==> {
            let e = s@.entries[i];
            &&& e.name == cols@[i].0@
            &&& e.ty == cols@[i].1
            &&& e.length == (if cols@[i].2 == 0 {
                1
            } else {
                cols@[i].2
            })
            &&& e.row_offset == bytes_of(cols@, i)
        },
{
    lemma_bytes_of(cols@, cols@.len());
    if 0 <= i < cols@.len() {
        lemma_bytes_of(cols@, i as nat);
        crate::schema::types::lemma_widths_monotone(
            bare_entries(triples(cols@)),
            i as nat,
            cols@.len(),
        );
    }
}

/// A column is found by its name where the schema has one with that name, and of several the last;
/// what is asked for without being there is refused by its name.
pub proof fn law_column_by_name(
    s: Schema,
    name: &str,
    index: Option<usize>,
    required: Result<usize, HipoError>,
    c: int,
)
    requires
        call_ensures(Schema::column_index, (&s, name), index),
        call_ensures(Schema::require_column, (&s, name), required),
        s@.entries.len() <= 65536,
    ensures
        last_named(s@.entries, name@, c) ==> index == Some(c as usize) && required == Ok::<
            usize,
            HipoError,
        >(c as usize),
        (forall|j: int| 0 <= j < s@.entries.len() ==> (#[trigger] s@.entries[j]).name != name@)
            ==> index is None && (required matches Err(
            HipoError::UnknownColumn { schema, column },
        ) && schema@ == s@.name && column@ == name@),
        index is None ==> forall|j: int|
            0 <= j < s@.entries.len() ==> (#[trigger] s@.entries[j]).name != name@,
{
    if last_named(s@.entries, name@, c) {
        assert(s@.entries[c].name == name@);
        if let Some(i) = index {
            if i < c {
                assert(s@.entries[c].name != name@);
            } else if c < i {
                assert(s@.entries[i as int].name != name@);
            }
        }
        if let Ok(i) = required {
            if i < c {
                assert(s@.entries[c].name != name@);
            } else if c < i {
                assert(s@.entries[i as int].name != name@);
            }
        }
    }
}

/// A handle to a column as `T` can be had exactly where the last column of the name holds elements
/// of `T`'s type, as many per cell as `T` has; it is then a handle to that column.
pub proof fn law_handle_is_resolved<T: BankColumnType>(
    s: Schema,
    name: &str,
    r: Result<ColumnHandle<T>, HipoError>,
    c: int,
)
    requires
        call_ensures(Schema::handle::<T>, (&s, name), r),
        last_named(s@.entries, name@, c),
    ensures
        (r is Ok) == (s@.entries[c].ty == scalar_type::<T>() && s@.entries[c].length
            == T::spec_length()),
        r matches Ok(h) ==> h@ == c,
{
    assert(s@.is_column(name@, c));
    assert forall|i: int| #[trigger] s@.is_column(name@, i) implies i == c by {
        if i < c {
            assert(s@.entries[c].name != name@);
        } else if c < i {
            assert(s@.entries[i].name != name@);
        }
    }
    assert(s@.entries[c].name == name@);
    match r {
        Ok(h) => {
            assert(s@.is_column(name@, h@));
        },
        Err(e) => {
            match e {
                HipoError::TypeMismatch { schema, column, expected, actual } => {
                    let i = choose|i: int| #[trigger]
                        s@.is_column(name@, i) && s@.entries[i].ty != scalar_type::<T>();
                    assert(i == c);
                },
                HipoError::ColumnLengthMismatch { schema, column, expected, actual } => {
                    let i = choose|i: int| #[trigger]
                        s@.is_column(name@, i) && s@.entries[i].length != T::spec_length();
                    assert(i == c);
                },
                _ => {},
            }
        },
    }
}

/// Where things stand in a bank of `total` rows: a column behind the columns before it, all their
/// rows long, and a cell behind the cells of the rows before it.
pub proof fn law_schema_places(
    s: Schema,
    col: usize,
    row: u32,
    total: u32,
    column: u64,
    cell: u64,
    bytes: u64,
    length: u32,
)
    requires
        call_ensures(Schema::column_byte_offset, (&s, col, total), column),
        call_ensures(Schema::cell_byte_offset, (&s, col, row, total), cell),
        call_ensures(Schema::bytes_for_rows, (&s, total), bytes),
        call_ensures(Schema::column_length, (&s, col), length),
        col < s@.entries.len(),
    ensures
        column == total * s@.entries[col as int].row_offset,
        cell == column + row * cell_bytes(s@.entries[col as int]),
        bytes == total * s@.row_size,
        length == s@.entries[col as int].length,
{
    law_element_types();
    assert(total * s@.row_size == s@.row_size * total) by (nonlinear_arith);
    assert(cell_bytes(s@.entries[col as int]) == s@.entries[col as int].width());
}

/// Two schemas are the same where name, id, row size and all columns are.
pub proof fn law_schemas_are_compared(a: Schema, b: Schema, r: bool)
    requires
        call_ensures(Schema::same_as, (&a, &b), r),
    ensures
        r == (a@.name == b@.name && a@.group == b@.group && a@.item == b@.item && a@.row_size
            == b@.row_size && a@.entries.len() == b@.entries.len() && forall|i: int|
            0 <= i < a@.entries.len() ==> (#[trigger] a@.entries[i]).name == b@.entries[i].name
                && a@.entries[i].ty == b@.entries[i].ty && a@.entries[i].length
                == b@.entries[i].length && a@.entries[i].row_offset == b@.entries[i].row_offset),
{
    if a@.name == b@.name && a@.group == b@.group && a@.item == b@.item && a@.row_size
        == b@.row_size && a@.entries.len() == b@.entries.len() && forall|i: int|
        0 <= i < a@.entries.len() ==> (#[trigger] a@.entries[i]).name == b@.entries[i].name
            && a@.entries[i].ty == b@.entries[i].ty && a@.entries[i].length == b@.entries[i].length
            && a@.entries[i].row_offset == b@.entries[i].row_offset {
        assert(a@.entries =~= b@.entries);
        assert(a@ =~= b@);
    }
}

/// A dictionary finds a schema by its name where it lists one with that name, and then that one.
/// What it finds by an id has that id.
pub proof fn law_dict_finds<'a>(
    d: &'a Dict,
    name: &str,
    r: Option<&'a Schema>,
    group: u16,
    item: u8,
    by_id: Option<&'a Schema>,
    i: int,
)
    requires
        d@.wf(),
        call_ensures(Dict::get, (d, name), r),
        call_ensures(Dict::get_by_id, (d, group, item), by_id),
    ensures
        0 <= i < d@.schemas.len() && d@.schemas[i].name == name@ ==> (r matches Some(s) && s@
            == d@.schemas[i]),
        (forall|j: int| 0 <= j < d@.schemas.len() ==> (#[trigger] d@.schemas[j]).name != name@)
            ==> r is None,
        by_id matches Some(s) ==> s@.group == group && s@.item == item && d@.schemas.contains(s@),
{
    if 0 <= i < d@.schemas.len() && d@.schemas[i].name == name@ {
        assert(d@.names(i, name@));
        crate::schema::dict::lemma_position(d@, i, name@);
    }
    if d@.has_name(name@) {
        let p = d@.position(name@);
        assert(d@.names(p, name@));
        assert(d@.schemas[p].name == name@);
    }
    if d@.ids.dom().contains((group, item)) {
        let p = d@.ids[(group, item)] as int;
        assert(d@.schemas[p] == d@.by_id(group, item)->0);
    }
}

/// Adding a schema to a dictionary makes it the one that is found under its name and under its id,
/// and leaves what is found under other names. It comes last, or takes the place of the schema of
/// the same name.
pub proof fn law_schema_is_added<'b>(
    d: &'b mut Dict,
    schema: Schema,
    r: Result<&'b Schema, HipoError>,
    name: Seq<char>,
    i: int,
)
    requires
        old(d)@.wf(),
        schema@.laid_out(),
        call_ensures(Dict::try_add, (d, schema), r),
    ensures
        (r is Ok) == (old(d)@.named(schema@.name) is Some || old(d)@.schemas.len() < 65536),
        r is Err ==> final(d)@ == old(d)@,
        r is Ok ==> {
            &&& final(d)@.named(schema@.name) == Some(schema@)
            &&& final(d)@.by_id(schema@.group, schema@.item) == Some(schema@)
            &&& name != schema@.name ==> final(d)@.named(name) == old(d)@.named(name)
            &&& 0 <= i < old(d)@.schemas.len() ==> final(d)@.schemas[i] == (if old(
                d,
            )@.schemas[i].name == schema@.name {
                schema@
            } else {
                old(d)@.schemas[i]
            })
            &&& old(d)@.named(schema@.name) is None ==> final(d)@.schemas == old(d)@.schemas.push(
                schema@,
            )
        },
{
    let b = old(d)@;
    let s = schema@;
    if r is Ok {
        crate::schema::dict::law_lookup_after_add(b, s, s.name);
        crate::schema::dict::law_lookup_after_add(b, s, name);
        crate::schema::dict::law_id_after_add(b, s, s.group, s.item);
        if 0 <= i < b.schemas.len() && b.schemas[i].name == s.name {
            assert(b.names(i, s.name));
            crate::schema::dict::lemma_position(b, i, s.name);
        }
        if b.has_name(s.name) {
            let p = b.position(s.name);
            assert(b.names(p, s.name));
        }
    }
}

} // verus!
