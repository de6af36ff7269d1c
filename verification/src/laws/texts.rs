//! Text forms of numbers, schemas and dictionaries.

use vstd::prelude::*;
use crate::error::HipoError;
use crate::schema::dict::Dict;
#[allow(unused_imports)]
use crate::schema::text::{clean_schema, column_text, column_texts, law_schema_text_round_trip, schema_text};
use crate::schema::types::{DataType, Schema};
#[allow(unused_imports)]
use crate::schema::types::{EntryView, SchemaView};
#[allow(unused_imports)]
use crate::text::{dec, digits_value, joined, lemma_joined_push, uint_value};

verus! {

/// The number that decimal digits stand for, the most significant first.
pub open spec fn worth(s: Seq<char>) -> int
    decreases s.len(),
{
    if s.len() == 0 {
        0
    } else {
        worth(s.drop_last()) * 10 + (s.last() as int - '0' as int)
    }
}

/// Every character is a decimal digit.
pub open spec fn all_digits(s: Seq<char>) -> bool {
    s.len() > 0 && forall|i: int| 0 <= i < s.len() ==> '0' <= #[trigger] s[i] <= '9'
}

/// A number is written in decimal digits that are worth it, without a zero in front.
pub proof fn law_decimal(n: nat)
    ensures
        all_digits(dec(n)),
        worth(dec(n)) == n,
        dec(n)[0] == '0' ==> n == 0 && dec(n).len() == 1,
    decreases n,
{
    reveal_with_fuel(worth, 3);
    if n >= 10 {
        law_decimal(n / 10);
        let front = dec(n / 10);
        assert(dec(n).drop_last() =~= front);
        assert(dec(n)[0] == front[0]);
    } else {
        assert(dec(n).drop_last() =~= Seq::<char>::empty());
    }
}

/// A text is read as a number where it is decimal digits, with or without a plus sign in front,
/// that are worth no more than the largest allowed.
pub proof fn law_number_is_read(s: Seq<char>, max: nat)
    ensures
        all_digits(s) && worth(s) <= max ==> uint_value(s, max) == Some(worth(s) as nat),
        all_digits(s) && worth(s) > max ==> uint_value(s, max) is None,
        s.len() == 0 ==> uint_value(s, max) is None,
        s.len() > 0 && s[0] != '+' && !all_digits(s) ==> uint_value(s, max) is None,
{
    lemma_digits(s);
    if all_digits(s) {
        assert(s[0] != '+');
    }
}

proof fn lemma_digits(s: Seq<char>)
    ensures
        all_digits(s) ==> digits_value(s) == Some(worth(s) as nat) && worth(s) >= 0,
        !all_digits(s) ==> digits_value(s) is None,
    decreases s.len(),
{
    reveal_with_fuel(worth, 3);
    if s.len() > 0 {
        let front = s.drop_last();
        lemma_digits(front);
        if all_digits(s) {
            assert('0' <= s[s.len() - 1] <= '9');
            assert forall|i: int| 0 <= i < front.len() implies '0' <= #[trigger] front[i] <= '9' by {
                assert(front[i] == s[i]);
            }
            if s.len() == 1 {
                assert(front =~= Seq::<char>::empty());
            }
        } else if '0' <= s.last() <= '9' && s.len() > 1 {
            if all_digits(front) {
                assert forall|i: int| 0 <= i < s.len() implies '0' <= #[trigger] s[i] <= '9' by {
                    if i < front.len() {
                        assert(front[i] == s[i]);
                    }
                }
            }
        } else if '0' <= s.last() <= '9' {
            assert(s[0] == s.last());
        }
    }
}

/// The first `n` columns as text: the name, a slash and the letter of the type, with a number sign
/// and the length where a cell has more than one element, and commas between columns.
pub open spec fn columns_line(entries: Seq<EntryView>, n: int) -> Seq<char>
    decreases n,
{
    if n <= 0 {
        Seq::empty()
    } else {
        let e = entries[n - 1];
        let letter = match e.ty {
            DataType::Byte => 'B',
            DataType::Short => 'S',
            DataType::Int => 'I',
            DataType::Float => 'F',
            DataType::Double => 'D',
            DataType::Long => 'L',
        };
        let one = e.name + seq!['/', letter] + if e.length > 1 {
            seq!['#'] + dec(e.length as nat)
        } else {
            Seq::empty()
        };
        if n == 1 {
            one
        } else {
            columns_line(entries, n - 1) + seq![','] + one
        }
    }
}

proof fn lemma_columns_line(entries: Seq<EntryView>, n: nat)
    requires
        n <= entries.len(),
    ensures
        joined(column_texts(entries.subrange(0, n as int)), ',') == columns_line(entries, n as int),
    decreases n,
{
    let all = column_texts(entries.subrange(0, n as int));
    if n > 0 {
        let m = (n - 1) as nat;
        lemma_columns_line(entries, m);
        let front = column_texts(entries.subrange(0, m as int));
        let e = entries[m as int];
        let x = column_text(e);
        assert(all =~= front.push(x));
        lemma_joined_push(front, x, ',');
        let one = columns_line(seq![e], 1);
        assert(x =~= one);
        if n == 1 {
            assert(front =~= Seq::<Seq<char>>::empty());
            assert(all =~= seq![x]);
            assert(joined(all, ',') == x);
            assert(columns_line(entries, 1) =~= x);
        } else {
            assert(columns_line(entries, n as int) =~= columns_line(entries, m as int) + seq![','] + x);
        }
    }
}

/// The text of a schema is its name, group and item with slashes between them, in braces, and its
/// columns, in braces.
pub proof fn law_schema_as_text(s: Schema, text: String)
    requires
        call_ensures(Schema::to_text, (&s,), text),
    ensures
        text@ == seq!['{'] + s@.name + seq!['/'] + dec(s@.group as nat) + seq!['/'] + dec(
            s@.item as nat,
        ) + seq!['}', '{'] + columns_line(s@.entries, s@.entries.len() as int) + seq!['}'],
{
    let n = s@.entries.len();
    lemma_columns_line(s@.entries, n);
    assert(s@.entries.subrange(0, n as int) =~= s@.entries);
    assert(text@ =~= seq!['{'] + s@.name + seq!['/'] + dec(s@.group as nat) + seq!['/'] + dec(
        s@.item as nat,
    ) + seq!['}', '{'] + columns_line(s@.entries, n as int) + seq!['}']);
}

/// A schema comes back from its text, where its names have no slash, comma or brace and no white
/// space around them.
pub proof fn law_schema_comes_back_from_text(
    s: Schema,
    text: &str,
    r: Result<Schema, HipoError>,
)
    requires
        s@.laid_out(),
        clean_schema(s@),
        text@ == seq!['{'] + s@.name + seq!['/'] + dec(s@.group as nat) + seq!['/'] + dec(
            s@.item as nat,
        ) + seq!['}', '{'] + columns_line(s@.entries, s@.entries.len() as int) + seq!['}'],
        call_ensures(Schema::parse_text, (text,), r),
    ensures
        r matches Ok(t) && t@ == s@,
{
    let n = s@.entries.len();
    lemma_columns_line(s@.entries, n);
    assert(s@.entries.subrange(0, n as int) =~= s@.entries);
    assert(text@ =~= schema_text(s@));
    law_schema_text_round_trip(s@);
}

/// The texts of the first `n` schemas, each on a line of its own.
pub open spec fn schema_lines(schemas: Seq<SchemaView>, n: int) -> Seq<char>
    decreases n,
{
    if n <= 0 {
        Seq::empty()
    } else if n == 1 {
        schema_text(schemas[0])
    } else {
        schema_lines(schemas, n - 1) + seq!['\n'] + schema_text(schemas[n - 1])
    }
}

proof fn lemma_schema_lines(schemas: Seq<SchemaView>, n: nat)
    requires
        n <= schemas.len(),
    ensures
        joined(
            schemas.subrange(0, n as int).map_values(|s: SchemaView| schema_text(s)),
            '\n',
        ) == schema_lines(schemas, n as int),
    decreases n,
{
    let all = schemas.subrange(0, n as int).map_values(|s: SchemaView| schema_text(s));
    if n > 0 {
        let m = (n - 1) as nat;
        lemma_schema_lines(schemas, m);
        let front = schemas.subrange(0, m as int).map_values(|s: SchemaView| schema_text(s));
        assert(all =~= front.push(schema_text(schemas[m as int])));
        lemma_joined_push(front, schema_text(schemas[m as int]), '\n');
    }
}

/// The text of a dictionary is the texts of its schemas, in order, each on a line of its own.
pub proof fn law_dict_as_text(d: Dict, text: String)
    requires
        call_ensures(Dict::to_text, (&d,), text),
    ensures
        text@ == schema_lines(d@.schemas, d@.schemas.len() as int),
{
    lemma_schema_lines(d@.schemas, d@.schemas.len());
    assert(d@.schemas.subrange(0, d@.schemas.len() as int) =~= d@.schemas);
}

} // verus!
