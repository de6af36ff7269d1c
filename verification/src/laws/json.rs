//! The JSON form of a schema: its tokens, and the schema that they declare.

use vstd::prelude::*;
use crate::error::HipoError;
#[allow(unused_imports)]
use crate::schema::json::{
    behind, close_of, column_at, columns_at, is_word, member, string_read, tokens, value_end,
    word_len, TokenKind, TokenView,
};
#[allow(unused_imports)]
use crate::schema::text::type_parsed;
use crate::schema::types::{DataType, Schema};
#[allow(unused_imports)]
use crate::schema::types::schema_of;
#[allow(unused_imports)]
use crate::text::uint_value;

verus! {

/// The token, and then those of the rest.
pub open spec fn first_token(
    kind: TokenKind,
    text: Seq<char>,
    rest: Option<Seq<TokenView>>,
) -> Option<Seq<TokenView>> {
    match rest {
        Some(more) => Some(seq![TokenView { kind, text }] + more),
        None => None,
    }
}

/// No tokens are in an empty text; blanks between tokens count for nothing; each of the six marks is
/// a token of its own.
pub proof fn law_json_marks(rest: Seq<char>)
    ensures
        tokens(Seq::empty()) == Some(Seq::<TokenView>::empty()),
        tokens(seq![' '] + rest) == tokens(rest),
        tokens(seq!['\n'] + rest) == tokens(rest),
        tokens(seq!['\t'] + rest) == tokens(rest),
        tokens(seq!['\r'] + rest) == tokens(rest),
        tokens(seq!['{'] + rest) == first_token(TokenKind::Open, Seq::empty(), tokens(rest)),
        tokens(seq!['}'] + rest) == first_token(TokenKind::Close, Seq::empty(), tokens(rest)),
        tokens(seq!['['] + rest) == first_token(TokenKind::ListOpen, Seq::empty(), tokens(rest)),
        tokens(seq![']'] + rest) == first_token(TokenKind::ListClose, Seq::empty(), tokens(rest)),
        tokens(seq![':'] + rest) == first_token(TokenKind::Colon, Seq::empty(), tokens(rest)),
        tokens(seq![','] + rest) == first_token(TokenKind::Comma, Seq::empty(), tokens(rest)),
{
    lemma_rest(' ', rest);
    lemma_rest('\n', rest);
    lemma_rest('\t', rest);
    lemma_rest('\r', rest);
    lemma_rest('{', rest);
    lemma_rest('}', rest);
    lemma_rest('[', rest);
    lemma_rest(']', rest);
    lemma_rest(':', rest);
    lemma_rest(',', rest);
}

proof fn lemma_rest(c: char, rest: Seq<char>)
    ensures
        (seq![c] + rest).drop_first() == rest,
        (seq![c] + rest)[0] == c,
{
    assert((seq![c] + rest).drop_first() =~= rest);
}

/// A text has neither quotes nor backslashes.
pub open spec fn is_plain(t: Seq<char>) -> bool {
    forall|i: int| 0 <= i < t.len() ==> #[trigger] t[i] != '"' && t[i] != '\\'
}

proof fn lemma_string(t: Seq<char>, rest: Seq<char>)
    requires
        is_plain(t),
    ensures
        string_read(t + seq!['"'] + rest) == Some((t, t.len() + 1)),
    decreases t.len(),
{
    let s = t + seq!['"'] + rest;
    if t.len() == 0 {
        assert(s[0] == '"');
        assert(t =~= Seq::<char>::empty());
    } else {
        let u = t.drop_first();
        assert forall|i: int| 0 <= i < u.len() implies #[trigger] u[i] != '"' && u[i] != '\\' by {
            assert(u[i] == t[i + 1]);
        }
        lemma_string(u, rest);
        assert(s.drop_first() =~= u + seq!['"'] + rest);
        assert(s[0] == t[0]);
        assert(seq![t[0]] + u =~= t);
    }
}

/// A string without quotes and backslashes is the characters between its quotes.
pub proof fn law_json_string(t: Seq<char>, rest: Seq<char>)
    requires
        is_plain(t),
    ensures
        tokens(seq!['"'] + t + seq!['"'] + rest) == first_token(TokenKind::Text, t, tokens(rest)),
{
    let s = seq!['"'] + t + seq!['"'] + rest;
    lemma_string(t, rest);
    assert(s.drop_first() =~= t + seq!['"'] + rest);
    assert(s.subrange((t.len() + 2) as int, s.len() as int) =~= rest);
    assert(s[0] == '"');
}

proof fn lemma_word(w: Seq<char>, rest: Seq<char>)
    requires
        forall|i: int| 0 <= i < w.len() ==> is_word(#[trigger] w[i]),
        rest.len() > 0 ==> !is_word(rest[0]),
    ensures
        word_len(w + rest) == w.len(),
    decreases w.len(),
{
    let s = w + rest;
    if w.len() > 0 {
        let u = w.drop_first();
        assert forall|i: int| 0 <= i < u.len() implies is_word(#[trigger] u[i]) by {
            assert(u[i] == w[i + 1]);
        }
        lemma_word(u, rest);
        assert(s.drop_first() =~= u + rest);
        assert(s[0] == w[0]);
    } else if rest.len() > 0 {
        assert(s[0] == rest[0]);
    }
}

/// Digits that a comma or a bracket follows are one token.
pub proof fn law_json_number(digits: Seq<char>, end: char, rest: Seq<char>)
    requires
        digits.len() > 0,
        forall|i: int| 0 <= i < digits.len() ==> '0' <= #[trigger] digits[i] <= '9',
        end == ',' || end == '}' || end == ']' || end == ' ',
    ensures
        tokens(digits + seq![end] + rest) == first_token(
            TokenKind::Word,
            digits,
            tokens(seq![end] + rest),
        ),
{
    let tail = seq![end] + rest;
    let s = digits + seq![end] + rest;
    assert(s =~= digits + tail);
    assert forall|i: int| 0 <= i < digits.len() implies is_word(#[trigger] digits[i]) by {}
    assert(tail[0] == end);
    lemma_word(digits, tail);
    assert(s[0] == digits[0]);
    assert(s.subrange(0, digits.len() as int) =~= digits);
    assert(s.subrange(digits.len() as int, s.len() as int) =~= tail);
}

/// Token `i` is this one.
pub open spec fn token_is(ts: Seq<TokenView>, i: int, kind: TokenKind, text: Seq<char>) -> bool {
    0 <= i < ts.len() && ts[i].kind == kind && (kind == TokenKind::Text || kind == TokenKind::Word
        ==> ts[i].text == text)
}

/// From token `i` on stands a member with this key and value, and then a token of kind `end`.
pub open spec fn member_at(
    ts: Seq<TokenView>,
    i: int,
    key: Seq<char>,
    kind: TokenKind,
    value: Seq<char>,
    end: TokenKind,
) -> bool {
    &&& token_is(ts, i, TokenKind::Text, key)
    &&& token_is(ts, i + 1, TokenKind::Colon, Seq::empty())
    &&& token_is(ts, i + 2, kind, value)
    &&& token_is(ts, i + 3, end, Seq::empty())
}

proof fn lemma_hit(ts: Seq<TokenView>, i: nat, key: Seq<char>)
    requires
        token_is(ts, i as int, TokenKind::Text, key),
        token_is(ts, (i + 1) as int, TokenKind::Colon, Seq::empty()),
        i + 2 < ts.len(),
    ensures
        member(ts, i, key) == Some(i + 2),
{
}

proof fn lemma_pass(
    ts: Seq<TokenView>,
    i: nat,
    key: Seq<char>,
    other: Seq<char>,
    kind: TokenKind,
    value: Seq<char>,
)
    requires
        member_at(ts, i as int, other, kind, value, TokenKind::Comma),
        kind == TokenKind::Text || kind == TokenKind::Word,
        key != other,
    ensures
        member(ts, i, key) == member(ts, i + 4, key),
{
    assert(value_end(ts, i + 2) == Some((i + 3) as nat));
}

proof fn lemma_keys()
    ensures
        "group"@ != "name"@,
        "item"@ != "name"@,
        "item"@ != "group"@,
        "entries"@ != "name"@,
        "entries"@ != "group"@,
        "entries"@ != "item"@,
        "type"@ != "name"@,
{
    reveal_strlit("name");
    reveal_strlit("group");
    reveal_strlit("item");
    reveal_strlit("entries");
    reveal_strlit("type");
    assert("item"@[0] != "name"@[0]);
    assert("type"@[0] != "name"@[0]);
    assert("group"@.len() == 5 && "entries"@.len() == 7 && "name"@.len() == 4);
}

/// Column `k` of `cols`, a name and a type, is declared from token `16 + 10 * k` on: an object with
/// these two members, behind which the next column or the end of the list follows.
pub open spec fn column_declared(ts: Seq<TokenView>, cols: Seq<(Seq<char>, Seq<char>)>, k: int) -> bool {
    let i = 16 + 10 * k;
    &&& token_is(ts, i, TokenKind::Open, Seq::empty())
    &&& member_at(ts, i + 1, "name"@, TokenKind::Text, cols[k].0, TokenKind::Comma)
    &&& member_at(ts, i + 5, "type"@, TokenKind::Text, cols[k].1, TokenKind::Close)
    &&& token_is(
        ts,
        i + 9,
        if k + 1 < cols.len() {
            TokenKind::Comma
        } else {
            TokenKind::ListClose
        },
        Seq::empty(),
    )
}

/// The tokens are those of an object with the members `name`, `group`, `item` and `entries`, the last
/// a list of columns.
pub open spec fn schema_declared(
    ts: Seq<TokenView>,
    name: Seq<char>,
    group: Seq<char>,
    item: Seq<char>,
    cols: Seq<(Seq<char>, Seq<char>)>,
) -> bool {
    &&& token_is(ts, 0, TokenKind::Open, Seq::empty())
    &&& member_at(ts, 1, "name"@, TokenKind::Text, name, TokenKind::Comma)
    &&& member_at(ts, 5, "group"@, TokenKind::Word, group, TokenKind::Comma)
    &&& member_at(ts, 9, "item"@, TokenKind::Word, item, TokenKind::Comma)
    &&& token_is(ts, 13, TokenKind::Text, "entries"@)
    &&& token_is(ts, 14, TokenKind::Colon, Seq::empty())
    &&& token_is(ts, 15, TokenKind::ListOpen, Seq::empty())
    &&& cols.len() > 0
    &&& forall|k: int| 0 <= k < cols.len() ==> #[trigger] column_declared(ts, cols, k)
}

proof fn lemma_columns_declared(
    ts: Seq<TokenView>,
    cols: Seq<(Seq<char>, Seq<char>)>,
    types: Seq<(DataType, u32)>,
    k: nat,
)
    requires
        k < cols.len(),
        types.len() == cols.len(),
        forall|j: int| 0 <= j < cols.len() ==> #[trigger] column_declared(ts, cols, j),
        forall|j: int|
            0 <= j < cols.len() ==> type_parsed(#[trigger] cols[j].1) == Some(types[j]),
    ensures
        columns_at(ts, (16 + 10 * k) as nat) == Some(
            Seq::new((cols.len() - k) as nat, |j: int| (cols[k + j].0, types[k + j].0, types[k + j].1)),
        ),
    decreases cols.len() - k,
{
    lemma_keys();
    let i = (16 + 10 * k) as nat;
    assert(column_declared(ts, cols, k as int));
    lemma_hit(ts, i + 1, "name"@);
    lemma_pass(ts, i + 1, "type"@, "name"@, TokenKind::Text, cols[k as int].0);
    lemma_hit(ts, i + 5, "type"@);
    assert(type_parsed(cols[k as int].1) == Some(types[k as int]));
    let c = (cols[k as int].0, types[k as int].0, types[k as int].1);
    assert(column_at(ts, i) == Some(c));
    assert(value_end(ts, i) == Some(i + 9)) by {
        reveal_with_fuel(close_of, 9);
    }
    let all = Seq::new(
        (cols.len() - k) as nat,
        |j: int| (cols[k + j].0, types[k + j].0, types[k + j].1),
    );
    if k + 1 < cols.len() {
        lemma_columns_declared(ts, cols, types, k + 1);
        let more = Seq::new(
            (cols.len() - (k + 1)) as nat,
            |j: int| (cols[k + 1 + j].0, types[k + 1 + j].0, types[k + 1 + j].1),
        );
        assert(seq![c] + more =~= all);
    } else {
        assert(seq![c] =~= all);
    }
}

/// A JSON text declares the schema with the name and the id that its members say, and with the
/// columns of its list, in order.
pub proof fn law_json_declares_a_schema(
    text: &str,
    r: Result<Schema, HipoError>,
    ts: Seq<TokenView>,
    name: Seq<char>,
    group: Seq<char>,
    item: Seq<char>,
    g: u16,
    t: u8,
    cols: Seq<(Seq<char>, Seq<char>)>,
    types: Seq<(DataType, u32)>,
)
    requires
        call_ensures(Schema::parse_json, (text,), r),
        tokens(text@) == Some(ts),
        schema_declared(ts, name, group, item, cols),
        uint_value(group, 65535) == Some(g as nat),
        uint_value(item, 255) == Some(t as nat),
        types.len() == cols.len(),
        forall|j: int|
            0 <= j < cols.len() ==> type_parsed(#[trigger] cols[j].1) == Some(types[j]),
    ensures
        r matches Ok(s) && s@ == schema_of(
            name,
            g,
            t,
            Seq::new(cols.len(), |j: int| (cols[j].0, types[j].0, types[j].1)),
        ),
{
    lemma_keys();
    lemma_hit(ts, 1, "name"@);
    lemma_pass(ts, 1, "group"@, "name"@, TokenKind::Text, name);
    lemma_hit(ts, 5, "group"@);
    lemma_pass(ts, 1, "item"@, "name"@, TokenKind::Text, name);
    lemma_pass(ts, 5, "item"@, "group"@, TokenKind::Word, group);
    lemma_hit(ts, 9, "item"@);
    lemma_pass(ts, 1, "entries"@, "name"@, TokenKind::Text, name);
    lemma_pass(ts, 5, "entries"@, "group"@, TokenKind::Word, group);
    lemma_pass(ts, 9, "entries"@, "item"@, TokenKind::Word, item);
    lemma_hit(ts, 13, "entries"@);
    lemma_columns_declared(ts, cols, types, 0);
    assert(columns_at(ts, 16) is Some);
    assert(columns_at(ts, 16)->0 =~= Seq::new(
        cols.len(),
        |j: int| (cols[j].0, types[j].0, types[j].1),
    ));
}

} // verus!
