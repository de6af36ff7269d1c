//! The JSON form of a schema, which some writers store in place of the text form:
//! `{ "name": .., "group": .., "item": .., "entries": [ { "name": .., "type": .. }, .. ] }`.
//! Members that a schema has no use for are skipped.

use vstd::prelude::*;
use vstd::slice::slice_subrange;
use crate::error::{HipoError, Result};
use crate::schema::text::parse_type;
#[allow(unused_imports)]
use crate::schema::text::{is_blank, type_parsed};
use crate::schema::types::{DataType, Schema};
#[allow(unused_imports)]
use crate::schema::types::{schema_of, triples, SchemaView};
use crate::text::{chars_of, owned, read_uint, text_of};
#[allow(unused_imports)]
use crate::text::uint_value;

verus! {

/// The kinds of JSON token.
#[derive(Debug, Clone, Copy, PartialEq, Eq, Structural)]
pub enum TokenKind {
    Open,
    Close,
    ListOpen,
    ListClose,
    Colon,
    Comma,
    /// A quoted string.
    Text,
    /// A number, or one of the literal names.
    Word,
}

/// A JSON token: its kind, and the characters of a string or word.
#[verifier::ext_equal]
pub struct TokenView {
    pub kind: TokenKind,
    pub text: Seq<char>,
}

/// The kind of a one-character token.
pub open spec fn mark(c: char) -> Option<TokenKind> {
    if c == '{' {
        Some(TokenKind::Open)
    } else if c == '}' {
        Some(TokenKind::Close)
    } else if c == '[' {
        Some(TokenKind::ListOpen)
    } else if c == ']' {
        Some(TokenKind::ListClose)
    } else if c == ':' {
        Some(TokenKind::Colon)
    } else if c == ',' {
        Some(TokenKind::Comma)
    } else {
        None
    }
}

/// The character that `\c` stands for. Escapes by number are not read.
pub open spec fn escaped(c: char) -> Option<char> {
    if c == '"' || c == '\\' || c == '/' {
        Some(c)
    } else if c == 'n' {
        Some('\n')
    } else if c == 't' {
        Some('\t')
    } else if c == 'r' {
        Some('\r')
    } else if c == 'b' {
        Some('\u{8}')
    } else if c == 'f' {
        Some('\u{c}')
    } else {
        None
    }
}

/// The string whose opening quote was just read, and how many characters it takes up with its
/// closing quote; nothing where it is not closed.
pub open spec fn string_read(s: Seq<char>) -> Option<(Seq<char>, nat)>
    decreases s.len(),
{
    if s.len() == 0 {
        None
    } else if s[0] == '"' {
        Some((Seq::empty(), 1))
    } else if s[0] == '\\' {
        if s.len() < 2 || escaped(s[1]) is None {
            None
        } else {
            after(seq![escaped(s[1])->0], 2, string_read(s.subrange(2, s.len() as int)))
        }
    } else {
        after(seq![s[0]], 1, string_read(s.drop_first()))
    }
}

/// What was read, behind `n` characters that stand for `t`.
pub open spec fn after(t: Seq<char>, n: nat, r: Option<(Seq<char>, nat)>) -> Option<
    (Seq<char>, nat),
> {
    match r {
        Some((u, m)) => Some((t + u, n + m)),
        None => None,
    }
}

/// A character of a word.
pub open spec fn is_word(c: char) -> bool {
    !is_blank(c) && mark(c) is None && c != '"'
}

/// How many characters the word at the front of `s` has.
pub open spec fn word_len(s: Seq<char>) -> nat
    decreases s.len(),
{
    if s.len() > 0 && is_word(s[0]) {
        1 + word_len(s.drop_first())
    } else {
        0
    }
}

/// `t`, and then what follows.
pub open spec fn behind(ts: Seq<TokenView>, rest: Option<Seq<TokenView>>) -> Option<
    Seq<TokenView>,
> {
    match rest {
        Some(more) => Some(ts + more),
        None => None,
    }
}

/// The tokens of `s`; nothing where a string is malformed.
pub open spec fn tokens(s: Seq<char>) -> Option<Seq<TokenView>>
    decreases s.len(),
{
    if s.len() == 0 {
        Some(Seq::empty())
    } else if is_blank(s[0]) {
        tokens(s.drop_first())
    } else if mark(s[0]) is Some {
        behind(
            seq![TokenView { kind: mark(s[0])->0, text: Seq::empty() }],
            tokens(s.drop_first()),
        )
    } else if s[0] == '"' {
        match string_read(s.drop_first()) {
            Some((t, n)) => if n < s.len() {
                behind(
                    seq![TokenView { kind: TokenKind::Text, text: t }],
                    tokens(s.subrange((n + 1) as int, s.len() as int)),
                )
            } else {
                None
            },
            None => None,
        }
    } else {
        let n = word_len(s);
        if 0 < n <= s.len() {
            behind(
                seq![TokenView { kind: TokenKind::Word, text: s.subrange(0, n as int) }],
                tokens(s.subrange(n as int, s.len() as int)),
            )
        } else {
            None
        }
    }
}

/// Where the object or list that is `depth` levels deep at token `i` ends.
pub open spec fn close_of(ts: Seq<TokenView>, i: nat, depth: nat) -> Option<nat>
    decreases ts.len() - i,
{
    if i >= ts.len() {
        None
    } else if ts[i as int].kind == TokenKind::Open || ts[i as int].kind == TokenKind::ListOpen {
        close_of(ts, i + 1, depth + 1)
    } else if ts[i as int].kind == TokenKind::Close || ts[i as int].kind == TokenKind::ListClose {
        if depth <= 1 {
            Some(i + 1)
        } else {
            close_of(ts, i + 1, (depth - 1) as nat)
        }
    } else {
        close_of(ts, i + 1, depth)
    }
}

/// Where the value that starts at token `i` ends.
pub open spec fn value_end(ts: Seq<TokenView>, i: nat) -> Option<nat> {
    if i >= ts.len() {
        None
    } else if ts[i as int].kind == TokenKind::Open || ts[i as int].kind == TokenKind::ListOpen {
        close_of(ts, i + 1, 1)
    } else if ts[i as int].kind == TokenKind::Text || ts[i as int].kind == TokenKind::Word {
        Some(i + 1)
    } else {
        None
    }
}

/// Where the value of the first member `key` starts, looking from the member at token `i` on.
pub open spec fn member(ts: Seq<TokenView>, i: nat, key: Seq<char>) -> Option<nat>
    decreases ts.len() - i,
{
    if i + 2 < ts.len() && ts[i as int].kind == TokenKind::Text && ts[(i + 1) as int].kind
        == TokenKind::Colon {
        if ts[i as int].text == key {
            Some(i + 2)
        } else {
            match value_end(ts, i + 2) {
                Some(e) => if i < e < ts.len() && ts[e as int].kind == TokenKind::Comma {
                    member(ts, e + 1, key)
                } else {
                    None
                },
                None => None,
            }
        }
    } else {
        None
    }
}

/// The value of member `key` of the object at token `i`, where it has this kind.
pub open spec fn field(ts: Seq<TokenView>, i: nat, key: Seq<char>, kind: TokenKind) -> Option<nat> {
    if i < ts.len() && ts[i as int].kind == TokenKind::Open {
        match member(ts, i + 1, key) {
            Some(v) => if ts[v as int].kind == kind {
                Some(v)
            } else {
                None
            },
            None => None,
        }
    } else {
        None
    }
}

/// The column that the object at token `i` declares.
pub open spec fn column_at(ts: Seq<TokenView>, i: nat) -> Option<(Seq<char>, DataType, u32)> {
    match (field(ts, i, "name"@, TokenKind::Text), field(ts, i, "type"@, TokenKind::Text)) {
        (Some(n), Some(t)) => match type_parsed(ts[t as int].text) {
            Some((ty, len)) => Some((ts[n as int].text, ty, len)),
            None => None,
        },
        _ => None,
    }
}

/// The columns that the list elements from token `i` on declare.
pub open spec fn columns_at(ts: Seq<TokenView>, i: nat) -> Option<Seq<(Seq<char>, DataType, u32)>>
    decreases ts.len() - i,
{
    if i >= ts.len() {
        None
    } else if ts[i as int].kind == TokenKind::ListClose {
        Some(Seq::empty())
    } else {
        match (column_at(ts, i), value_end(ts, i)) {
            (Some(c), Some(e)) => if !(i < e < ts.len()) {
                None
            } else if ts[e as int].kind == TokenKind::ListClose {
                Some(seq![c])
            } else if ts[e as int].kind == TokenKind::Comma {
                match columns_at(ts, e + 1) {
                    Some(more) => Some(seq![c] + more),
                    None => None,
                }
            } else {
                None
            },
            _ => None,
        }
    }
}

/// The schema that tokens declare.
pub open spec fn schema_at(ts: Seq<TokenView>) -> Option<SchemaView> {
    match (
        field(ts, 0, "name"@, TokenKind::Text),
        field(ts, 0, "group"@, TokenKind::Word),
        field(ts, 0, "item"@, TokenKind::Word),
        field(ts, 0, "entries"@, TokenKind::ListOpen),
    ) {
        (Some(n), Some(g), Some(i), Some(e)) => match (
            uint_value(ts[g as int].text, 65535),
            uint_value(ts[i as int].text, 255),
            columns_at(ts, e + 1),
        ) {
            (Some(group), Some(item), Some(cols)) => Some(
                schema_of(ts[n as int].text, group as u16, item as u8, cols),
            ),
            _ => None,
        },
        _ => None,
    }
}

/// The schema that a JSON text declares; nothing where it declares none.
pub open spec fn schema_from_json(text: Seq<char>) -> Option<SchemaView> {
    match tokens(text) {
        Some(ts) => schema_at(ts),
        None => None,
    }
}

/// A JSON token.
struct Token {
    kind: TokenKind,
    text: Vec<char>,
}

/// What tokens say.
spec fn token_views(ts: Seq<Token>) -> Seq<TokenView> {
    ts.map_values(|t: Token| TokenView { kind: t.kind, text: t.text@ })
}

/// The kind of a one-character token.
fn read_mark(c: char) -> (r: Option<TokenKind>)
    ensures
        r == mark(c),
{
    if c == '{' {
        Some(TokenKind::Open)
    } else if c == '}' {
        Some(TokenKind::Close)
    } else if c == '[' {
        Some(TokenKind::ListOpen)
    } else if c == ']' {
        Some(TokenKind::ListClose)
    } else if c == ':' {
        Some(TokenKind::Colon)
    } else if c == ',' {
        Some(TokenKind::Comma)
    } else {
        None
    }
}

/// The character that an escape stands for.
fn read_escape(c: char) -> (r: Option<char>)
    ensures
        r == escaped(c),
{
    if c == '"' || c == '\\' || c == '/' {
        Some(c)
    } else if c == 'n' {
        Some('\n')
    } else if c == 't' {
        Some('\t')
    } else if c == 'r' {
        Some('\r')
    } else if c == 'b' {
        Some('\u{8}')
    } else if c == 'f' {
        Some('\u{c}')
    } else {
        None
    }
}

/// Whether `c` is ASCII white space.
fn check_blank(c: char) -> (r: bool)
    ensures
        r == is_blank(c),
{
    c == ' ' || c == '\t' || c == '\n' || c == '\r' || c == '\u{c}'
}

/// Read the string whose opening quote was just read.
fn read_string(s: &[char]) -> (r: Option<(Vec<char>, usize)>)
    ensures
        match r {
            Some((t, n)) => string_read(s@) == Some((t@, n as nat)) && n <= s.len(),
            None => string_read(s@) is None,
        },
{
    let mut out: Vec<char> = Vec::new();
    let mut i: usize = 0;
    let ghost goal = string_read(s@);
    assert(s@.subrange(0, s.len() as int) =~= s@);
    proof {
        if let Some((u, m)) = goal {
            assert(Seq::<char>::empty() + u =~= u);
        }
    }
    while i < s.len()
        invariant
            i <= s.len(),
            goal == string_read(s@),
            goal == after(out@, i as nat, string_read(s@.subrange(i as int, s.len() as int))),
        decreases s.len() - i,
    {
        let ghost rest = s@.subrange(i as int, s.len() as int);
        let ghost read = out@;
        if s[i] == '"' {
            assert(out@ + Seq::<char>::empty() =~= out@);
            return Some((out, i + 1));
        }
        if s[i] == '\\' {
            if i + 1 >= s.len() {
                return None;
            }
            match read_escape(s[i + 1]) {
                Some(c) => {
                    out.push(c);
                    assert(rest.subrange(2, rest.len() as int) =~= s@.subrange(
                        i + 2,
                        s.len() as int,
                    ));
                    i = i + 2;
                    proof {
                        if let Some((u, m)) = string_read(s@.subrange(i as int, s.len() as int)) {
                            assert(read + (seq![c] + u) =~= out@ + u);
                        }
                    }
                },
                None => {
                    return None;
                },
            }
        } else {
            let c = s[i];
            out.push(c);
            assert(rest.drop_first() =~= s@.subrange(i + 1, s.len() as int));
            i = i + 1;
            proof {
                if let Some((u, m)) = string_read(s@.subrange(i as int, s.len() as int)) {
                    assert(read + (seq![c] + u) =~= out@ + u);
                }
            }
        }
    }
    None
}

/// How many characters the word at the front has.
fn read_word_len(s: &[char]) -> (r: usize)
    ensures
        r == word_len(s@),
        r <= s.len(),
{
    let mut i: usize = 0;
    assert(s@.subrange(0, s.len() as int) =~= s@);
    while i < s.len() && !check_blank(s[i]) && read_mark(s[i]).is_none() && s[i] != '"'
        invariant
            i <= s.len(),
            word_len(s@) == i + word_len(s@.subrange(i as int, s.len() as int)),
        decreases s.len() - i,
    {
        assert(s@.subrange(i as int, s.len() as int).drop_first() =~= s@.subrange(
            i + 1,
            s.len() as int,
        ));
        i = i + 1;
    }
    i
}

/// Read tokens.
fn read_tokens(s: &[char]) -> (r: Option<Vec<Token>>)
    ensures
        match r {
            Some(ts) => tokens(s@) == Some(token_views(ts@)),
            None => tokens(s@) is None,
        },
{
    let mut out: Vec<Token> = Vec::new();
    let mut i: usize = 0;
    let ghost goal = tokens(s@);
    proof {
        assert(s@.subrange(0, s.len() as int) =~= s@);
        assert(token_views(out@) =~= Seq::<TokenView>::empty());
        if let Some(more) = goal {
            assert(Seq::<TokenView>::empty() + more =~= more);
        }
    }
    while i < s.len()
        invariant
            i <= s.len(),
            goal == tokens(s@),
            goal == behind(token_views(out@), tokens(s@.subrange(i as int, s.len() as int))),
        decreases s.len() - i,
    {
        let ghost rest = s@.subrange(i as int, s.len() as int);
        let ghost read = token_views(out@);
        if check_blank(s[i]) {
            assert(rest.drop_first() =~= s@.subrange(i + 1, s.len() as int));
            i = i + 1;
            continue;
        }
        if let Some(kind) = read_mark(s[i]) {
            out.push(Token { kind, text: Vec::new() });
            proof {
                let t = TokenView { kind, text: Seq::empty() };
                assert(rest.drop_first() =~= s@.subrange(i + 1, s.len() as int));
                assert(token_views(out@) =~= read.push(t));
                if let Some(more) = tokens(rest.drop_first()) {
                    assert(read + (seq![t] + more) =~= token_views(out@) + more);
                }
            }
            i = i + 1;
            continue;
        }
        let tail = slice_subrange(s, i, s.len());
        if s[i] == '"' {
            let body = slice_subrange(tail, 1, tail.len());
            assert(body@ =~= rest.drop_first());
            match read_string(body) {
                Some((text, n)) => {
                    let ghost t = TokenView { kind: TokenKind::Text, text: text@ };
                    out.push(Token { kind: TokenKind::Text, text });
                    proof {
                        let next = rest.subrange(n + 1, rest.len() as int);
                        assert(next =~= s@.subrange(i + n + 1, s.len() as int));
                        assert(token_views(out@) =~= read.push(t));
                        if let Some(more) = tokens(next) {
                            assert(read + (seq![t] + more) =~= token_views(out@) + more);
                        }
                    }
                    i = i + n + 1;
                },
                None => {
                    return None;
                },
            }
            continue;
        }
        let n: usize = read_word_len(tail);
        let text = vstd::slice::slice_to_vec(slice_subrange(tail, 0, n));
        let ghost t = TokenView { kind: TokenKind::Word, text: text@ };
        out.push(Token { kind: TokenKind::Word, text });
        proof {
            assert(is_word(rest[0]));
            let next = rest.subrange(n as int, rest.len() as int);
            assert(next =~= s@.subrange(i + n, s.len() as int));
            assert(token_views(out@) =~= read.push(t));
            if let Some(more) = tokens(next) {
                assert(read + (seq![t] + more) =~= token_views(out@) + more);
            }
        }
        i = i + n;
    }
    assert(s@.subrange(i as int, s.len() as int) =~= Seq::<char>::empty());
    assert(token_views(out@) + Seq::<TokenView>::empty() =~= token_views(out@));
    Some(out)
}

/// Where the value at token `i` ends.
fn find_value_end(ts: &[Token], i: usize) -> (r: Option<usize>)
    ensures
        match r {
            Some(e) => value_end(token_views(ts@), i as nat) == Some(e as nat) && i < e
                <= ts.len(),
            None => value_end(token_views(ts@), i as nat) is None,
        },
{
    if i >= ts.len() {
        return None;
    }
    let ghost tv = token_views(ts@);
    match ts[i].kind {
        TokenKind::Open | TokenKind::ListOpen => {},
        TokenKind::Text | TokenKind::Word => {
            return Some(i + 1);
        },
        _ => {
            return None;
        },
    }
    let mut k: usize = i + 1;
    let mut depth: usize = 1;
    while k < ts.len()
        invariant
            i < k <= ts.len(),
            1 <= depth <= k - i,
            tv == token_views(ts@),
            value_end(tv, i as nat) == close_of(tv, k as nat, depth as nat),
        decreases ts.len() - k,
    {
        match ts[k].kind {
            TokenKind::Open | TokenKind::ListOpen => {
                depth = depth + 1;
            },
            TokenKind::Close | TokenKind::ListClose => {
                if depth == 1 {
                    return Some(k + 1);
                }
                depth = depth - 1;
            },
            _ => {},
        }
        k = k + 1;
    }
    None
}

/// Whether two runs of characters are the same.
fn same_chars(a: &[char], b: &[char]) -> (r: bool)
    ensures
        r == (a@ == b@),
{
    if a.len() != b.len() {
        return false;
    }
    let mut i: usize = 0;
    while i < a.len()
        invariant
            i <= a.len(),
            a.len() == b.len(),
            forall|k: int| 0 <= k < i ==> a@[k] == b@[k],
        decreases a.len() - i,
    {
        if a[i] != b[i] {
            return false;
        }
        i = i + 1;
    }
    assert(a@ =~= b@);
    true
}

/// Find a member of the object at token `i` by name and kind of value.
fn find_field(ts: &[Token], i: usize, key: &str, kind: TokenKind) -> (r: Option<usize>)
    ensures
        match r {
            Some(v) => field(token_views(ts@), i as nat, key@, kind) == Some(v as nat) && i < v
                < ts.len(),
            None => field(token_views(ts@), i as nat, key@, kind) is None,
        },
{
    if i >= ts.len() || ts[i].kind != TokenKind::Open {
        return None;
    }
    let ghost tv = token_views(ts@);
    let name = chars_of(key);
    let mut k: usize = i + 1;
    loop
        invariant
            i < k <= ts.len(),
            tv == token_views(ts@),
            name@ == key@,
            tv[i as int].kind == TokenKind::Open,
            member(tv, (i + 1) as nat, key@) == member(tv, k as nat, key@),
        decreases ts.len() - k,
    {
        if ts.len() - k < 3 || ts[k].kind != TokenKind::Text || ts[k + 1].kind
            != TokenKind::Colon {
            return None;
        }
        if same_chars(ts[k].text.as_slice(), name.as_slice()) {
            assert(tv[(k + 2) as int].kind == ts@[k + 2].kind);
            if ts[k + 2].kind == kind {
                return Some(k + 2);
            }
            return None;
        }
        match find_value_end(ts, k + 2) {
            Some(e) => {
                if e >= ts.len() || ts[e].kind != TokenKind::Comma {
                    return None;
                }
                k = e + 1;
            },
            None => {
                return None;
            },
        }
    }
}

/// Read the column that the object at token `i` declares.
fn read_column(ts: &[Token], i: usize) -> (r: Option<(String, DataType, u32)>)
    ensures
        match r {
            Some(c) => column_at(token_views(ts@), i as nat) == Some((c.0@, c.1, c.2)),
            None => column_at(token_views(ts@), i as nat) is None,
        },
{
    let n: usize = match find_field(ts, i, "name", TokenKind::Text) {
        Some(n) => n,
        None => {
            return None;
        },
    };
    let t: usize = match find_field(ts, i, "type", TokenKind::Text) {
        Some(t) => t,
        None => {
            return None;
        },
    };
    assert(token_views(ts@)[t as int].text == ts@[t as int].text@);
    assert(token_views(ts@)[n as int].text == ts@[n as int].text@);
    match parse_type(ts[t].text.as_slice()) {
        Some((ty, len)) => Some((text_of(ts[n].text.as_slice()), ty, len)),
        None => None,
    }
}

/// Read the columns that the list elements from token `from` on declare.
fn read_columns(ts: &[Token], from: usize) -> (r: Option<Vec<(String, DataType, u32)>>)
    requires
        from <= ts.len(),
    ensures
        match r {
            Some(v) => columns_at(token_views(ts@), from as nat) == Some(triples(v@)),
            None => columns_at(token_views(ts@), from as nat) is None,
        },
{
    let ghost tv = token_views(ts@);
    let ghost goal = columns_at(tv, from as nat);
    let mut out: Vec<(String, DataType, u32)> = Vec::new();
    let mut i: usize = from;
    proof {
        assert(triples(out@) =~= Seq::empty());
        if let Some(more) = goal {
            assert(Seq::empty() + more =~= more);
        }
    }
    while i < ts.len()
        invariant
            from <= i <= ts.len(),
            tv == token_views(ts@),
            goal == columns_at(tv, from as nat),
            match columns_at(tv, i as nat) {
                Some(more) => goal == Some(triples(out@) + more),
                None => goal is None,
            },
        decreases ts.len() - i,
    {
        let ghost read = triples(out@);
        if ts[i].kind == TokenKind::ListClose {
            assert(read + Seq::empty() =~= read);
            return Some(out);
        }
        let c = match read_column(ts, i) {
            Some(c) => c,
            None => {
                return None;
            },
        };
        let e: usize = match find_value_end(ts, i) {
            Some(e) => e,
            None => {
                return None;
            },
        };
        if e >= ts.len() {
            return None;
        }
        let ghost cv = (c.0@, c.1, c.2);
        out.push(c);
        assert(triples(out@) =~= read.push(cv));
        assert(triples(out@) =~= read + seq![cv]);
        assert(tv[e as int].kind == ts@[e as int].kind);
        if ts[e].kind == TokenKind::ListClose {
            return Some(out);
        }
        if ts[e].kind != TokenKind::Comma {
            return None;
        }
        proof {
            if let Some(more) = columns_at(tv, (e + 1) as nat) {
                assert(read + (seq![cv] + more) =~= triples(out@) + more);
            }
        }
        i = e + 1;
    }
    None
}

/// Read the schema that tokens declare.
fn read_schema(ts: &[Token]) -> (r: Option<Schema>)
    ensures
        match r {
            Some(s) => schema_at(token_views(ts@)) == Some(s@),
            None => schema_at(token_views(ts@)) is None,
        },
{
    let n = find_field(ts, 0, "name", TokenKind::Text);
    let g = find_field(ts, 0, "group", TokenKind::Word);
    let i = find_field(ts, 0, "item", TokenKind::Word);
    let e = find_field(ts, 0, "entries", TokenKind::ListOpen);
    match (n, g, i, e) {
        (Some(n), Some(g), Some(i), Some(e)) => {
            let ghost tv = token_views(ts@);
            assert(tv[n as int].text == ts@[n as int].text@);
            assert(tv[g as int].text == ts@[g as int].text@);
            assert(tv[i as int].text == ts@[i as int].text@);
            let group = read_uint(ts[g].text.as_slice(), 65535);
            let item = read_uint(ts[i].text.as_slice(), 255);
            let cols = read_columns(ts, e + 1);
            match (group, item, cols) {
                (Some(group), Some(item), Some(cols)) => Some(
                    Schema::from_columns(
                        text_of(ts[n].text.as_slice()).as_str(),
                        group as u16,
                        item as u8,
                        cols,
                    ),
                ),
                _ => None,
            }
        },
        _ => None,
    }
}

impl Schema {
    /// Read a schema from its JSON form.
    pub fn parse_json(text: &str) -> (r: Result<Self>)
        ensures
            match r {
                Ok(s) => schema_from_json(text@) == Some(s@),
                Err(e) => schema_from_json(text@) is None && e is SchemaParse,
            },
    {
        let s = match read_tokens(chars_of(text).as_slice()) {
            Some(ts) => read_schema(ts.as_slice()),
            None => None,
        };
        match s {
            Some(s) => Ok(s),
            None => {
                let mut msg = owned("malformed schema JSON: ");
                msg.append(text);
                Err(HipoError::SchemaParse(msg))
            },
        }
    }
}

} // verus!
