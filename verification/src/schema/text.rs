//! The text forms of schemas and dictionaries.
//!
//! A schema is two blocks, `{name/group/item}{column/T,column/T#N}`; a dictionary is its
//! schemas, one per line.

use vstd::prelude::*;
use vstd::slice::slice_subrange;
use crate::error::{HipoError, Result};
use crate::schema::dict::Dict;
#[allow(unused_imports)]
use crate::schema::dict::{full_text, law_add_keeps_wf, DictView};
use crate::schema::types::{DataType, Schema, SchemaEntry};
#[allow(unused_imports)]
use crate::schema::types::{
    bare_entries, declared, lemma_widths_same, schema_of, triples, widths, EntryView, SchemaView,
};
use crate::text::{
    chars_of, check_space, find_char, owned, push_dec, push_text, read_uint, split_chars, text_of,
    trim_chars,
};
#[allow(unused_imports)]
use crate::text::{
    dec, index_of, is_space, joined, lacks, law_dec_round_trip, law_split_joined,
    law_trimmed_clean, law_uint_round_trip, lemma_dec_lacks, lemma_index_is, lemma_index_of,
    lemma_joined_push, split, texts, trimmed, uint_value,
};

verus! {

/// The text of a column's type: a letter, and the length of an array column.
pub open spec fn type_text(ty: DataType, length: u32) -> Seq<char> {
    if length > 1 {
        seq![ty.spec_letter(), '#'] + dec(length as nat)
    } else {
        seq![ty.spec_letter()]
    }
}

/// The text of a column.
pub open spec fn column_text(e: EntryView) -> Seq<char> {
    e.name + seq!['/'] + type_text(e.ty, e.length)
}

/// The texts of columns.
pub open spec fn column_texts(entries: Seq<EntryView>) -> Seq<Seq<char>> {
    entries.map_values(|e: EntryView| column_text(e))
}

/// The text of a schema's name and id.
pub open spec fn head_text(s: SchemaView) -> Seq<char> {
    s.name + seq!['/'] + dec(s.group as nat) + seq!['/'] + dec(s.item as nat)
}

/// The text of a schema.
pub open spec fn schema_text(s: SchemaView) -> Seq<char> {
    seq!['{'] + head_text(s) + seq!['}', '{'] + joined(column_texts(s.entries), ',') + seq!['}']
}

/// The text of a dictionary.
pub open spec fn dict_text(d: DictView) -> Seq<char> {
    joined(d.schemas.map_values(|s: SchemaView| schema_text(s)), '\n')
}

/// The type and length that a text stands for.
pub open spec fn type_parsed(t: Seq<char>) -> Option<(DataType, u32)> {
    let parts = split(t, '#');
    let letter = trimmed(parts[0]);
    if letter.len() != 1 || DataType::of_letter(letter[0]) is None {
        None
    } else {
        let ty = DataType::of_letter(letter[0])->0;
        if parts.len() == 1 {
            Some((ty, 1u32))
        } else if parts.len() == 2 {
            match uint_value(trimmed(parts[1]), u32::MAX as nat) {
                Some(n) => Some((ty, n as u32)),
                None => None,
            }
        } else {
            None
        }
    }
}

/// The column that a text declares: a name, a slash, and a type.
pub open spec fn column_parsed(t: Seq<char>) -> Option<(Seq<char>, DataType, u32)> {
    let f = split(t, '/');
    if f.len() != 2 {
        None
    } else {
        match type_parsed(f[1]) {
            Some((ty, n)) => Some((trimmed(f[0]), ty, n)),
            None => None,
        }
    }
}

/// Every character is white space.
pub open spec fn all_space(t: Seq<char>) -> bool {
    forall|i: int| 0 <= i < t.len() ==> is_space(#[trigger] t[i])
}

/// The columns that a block declares, separated by commas; none where it is blank.
pub open spec fn columns_parsed(t: Seq<char>) -> Option<Seq<(Seq<char>, DataType, u32)>> {
    let parts = split(t, ',');
    if all_space(t) {
        Some(Seq::empty())
    } else if exists|i: int|
        0 <= i < parts.len() && column_parsed(#[trigger] parts[i]) is None {
        None
    } else {
        Some(Seq::new(parts.len(), |i: int| column_parsed(parts[i])->0))
    }
}

/// The name and id that a block declares.
pub open spec fn head_parsed(t: Seq<char>) -> Option<(Seq<char>, u16, u8)> {
    let f = split(t, '/');
    if f.len() != 3 {
        None
    } else {
        match (uint_value(trimmed(f[1]), 65535), uint_value(trimmed(f[2]), 255)) {
            (Some(g), Some(i)) => Some((trimmed(f[0]), g as u16, i as u8)),
            _ => None,
        }
    }
}

/// Where the two blocks at the front of `t` end: the length of `{head}`, and the length of
/// `{head}{body}`.
pub open spec fn blocks_end(t: Seq<char>) -> Option<(nat, nat)> {
    let h = index_of(t, '}');
    if t.len() == 0 || t[0] != '{' || h >= t.len() {
        None
    } else if h + 1 >= t.len() || t[(h + 1) as int] != '{' {
        None
    } else {
        let rest = t.subrange((h + 1) as int, t.len() as int);
        let b = index_of(rest, '}');
        if b >= rest.len() {
            None
        } else {
            Some((h + 1, h + 1 + b + 1))
        }
    }
}

/// The schema that a text declares; nothing where it is malformed.
pub open spec fn schema_parsed(text: Seq<char>) -> Option<SchemaView> {
    let t = trimmed(text);
    match blocks_end(t) {
        None => None,
        Some((h, end)) => if end != t.len() {
            None
        } else {
            match (
                head_parsed(t.subrange(1, h - 1)),
                columns_parsed(t.subrange((h + 1) as int, end - 1)),
            ) {
                (Some((name, group, item)), Some(cols)) => Some(
                    schema_of(name, group, item, cols),
                ),
                _ => None,
            }
        },
    }
}

/// ASCII white space.
pub open spec fn is_blank(c: char) -> bool {
    c == ' ' || c == '\t' || c == '\n' || c == '\r' || c == '\u{c}'
}

/// `s` without the ASCII white space in front.
pub open spec fn skip_blank(s: Seq<char>) -> Seq<char>
    decreases s.len(),
{
    if s.len() > 0 && is_blank(s[0]) {
        skip_blank(s.drop_first())
    } else {
        s
    }
}

/// Skipping shortens.
pub proof fn lemma_skip_blank_len(s: Seq<char>)
    ensures
        skip_blank(s).len() <= s.len(),
    decreases s.len(),
{
    if s.len() > 0 && is_blank(s[0]) {
        lemma_skip_blank_len(s.drop_first());
    }
}

/// The dictionary `d` with the schemas that a text declares added in order; nothing where the
/// text is malformed or there is no id left.
pub open spec fn dict_extended(text: Seq<char>, d: DictView) -> Option<DictView>
    decreases text.len(),
{
    let t = skip_blank(text);
    if t.len() == 0 {
        Some(d)
    } else {
        match blocks_end(t) {
            None => None,
            Some((_, end)) => match schema_parsed(t.subrange(0, end as int)) {
                None => None,
                Some(s) => if d.admits(s.name) && 0 < end <= t.len() && t.len() <= text.len() {
                    dict_extended(t.subrange(end as int, t.len() as int), d.with(s))
                } else {
                    None
                },
            },
        }
    }
}

/// What is said of a text that declares no dictionary: of its first block that is none, of its
/// first block that declares no schema, or of the first schema for which there is no id left.
pub open spec fn dict_fault(text: Seq<char>, d: DictView) -> Seq<char>
    decreases text.len(),
{
    let t = skip_blank(text);
    match blocks_end(t) {
        None => "malformed dictionary text: expected `{name/group/item}{columns}`"@,
        Some((_, end)) => {
            let one = t.subrange(0, end as int);
            match schema_parsed(one) {
                None => "malformed schema text: "@ + one,
                Some(s) => if d.admits(s.name) && 0 < end <= t.len() && t.len() <= text.len() {
                    dict_fault(t.subrange(end as int, t.len() as int), d.with(s))
                } else {
                    full_text(s.name)
                },
            }
        },
    }
}

/// Where the two blocks at the front end.
fn find_blocks(t: &[char]) -> (r: Option<(usize, usize)>)
    ensures
        match r {
            Some((h, end)) => blocks_end(t@) == Some((h as nat, end as nat)) && 2 <= h < end
                <= t.len(),
            None => blocks_end(t@) is None,
        },
{
    if t.len() == 0 || t[0] != '{' {
        return None;
    }
    let h: usize = find_char(t, '}');
    proof {
        lemma_index_of(t@, '}');
        assert(t@[0] == '{');
    }
    if h >= t.len() || h + 1 >= t.len() || t[h + 1] != '{' {
        return None;
    }
    let rest = slice_subrange(t, h + 1, t.len());
    let b: usize = find_char(rest, '}');
    if b >= rest.len() {
        return None;
    }
    Some((h + 1, h + 1 + b + 1))
}

/// Read the type of a column.
pub(crate) fn parse_type(t: &[char]) -> (r: Option<(DataType, u32)>)
    ensures
        r == type_parsed(t@),
{
    let parts = split_chars(t, '#');
    assert(texts(parts@)[0] == parts@[0]@);
    let letter = trim_chars(parts[0].as_slice());
    if letter.len() != 1 {
        return None;
    }
    let ty = match DataType::from_letter(letter[0]) {
        Some(ty) => ty,
        None => {
            return None;
        },
    };
    if parts.len() == 1 {
        return Some((ty, 1));
    }
    if parts.len() != 2 {
        return None;
    }
    assert(texts(parts@)[1] == parts@[1]@);
    match read_uint(trim_chars(parts[1].as_slice()), u32::MAX as u64) {
        Some(n) => Some((ty, n as u32)),
        None => None,
    }
}

/// Read a column.
fn parse_column(t: &[char]) -> (r: Option<(String, DataType, u32)>)
    ensures
        match r {
            Some((name, ty, n)) => column_parsed(t@) == Some((name@, ty, n)),
            None => column_parsed(t@) is None,
        },
{
    let f = split_chars(t, '/');
    if f.len() != 2 {
        return None;
    }
    assert(texts(f@)[0] == f@[0]@ && texts(f@)[1] == f@[1]@);
    match parse_type(f[1].as_slice()) {
        Some((ty, n)) => Some((text_of(trim_chars(f[0].as_slice())), ty, n)),
        None => None,
    }
}

/// Whether every character is white space.
fn check_all_space(t: &[char]) -> (r: bool)
    ensures
        r == all_space(t@),
{
    let mut i: usize = 0;
    while i < t.len()
        invariant
            i <= t.len(),
            forall|k: int| 0 <= k < i ==> is_space(#[trigger] t@[k]),
        decreases t.len() - i,
    {
        if !check_space(t[i]) {
            assert(!is_space(t@[i as int]));
            return false;
        }
        i = i + 1;
    }
    true
}

/// Read the columns of a block.
fn parse_columns(t: &[char]) -> (r: Option<Vec<(String, DataType, u32)>>)
    ensures
        match r {
            Some(v) => columns_parsed(t@) == Some(triples(v@)),
            None => columns_parsed(t@) is None,
        },
{
    let mut out: Vec<(String, DataType, u32)> = Vec::new();
    if check_all_space(t) {
        assert(triples(out@) =~= Seq::empty());
        return Some(out);
    }
    let parts = split_chars(t, ',');
    let ghost p = split(t@, ',');
    let mut i: usize = 0;
    while i < parts.len()
        invariant
            i <= parts.len(),
            texts(parts@) == p,
            p == split(t@, ','),
            !all_space(t@),
            out.len() == i,
            forall|k: int|
                0 <= k < i ==> column_parsed(#[trigger] p[k]) == Some(
                    (out@[k].0@, out@[k].1, out@[k].2),
                ),
        decreases parts.len() - i,
    {
        assert(p[i as int] == parts@[i as int]@);
        match parse_column(parts[i].as_slice()) {
            Some(c) => {
                out.push(c);
            },
            None => {
                assert(column_parsed(p[i as int]) is None);
                return None;
            },
        }
        i = i + 1;
    }
    assert(p.len() == parts.len());
    assert(triples(out@) =~= Seq::new(p.len(), |k: int| column_parsed(p[k])->0));
    Some(out)
}

/// Read the name and id of a block.
fn parse_head(t: &[char]) -> (r: Option<(String, u16, u8)>)
    ensures
        match r {
            Some((name, g, i)) => head_parsed(t@) == Some((name@, g, i)),
            None => head_parsed(t@) is None,
        },
{
    let f = split_chars(t, '/');
    if f.len() != 3 {
        return None;
    }
    assert(texts(f@)[0] == f@[0]@ && texts(f@)[1] == f@[1]@ && texts(f@)[2] == f@[2]@);
    match (
        read_uint(trim_chars(f[1].as_slice()), 65535),
        read_uint(trim_chars(f[2].as_slice()), 255),
    ) {
        (Some(g), Some(i)) => Some((text_of(trim_chars(f[0].as_slice())), g as u16, i as u8)),
        _ => None,
    }
}

/// Read the schema that characters declare.
fn parse_schema(text: &[char]) -> (r: Option<Schema>)
    ensures
        match r {
            Some(s) => schema_parsed(text@) == Some(s@),
            None => schema_parsed(text@) is None,
        },
{
    let t = trim_chars(text);
    let (h, end): (usize, usize) = match find_blocks(t) {
        Some(b) => b,
        None => {
            return None;
        },
    };
    if end != t.len() {
        return None;
    }
    let head = parse_head(slice_subrange(t, 1, h - 1));
    let cols = parse_columns(slice_subrange(t, h + 1, end - 1));
    match (head, cols) {
        (Some((name, group, item)), Some(cols)) => Some(
            Schema::from_columns(name.as_str(), group, item, cols),
        ),
        _ => None,
    }
}

/// Append the text of a column.
fn push_column(out: &mut Vec<char>, e: &SchemaEntry)
    ensures
        final(out)@ == old(out)@ + column_text(e@),
{
    push_text(out, e.name.as_str());
    out.push('/');
    out.push(e.ty.letter());
    if e.length > 1 {
        out.push('#');
        push_dec(out, e.length as u64);
    }
    assert(out@ =~= old(out)@ + column_text(e@));
}

/// The characters of a schema's text.
fn schema_chars(s: &Schema) -> (r: Vec<char>)
    ensures
        r@ == schema_text(s@),
{
    let mut out: Vec<char> = Vec::new();
    out.push('{');
    push_text(&mut out, s.name());
    out.push('/');
    push_dec(&mut out, s.group() as u64);
    out.push('/');
    push_dec(&mut out, s.item() as u64);
    out.push('}');
    out.push('{');
    let ghost head = out@;
    assert(head =~= seq!['{'] + head_text(s@) + seq!['}', '{']);
    let ghost cols = column_texts(s@.entries);
    let entries = s.entries();
    let mut i: usize = 0;
    assert(cols.subrange(0, 0) =~= Seq::<Seq<char>>::empty());
    assert(out@ =~= head + joined(cols.subrange(0, 0), ','));
    while i < entries.len()
        invariant
            i <= entries.len(),
            entries.len() == s@.entries.len(),
            forall|k: int| 0 <= k < entries.len() ==> (#[trigger] entries@[k])@ == s@.entries[k],
            cols == column_texts(s@.entries),
            out@ == head + joined(cols.subrange(0, i as int), ','),
        decreases entries.len() - i,
    {
        proof {
            assert(cols.subrange(0, i + 1) =~= cols.subrange(0, i as int).push(cols[i as int]));
            lemma_joined_push(cols.subrange(0, i as int), cols[i as int], ',');
            assert(cols[i as int] == column_text(entries@[i as int]@));
        }
        if i > 0 {
            out.push(',');
        }
        push_column(&mut out, &entries[i]);
        i = i + 1;
        assert(out@ =~= head + joined(cols.subrange(0, i as int), ','));
    }
    assert(cols.subrange(0, i as int) =~= cols);
    out.push('}');
    assert(out@ =~= schema_text(s@));
    out
}

impl Schema {
    /// The text form of the schema.
    pub fn to_text(&self) -> (r: String)
        ensures
            r@ == schema_text(self@),
    {
        text_of(schema_chars(self).as_slice())
    }

    /// Read a schema from its text form. Fields may have white space around them.
    pub fn parse_text(text: &str) -> (r: Result<Self>)
        ensures
            match r {
                Ok(s) => schema_parsed(text@) == Some(s@),
                Err(e) => schema_parsed(text@) is None && (e matches HipoError::SchemaParse(msg)
                    && msg@ == "malformed schema text: "@ + text@),
            },
    {
        match parse_schema(chars_of(text).as_slice()) {
            Some(s) => Ok(s),
            None => {
                let mut msg = owned("malformed schema text: ");
                msg.append(text);
                Err(HipoError::SchemaParse(msg))
            },
        }
    }
}

impl Dict {
    /// The text form of every schema, one per line.
    pub fn to_text(&self) -> (r: String)
        ensures
            r@ == dict_text(self@),
    {
        let ghost all = self@.schemas.map_values(|s: SchemaView| schema_text(s));
        let schemas = self.iter();
        let mut out: Vec<char> = Vec::new();
        let mut i: usize = 0;
        assert(all.subrange(0, 0) =~= Seq::<Seq<char>>::empty());
        while i < schemas.len()
            invariant
                i <= schemas.len(),
                schemas.len() == self@.schemas.len(),
                forall|k: int|
                    0 <= k < schemas.len() ==> (#[trigger] schemas@[k])@ == self@.schemas[k],
                all == self@.schemas.map_values(|s: SchemaView| schema_text(s)),
                out@ == joined(all.subrange(0, i as int), '\n'),
            decreases schemas.len() - i,
        {
            proof {
                assert(all.subrange(0, i + 1) =~= all.subrange(0, i as int).push(all[i as int]));
                lemma_joined_push(all.subrange(0, i as int), all[i as int], '\n');
                assert(all[i as int] == schema_text(schemas@[i as int]@));
            }
            if i > 0 {
                out.push('\n');
            }
            let mut t = schema_chars(&schemas[i]);
            out.append(&mut t);
            i = i + 1;
            assert(out@ =~= joined(all.subrange(0, i as int), '\n'));
        }
        assert(all.subrange(0, i as int) =~= all);
        text_of(out.as_slice())
    }

    /// Read a dictionary from its text form: schema texts, with white space between them. A
    /// text that names more schemas than there are ids is refused.
    pub fn parse_text(payload: &str) -> (r: Result<Self>)
        ensures
            match r {
                Ok(d) => dict_extended(payload@, DictView::none()) == Some(d@),
                Err(e) => dict_extended(payload@, DictView::none()) is None && (
                e matches HipoError::SchemaParse(msg) && msg@ == dict_fault(
                    payload@,
                    DictView::none(),
                )),
            },
    {
        let chars = chars_of(payload);
        let ghost goal = dict_extended(payload@, DictView::none());
        let ghost fault = dict_fault(payload@, DictView::none());
        let mut d = Dict::new();
        let mut at: usize = 0;
        assert(chars@.subrange(0, chars.len() as int) =~= payload@);
        loop
            invariant
                at <= chars.len(),
                chars@ == payload@,
                goal == dict_extended(payload@, DictView::none()),
                fault == dict_fault(payload@, DictView::none()),
                goal == dict_extended(chars@.subrange(at as int, chars.len() as int), d@),
                goal is None ==> fault == dict_fault(
                    chars@.subrange(at as int, chars.len() as int),
                    d@,
                ),
            decreases chars.len() - at,
        {
            let ghost rest = chars@.subrange(at as int, chars.len() as int);
            let mut i: usize = at;
            assert(chars@.subrange(i as int, chars.len() as int) =~= rest);
            while i < chars.len() && (chars[i] == ' ' || chars[i] == '\t' || chars[i] == '\n'
                || chars[i] == '\r' || chars[i] == '\u{c}')
                invariant
                    at <= i <= chars.len(),
                    skip_blank(chars@.subrange(i as int, chars.len() as int)) == skip_blank(rest),
                decreases chars.len() - i,
            {
                assert(chars@.subrange(i as int, chars.len() as int).drop_first()
                    =~= chars@.subrange(i + 1, chars.len() as int));
                i = i + 1;
            }
            let ghost t = chars@.subrange(i as int, chars.len() as int);
            assert(skip_blank(rest) == t);
            if i == chars.len() {
                return Ok(d);
            }
            let tail = slice_subrange(chars.as_slice(), i, chars.len());
            let end: usize = match find_blocks(tail) {
                Some((_, end)) => end,
                None => {
                    let msg = owned(
                        "malformed dictionary text: expected `{name/group/item}{columns}`",
                    );
                    return Err(HipoError::SchemaParse(msg));
                },
            };
            let one = slice_subrange(tail, 0, end);
            match parse_schema(one) {
                Some(s) => {
                    match d.try_add(s) {
                        Ok(_) => {},
                        Err(e) => {
                            return Err(e);
                        },
                    }
                },
                None => {
                    let mut msg = owned("malformed schema text: ");
                    msg.append(text_of(one).as_str());
                    assert(one@ =~= t.subrange(0, end as int));
                    return Err(HipoError::SchemaParse(msg));
                },
            }
            assert(t.subrange(end as int, t.len() as int) =~= chars@.subrange(
                i + end,
                chars.len() as int,
            ));
            at = i + end;
        }
    }
}

/// A name that schema text can hold: no slash, comma or brace, and no white space around it.
pub open spec fn clean_name(n: Seq<char>) -> bool {
    &&& lacks(n, '/')
    &&& lacks(n, ',')
    &&& lacks(n, '{')
    &&& lacks(n, '}')
    &&& n.len() > 0 ==> !is_space(n[0]) && !is_space(n.last())
}

/// A schema whose names schema text can hold.
pub open spec fn clean_schema(s: SchemaView) -> bool {
    &&& clean_name(s.name)
    &&& forall|i: int| 0 <= i < s.entries.len() ==> clean_name((#[trigger] s.entries[i]).name)
}

/// A character that is no letter, digit or number sign is not in a type's text.
proof fn lemma_type_text_lacks(ty: DataType, n: u32, c: char)
    requires
        !('A' <= c <= 'Z'),
        !crate::text::is_digit(c),
        c != '#',
    ensures
        lacks(type_text(ty, n), c),
{
    lemma_dec_lacks(n as nat, c);
    let t = type_text(ty, n);
    assert forall|i: int| 0 <= i < t.len() implies #[trigger] t[i] != c by {
        if i >= 2 {
            assert(t[i] == dec(n as nat)[i - 2]);
        }
    }
}

/// The type and length of a column are read back.
proof fn lemma_type_round_trip(ty: DataType, n: u32)
    requires
        n >= 1,
    ensures
        type_parsed(type_text(ty, n)) == Some((ty, n)),
{
    let t = type_text(ty, n);
    let letter = seq![ty.spec_letter()];
    law_trimmed_clean(letter);
    assert(lacks(letter, '#'));
    if n > 1 {
        let d = dec(n as nat);
        law_dec_round_trip(n as nat);
        lemma_dec_lacks(n as nat, '#');
        let parts = seq![letter, d];
        assert(parts.drop_first() =~= seq![d]);
        assert(joined(parts.drop_first(), '#') == d);
        assert(joined(parts, '#') =~= t);
        law_split_joined(parts, '#');
        assert(crate::text::is_digit(d[0]) && crate::text::is_digit(d.last()));
        law_trimmed_clean(d);
        law_uint_round_trip(n as nat, u32::MAX as nat);
    } else {
        let parts = seq![letter];
        assert(joined(parts, '#') =~= t);
        law_split_joined(parts, '#');
    }
}

/// A column is read back.
proof fn lemma_column_round_trip(e: EntryView)
    requires
        clean_name(e.name),
        e.length >= 1,
    ensures
        column_parsed(column_text(e)) == Some((e.name, e.ty, e.length)),
        lacks(column_text(e), ','),
        lacks(column_text(e), '}'),
        !all_space(column_text(e)),
{
    let ty = type_text(e.ty, e.length);
    let t = column_text(e);
    lemma_type_text_lacks(e.ty, e.length, '/');
    lemma_type_text_lacks(e.ty, e.length, ',');
    lemma_type_text_lacks(e.ty, e.length, '}');
    let parts = seq![e.name, ty];
    assert(parts.drop_first() =~= seq![ty]);
    assert(joined(parts.drop_first(), '/') == ty);
    assert(joined(parts, '/') =~= t);
    law_split_joined(parts, '/');
    law_trimmed_clean(e.name);
    lemma_type_round_trip(e.ty, e.length);
    assert forall|c: char| (c == ',' || c == '}') implies #[trigger] lacks(t, c) by {
        assert forall|i: int| 0 <= i < t.len() implies #[trigger] t[i] != c by {
            if i < e.name.len() {
                assert(t[i] == e.name[i]);
            } else if i > e.name.len() {
                assert(t[i] == ty[i - e.name.len() - 1]);
            }
        }
    }
    assert(t[e.name.len() as int] == '/');
    assert(!is_space(t[e.name.len() as int]));
}

/// A laid-out schema is made of its columns alone.
proof fn lemma_schema_of_columns(s: SchemaView)
    requires
        s.laid_out(),
    ensures
        schema_of(
            s.name,
            s.group,
            s.item,
            s.entries.map_values(|e: EntryView| (e.name, e.ty, e.length)),
        ) =~= s,
{
    let cols = s.entries.map_values(|e: EntryView| (e.name, e.ty, e.length));
    let bare = bare_entries(cols);
    assert forall|i: nat| i <= bare.len() implies #[trigger] widths(bare, i) == widths(
        s.entries,
        i,
    ) by {
        lemma_widths_same(bare, s.entries, i);
    }
    assert(declared(cols) =~= s.entries);
}

/// Joined texts lack what the texts and the separator lack.
proof fn lemma_joined_lacks(parts: Seq<Seq<char>>, sep: char, c: char)
    requires
        c != sep,
        forall|i: int| 0 <= i < parts.len() ==> lacks(#[trigger] parts[i], c),
    ensures
        lacks(joined(parts, sep), c),
    decreases parts.len(),
{
    if parts.len() > 0 {
        assert(lacks(parts[0], c));
        if parts.len() > 1 {
            let rest = parts.drop_first();
            assert forall|i: int| 0 <= i < rest.len() implies lacks(#[trigger] rest[i], c) by {
                assert(rest[i] == parts[i + 1]);
            }
            lemma_joined_lacks(rest, sep, c);
            let t = joined(parts, sep);
            let tail = joined(rest, sep);
            assert forall|i: int| 0 <= i < t.len() implies #[trigger] t[i] != c by {
                if i < parts[0].len() {
                    assert(t[i] == parts[0][i]);
                } else if i > parts[0].len() {
                    assert(t[i] == tail[i - parts[0].len() - 1]);
                }
            }
        }
    }
}

/// The columns of a clean schema are read back.
proof fn lemma_columns_round_trip(s: SchemaView)
    requires
        s.laid_out(),
        clean_schema(s),
    ensures
        columns_parsed(joined(column_texts(s.entries), ',')) == Some(
            s.entries.map_values(|e: EntryView| (e.name, e.ty, e.length)),
        ),
        lacks(joined(column_texts(s.entries), ','), '}'),
{
    let parts = column_texts(s.entries);
    let t = joined(parts, ',');
    assert forall|i: int| 0 <= i < parts.len() implies lacks(#[trigger] parts[i], ',') && lacks(
        parts[i],
        '}',
    ) && column_parsed(parts[i]) == Some(
        (s.entries[i].name, s.entries[i].ty, s.entries[i].length),
    ) by {
        lemma_column_round_trip(s.entries[i]);
    }
    lemma_joined_lacks(parts, ',', '}');
    let cols = s.entries.map_values(|e: EntryView| (e.name, e.ty, e.length));
    if parts.len() == 0 {
        assert(cols =~= Seq::empty());
    } else {
        law_split_joined(parts, ',');
        lemma_column_round_trip(s.entries[0]);
        let k = choose|k: int| 0 <= k < parts[0].len() && !is_space(#[trigger] parts[0][k]);
        assert(t[k] == parts[0][k]);
        assert(!all_space(t));
        assert(Seq::new(parts.len(), |i: int| column_parsed(parts[i])->0) =~= cols);
    }
}

/// The name and id of a clean schema are read back.
proof fn lemma_head_round_trip(s: SchemaView)
    requires
        clean_name(s.name),
    ensures
        head_parsed(head_text(s)) == Some((s.name, s.group, s.item)),
        lacks(head_text(s), '}'),
{
    let head = head_text(s);
    let (g, i) = (dec(s.group as nat), dec(s.item as nat));
    law_dec_round_trip(s.group as nat);
    law_dec_round_trip(s.item as nat);
    lemma_dec_lacks(s.group as nat, '/');
    lemma_dec_lacks(s.item as nat, '/');
    lemma_dec_lacks(s.group as nat, '}');
    lemma_dec_lacks(s.item as nat, '}');
    let parts = seq![s.name, g, i];
    assert(parts.drop_first() =~= seq![g, i]);
    assert(seq![g, i].drop_first() =~= seq![i]);
    assert(joined(seq![i], '/') == i);
    assert(joined(seq![g, i], '/') =~= g + seq!['/'] + i);
    assert(joined(parts, '/') =~= head);
    law_split_joined(parts, '/');
    lemma_joined_lacks(parts, '/', '}');
    law_trimmed_clean(s.name);
    assert(crate::text::is_digit(g[0]) && crate::text::is_digit(g.last()));
    assert(crate::text::is_digit(i[0]) && crate::text::is_digit(i.last()));
    law_trimmed_clean(g);
    law_trimmed_clean(i);
    law_uint_round_trip(s.group as nat, 65535);
    law_uint_round_trip(s.item as nat, 255);
}

/// Two blocks are found.
proof fn lemma_blocks_found(head: Seq<char>, body: Seq<char>)
    requires
        lacks(head, '}'),
        lacks(body, '}'),
    ensures
        ({
            let t = seq!['{'] + head + seq!['}', '{'] + body + seq!['}'];
            &&& blocks_end(t) == Some((head.len() + 2, t.len()))
            &&& t.subrange(1, (head.len() + 1) as int) =~= head
            &&& t.subrange((head.len() + 3) as int, t.len() - 1) =~= body
            &&& trimmed(t) == t
            &&& t.len() == head.len() + body.len() + 4
        }),
{
    let t = seq!['{'] + head + seq!['}', '{'] + body + seq!['}'];
    assert(t[0] == '{' && t.last() == '}');
    law_trimmed_clean(t);
    let h = head.len() + 1;
    assert forall|k: int| 0 <= k < h implies #[trigger] t[k] != '}' by {
        if k > 0 {
            assert(t[k] == head[k - 1]);
        }
    }
    assert(t[h as int] == '}');
    lemma_index_is(t, '}', h);
    assert(t[(h + 1) as int] == '{');
    let rest = t.subrange((h + 1) as int, t.len() as int);
    let b = body.len() + 1;
    assert forall|k: int| 0 <= k < b implies #[trigger] rest[k] != '}' by {
        if k > 0 {
            assert(rest[k] == body[k - 1]);
        }
    }
    assert(rest[b as int] == '}');
    lemma_index_is(rest, '}', b);
}

/// A schema whose names schema text can hold is read back from its text.
pub proof fn law_schema_text_round_trip(s: SchemaView)
    requires
        s.laid_out(),
        clean_schema(s),
    ensures
        schema_parsed(schema_text(s)) == Some(s),
        blocks_end(schema_text(s)) matches Some((_, end)) && end == schema_text(s).len(),
{
    let head = head_text(s);
    let body = joined(column_texts(s.entries), ',');
    lemma_columns_round_trip(s);
    lemma_schema_of_columns(s);
    lemma_head_round_trip(s);
    lemma_blocks_found(head, body);
}

/// A schema's text in front of a dictionary text adds the schema.
proof fn lemma_extended_step(s: SchemaView, rest: Seq<char>, d: DictView)
    requires
        s.laid_out(),
        clean_schema(s),
        d.admits(s.name),
    ensures
        dict_extended(schema_text(s) + rest, d) == dict_extended(rest, d.with(s)),
{
    let one = schema_text(s);
    let t = one + rest;
    law_schema_text_round_trip(s);
    assert(one[0] == '{');
    assert(t[0] == '{');
    assert(skip_blank(t) == t);
    assert(t.subrange(0, one.len() as int) =~= one);
    lemma_blocks_prefix(one, t);
    assert(t.subrange(one.len() as int, t.len() as int) =~= rest);
}

/// The schemas of `d` from number `k` on, added to the first `k`.
#[verifier::spinoff_prover]
#[verifier::rlimit(40)]
proof fn lemma_dict_rest(d: DictView, k: nat, so_far: DictView)
    requires
        d.wf(),
        forall|i: int| 0 <= i < d.schemas.len() ==> clean_schema(#[trigger] d.schemas[i]),
        k < d.schemas.len(),
        so_far.wf(),
        so_far.schemas =~= d.schemas.subrange(0, k as int),
    ensures
        dict_extended(
            joined(
                d.schemas.map_values(|s: SchemaView| schema_text(s)).subrange(
                    k as int,
                    d.schemas.len() as int,
                ),
                '\n',
            ),
            so_far,
        ) matches Some(r) && r.schemas == d.schemas,
    decreases d.schemas.len() - k,
{
    let all = d.schemas.map_values(|s: SchemaView| schema_text(s));
    let n = d.schemas.len();
    let parts = all.subrange(k as int, n as int);
    let s = d.schemas[k as int];
    let one = schema_text(s);
    assert(parts[0] == one);
    // The name is new, so there is an id for it and it is added at the end.
    assert(!so_far.has_name(s.name)) by {
        if so_far.has_name(s.name) {
            let i = so_far.position(s.name);
            assert(so_far.names(i, s.name));
            assert(d.schemas[i].name != d.schemas[k as int].name);
        }
    }
    law_add_keeps_wf(so_far, s);
    let next = so_far.with(s);
    assert(next.schemas =~= d.schemas.subrange(0, (k + 1) as int));
    if k + 1 == n {
        let none = Seq::<char>::empty();
        assert(parts =~= seq![one]);
        assert(joined(parts, '\n') =~= one + none);
        lemma_extended_step(s, none, so_far);
        assert(skip_blank(none) =~= none);
        assert(next.schemas =~= d.schemas);
    } else {
        let tail = all.subrange((k + 1) as int, n as int);
        let u = joined(tail, '\n');
        let rest = seq!['\n'] + u;
        assert(parts.drop_first() =~= tail);
        assert(joined(parts, '\n') =~= one + rest);
        lemma_extended_step(s, rest, so_far);
        lemma_dict_rest(d, k + 1, next);
        assert(rest.drop_first() =~= u);
        lemma_extended_skip(rest, u, next);
    }
}

/// White space in front of a dictionary text makes no difference.
proof fn lemma_extended_skip(a: Seq<char>, b: Seq<char>, d: DictView)
    requires
        skip_blank(a) == skip_blank(b),
    ensures
        dict_extended(a, d) == dict_extended(b, d),
{
    lemma_skip_blank_len(a);
    lemma_skip_blank_len(b);
}

/// The blocks at the front of a text are found whatever follows.
proof fn lemma_blocks_prefix(one: Seq<char>, t: Seq<char>)
    requires
        one.len() <= t.len(),
        t.subrange(0, one.len() as int) == one,
        blocks_end(one) is Some,
    ensures
        blocks_end(t) == blocks_end(one),
{
    lemma_index_of(one, '}');
    let h = index_of(one, '}');
    assert forall|k: int| 0 <= k < h implies #[trigger] t[k] != '}' by {
        assert(t[k] == one[k]);
    }
    assert(t[h as int] == one[h as int]);
    lemma_index_is(t, '}', h);
    assert(t[0] == one[0] && t[(h + 1) as int] == one[(h + 1) as int]);
    let r1 = one.subrange((h + 1) as int, one.len() as int);
    let r2 = t.subrange((h + 1) as int, t.len() as int);
    lemma_index_of(r1, '}');
    let b = index_of(r1, '}');
    assert forall|k: int| 0 <= k < b implies #[trigger] r2[k] != '}' by {
        assert(r2[k] == one[h + 1 + k]);
        assert(r1[k] == one[h + 1 + k]);
    }
    assert(r2[b as int] == one[(h + 1 + b) as int]);
    lemma_index_is(r2, '}', b);
}

/// A dictionary whose names schema text can hold is read back from its text: the same schemas,
/// in the same order.
pub proof fn law_dict_text_round_trip(d: DictView)
    requires
        d.wf(),
        forall|i: int| 0 <= i < d.schemas.len() ==> clean_schema(#[trigger] d.schemas[i]),
    ensures
        dict_extended(dict_text(d), DictView::none()) matches Some(r) && r.schemas == d.schemas,
{
    let all = d.schemas.map_values(|s: SchemaView| schema_text(s));
    if d.schemas.len() == 0 {
        assert(dict_text(d) =~= Seq::<char>::empty());
        assert(skip_blank(dict_text(d)) =~= Seq::<char>::empty());
        assert(d.schemas =~= DictView::none().schemas);
    } else {
        assert(all.subrange(0, all.len() as int) =~= all);
        assert(DictView::none().schemas =~= d.schemas.subrange(0, 0));
        lemma_dict_rest(d, 0, DictView::none());
    }
}

} // verus!
