//! Text helpers shared by the text forms of schemas, dictionaries and tag registries.

use vstd::prelude::*;

verus! {

/// `String::push`: appends one character.
#[verifier::external_body]
pub(crate) fn push_char(s: &mut String, c: char)
    ensures
        final(s)@ == old(s)@.push(c),
{
    s.push(c)
}

/// `String::from_utf8`: the text that the bytes encode, or nothing where they are not UTF-8.
#[verifier::external_body]
pub(crate) fn utf8_text(bytes: Vec<u8>) -> (r: Option<String>)
    ensures
        match r {
            Some(s) => vstd::utf8::valid_utf8(bytes@) && s@ == vstd::utf8::decode_utf8(bytes@),
            None => !vstd::utf8::valid_utf8(bytes@),
        },
{
    String::from_utf8(bytes).ok()
}

/// Whether two texts hold the same characters.
pub fn same_text(a: &str, b: &str) -> (r: bool)
    ensures
        r == (a@ == b@),
{
    let x = a.as_bytes();
    let y = b.as_bytes();
    proof {
        vstd::utf8::encode_utf8_decode_utf8(a@);
        vstd::utf8::encode_utf8_decode_utf8(b@);
    }
    if x.len() != y.len() {
        return false;
    }
    let mut i: usize = 0;
    while i < x.len()
        invariant
            i <= x.len(),
            x.len() == y.len(),
            x@ == vstd::utf8::encode_utf8(a@),
            y@ == vstd::utf8::encode_utf8(b@),
            forall|k: int| 0 <= k < i ==> x@[k] == y@[k],
        decreases x.len() - i,
    {
        if x[i] != y[i] {
            return false;
        }
        i = i + 1;
    }
    assert(x@ =~= y@);
    true
}

/// A copy of `s`.
pub fn owned(s: &str) -> (r: String)
    ensures
        r@ == s@,
{
    s.to_owned()
}

/// The text made of `cs`.
pub fn text_of(cs: &[char]) -> (r: String)
    ensures
        r@ == cs@,
{
    let mut s = String::new();
    let mut i: usize = 0;
    while i < cs.len()
        invariant
            i <= cs.len(),
            s@ == cs@.subrange(0, i as int),
        decreases cs.len() - i,
    {
        push_char(&mut s, cs[i]);
        i = i + 1;
        assert(s@ =~= cs@.subrange(0, i as int));
    }
    assert(cs@.subrange(0, i as int) =~= cs@);
    s
}

/// The characters of `s`.
pub fn chars_of(s: &str) -> (r: Vec<char>)
    ensures
        r@ == s@,
{
    let mut out: Vec<char> = Vec::new();
    for c in it: s.chars()
        invariant
            it.seq() == s@,
            out@ == s@.subrange(0, it.index() as int),
    {
        out.push(c);
        assert(out@ =~= s@.subrange(0, it.index() + 1));
    }
    assert(out@ =~= s@);
    out
}

/// The decimal digit `d`.
pub open spec fn digit(d: int) -> char {
    (48 + d) as char
}

/// The decimal digits of `n`.
pub open spec fn dec(n: nat) -> Seq<char>
    decreases n,
{
    if n < 10 {
        seq![digit(n as int)]
    } else {
        dec(n / 10).push(digit((n % 10) as int))
    }
}

/// `c` is a decimal digit.
pub open spec fn is_digit(c: char) -> bool {
    '0' <= c <= '9'
}

/// The number that the decimal digits `s` stand for; nothing where they are none.
pub open spec fn digits_value(s: Seq<char>) -> Option<nat>
    decreases s.len(),
{
    if s.len() == 0 {
        None
    } else if !is_digit(s.last()) {
        None
    } else if s.len() == 1 {
        Some((s.last() as nat - 48) as nat)
    } else {
        match digits_value(s.drop_last()) {
            Some(v) => Some((10 * v + (s.last() as nat - 48)) as nat),
            None => None,
        }
    }
}

/// The number up to `max` that `s` stands for: decimal digits, with a plus sign in front or
/// without.
pub open spec fn uint_value(s: Seq<char>, max: nat) -> Option<nat> {
    let digits = if s.len() > 0 && s[0] == '+' {
        s.drop_first()
    } else {
        s
    };
    match digits_value(digits) {
        Some(v) => if v <= max {
            Some(v)
        } else {
            None
        },
        None => None,
    }
}

/// The digits of a number stand for it.
pub proof fn law_dec_round_trip(n: nat)
    ensures
        digits_value(dec(n)) == Some(n),
        dec(n).len() >= 1,
        forall|i: int| 0 <= i < dec(n).len() ==> is_digit(#[trigger] dec(n)[i]),
    decreases n,
{
    if n >= 10 {
        law_dec_round_trip(n / 10);
        let s = dec(n);
        assert(s.drop_last() =~= dec(n / 10));
        assert forall|i: int| 0 <= i < s.len() implies is_digit(#[trigger] s[i]) by {
            if i < s.len() - 1 {
                assert(s[i] == dec(n / 10)[i]);
            }
        }
    }
}

/// A number that was written is read back, up to the largest that is asked for.
pub proof fn law_uint_round_trip(n: nat, max: nat)
    requires
        n <= max,
    ensures
        uint_value(dec(n), max) == Some(n),
{
    law_dec_round_trip(n);
    assert(is_digit(dec(n)[0]));
}

/// One digit as a character.
fn digit_char(d: u8) -> (c: char)
    requires
        d < 10,
    ensures
        c == digit(d as int),
        is_digit(c),
{
    match d {
        0 => '0',
        1 => '1',
        2 => '2',
        3 => '3',
        4 => '4',
        5 => '5',
        6 => '6',
        7 => '7',
        8 => '8',
        _ => '9',
    }
}

/// The decimal digits of `n`.
pub fn dec_chars(n: u64) -> (r: Vec<char>)
    ensures
        r@ == dec(n as nat),
    decreases n,
{
    if n < 10 {
        let mut v: Vec<char> = Vec::new();
        v.push(digit_char(n as u8));
        assert(v@ =~= dec(n as nat));
        v
    } else {
        let mut v = dec_chars(n / 10);
        v.push(digit_char((n % 10) as u8));
        v
    }
}

/// Append the decimal digits of `n`.
pub fn push_dec(out: &mut Vec<char>, n: u64)
    ensures
        final(out)@ == old(out)@ + dec(n as nat),
{
    let mut d = dec_chars(n);
    out.append(&mut d);
}

/// The hexadecimal digit `d`.
pub open spec fn hex_digit(d: int) -> char {
    if d < 10 {
        (48 + d) as char
    } else {
        (87 + d) as char
    }
}

/// The hexadecimal digits of `n`, without leading zeros.
pub open spec fn hex(n: nat) -> Seq<char>
    decreases n,
{
    if n < 16 {
        seq![hex_digit(n as int)]
    } else {
        hex(n / 16).push(hex_digit((n % 16) as int))
    }
}

/// The last `k` hexadecimal digits of `n`.
pub open spec fn hex_fixed(n: nat, k: nat) -> Seq<char>
    decreases k,
{
    if k == 0 {
        Seq::empty()
    } else {
        hex_fixed(n / 16, (k - 1) as nat).push(hex_digit((n % 16) as int))
    }
}

/// One hexadecimal digit as a character.
fn hex_char(d: u8) -> (c: char)
    requires
        d < 16,
    ensures
        c == hex_digit(d as int),
{
    match d {
        10 => 'a',
        11 => 'b',
        12 => 'c',
        13 => 'd',
        14 => 'e',
        15 => 'f',
        _ => digit_char(d),
    }
}

/// The hexadecimal digits of `n`.
pub fn hex_chars(n: u64) -> (r: Vec<char>)
    ensures
        r@ == hex(n as nat),
    decreases n,
{
    if n < 16 {
        let mut v: Vec<char> = Vec::new();
        v.push(hex_char(n as u8));
        assert(v@ =~= hex(n as nat));
        v
    } else {
        let mut v = hex_chars(n / 16);
        v.push(hex_char((n % 16) as u8));
        v
    }
}

/// The last `k` hexadecimal digits of `n`.
pub fn hex_fixed_chars(n: u64, k: u8) -> (r: Vec<char>)
    ensures
        r@ == hex_fixed(n as nat, k as nat),
    decreases k,
{
    if k == 0 {
        Vec::new()
    } else {
        let mut v = hex_fixed_chars(n / 16, k - 1);
        v.push(hex_char((n % 16) as u8));
        v
    }
}

/// What the debug form of a text is.
pub uninterp spec fn quoted_text(s: Seq<char>) -> Seq<char>;

/// `format!` with `{:?}`: the text in quotes, with what does not print escaped.
#[verifier::external_body]
pub(crate) fn quoted(s: &str) -> (r: String)
    ensures
        r@ == quoted_text(s@),
{
    format!("{:?}", s)
}

/// Append a text in quotes.
pub fn push_quoted(out: &mut Vec<char>, s: &str)
    ensures
        final(out)@ == old(out)@ + quoted_text(s@),
{
    push_text(out, quoted(s).as_str());
}

/// Append the characters of `s`.
pub fn push_text(out: &mut Vec<char>, s: &str)
    ensures
        final(out)@ == old(out)@ + s@,
{
    let mut c = chars_of(s);
    out.append(&mut c);
}

/// Read a number up to `max`.
pub fn read_uint(s: &[char], max: u64) -> (r: Option<u64>)
    ensures
        match r {
            Some(v) => uint_value(s@, max as nat) == Some(v as nat),
            None => uint_value(s@, max as nat) is None,
        },
{
    let plus = s.len() > 0 && s[0] == '+';
    let start: usize = if plus {
        1
    } else {
        0
    };
    let ghost digits = if plus {
        s@.drop_first()
    } else {
        s@
    };
    assert(digits =~= s@.subrange(start as int, s.len() as int));
    if start >= s.len() {
        return None;
    }
    let mut v: u64 = 0;
    let mut over = false;
    let mut i: usize = start;
    while i < s.len()
        invariant
            start <= i <= s.len(),
            start < s.len(),
            digits == s@.subrange(start as int, s.len() as int),
            uint_value(s@, max as nat) == (match digits_value(digits) {
                Some(v) => if v <= max {
                    Some(v)
                } else {
                    None
                },
                None => None,
            }),
            i > start ==> digits_value(digits.subrange(0, i - start)) is Some,
            i > start && !over ==> digits_value(digits.subrange(0, i - start)) == Some(v as nat),
            i > start && over ==> digits_value(digits.subrange(0, i - start))->0 > max,
            i == start ==> v == 0 && !over,
            !over ==> v <= max,
        decreases s.len() - i,
    {
        let c = s[i];
        let ghost now = digits.subrange(0, i + 1 - start);
        assert(now.drop_last() =~= digits.subrange(0, i - start));
        assert(now.last() == c);
        if !(c >= '0' && c <= '9') {
            proof {
                lemma_bad_digit(digits, i - start);
            }
            return None;
        }
        let d: u64 = (c as u32 - 48) as u64;
        if !over {
            if v > (u64::MAX - d) / 10 {
                over = true;
            } else {
                v = 10 * v + d;
                if v > max {
                    over = true;
                }
            }
        }
        i = i + 1;
    }
    assert(digits.subrange(0, i - start) =~= digits);
    if over {
        None
    } else {
        Some(v)
    }
}

/// A character that is no digit spoils the number.
proof fn lemma_bad_digit(s: Seq<char>, k: int)
    requires
        0 <= k < s.len(),
        !is_digit(s[k]),
    ensures
        digits_value(s) is None,
    decreases s.len(),
{
    if k < s.len() - 1 {
        lemma_bad_digit(s.drop_last(), k);
    }
}

/// `c` is white space, as Unicode defines it.
pub open spec fn is_space(c: char) -> bool {
    ||| '\u{9}' <= c <= '\u{d}'
    ||| c == ' '
    ||| c == '\u{85}'
    ||| c == '\u{a0}'
    ||| c == '\u{1680}'
    ||| '\u{2000}' <= c <= '\u{200a}'
    ||| c == '\u{2028}'
    ||| c == '\u{2029}'
    ||| c == '\u{202f}'
    ||| c == '\u{205f}'
    ||| c == '\u{3000}'
}

/// Whether `c` is white space.
pub fn check_space(c: char) -> (r: bool)
    ensures
        r == is_space(c),
{
    (c >= '\u{9}' && c <= '\u{d}') || c == ' ' || c == '\u{85}' || c == '\u{a0}' || c
        == '\u{1680}' || (c >= '\u{2000}' && c <= '\u{200a}') || c == '\u{2028}' || c
        == '\u{2029}' || c == '\u{202f}' || c == '\u{205f}' || c == '\u{3000}'
}

/// `s` without the white space in front.
pub open spec fn trim_front(s: Seq<char>) -> Seq<char>
    decreases s.len(),
{
    if s.len() > 0 && is_space(s[0]) {
        trim_front(s.drop_first())
    } else {
        s
    }
}

/// `s` without the white space at its end.
pub open spec fn trim_back(s: Seq<char>) -> Seq<char>
    decreases s.len(),
{
    if s.len() > 0 && is_space(s.last()) {
        trim_back(s.drop_last())
    } else {
        s
    }
}

/// `s` without the white space around it.
pub open spec fn trimmed(s: Seq<char>) -> Seq<char> {
    trim_back(trim_front(s))
}

/// Text that neither starts nor ends with white space stays as it is.
pub proof fn law_trimmed_clean(s: Seq<char>)
    requires
        s.len() > 0 ==> !is_space(s[0]) && !is_space(s.last()),
    ensures
        trimmed(s) == s,
{
}

/// `s` without the white space around it.
pub fn trim_chars(s: &[char]) -> (r: &[char])
    ensures
        r@ == trimmed(s@),
        r.len() <= s.len(),
{
    let mut a: usize = 0;
    let mut b: usize = s.len();
    assert(s@.subrange(0, s.len() as int) =~= s@);
    while a < b && check_space(s[a])
        invariant
            a <= b == s.len(),
            trim_front(s@.subrange(a as int, s.len() as int)) == trim_front(s@),
        decreases b - a,
    {
        assert(s@.subrange(a as int, s.len() as int).drop_first() =~= s@.subrange(
            a + 1,
            s.len() as int,
        ));
        a = a + 1;
    }
    let ghost front = s@.subrange(a as int, s.len() as int);
    assert(trim_front(s@) == front);
    while b > a && check_space(s[b - 1])
        invariant
            a <= b <= s.len(),
            front == s@.subrange(a as int, s.len() as int),
            trim_back(s@.subrange(a as int, b as int)) == trim_back(front),
        decreases b - a,
    {
        assert(s@.subrange(a as int, b as int).drop_last() =~= s@.subrange(a as int, b - 1));
        b = b - 1;
    }
    vstd::slice::slice_subrange(s, a, b)
}

/// Where `c` first stands in `s`; the length of `s` where it does not.
pub open spec fn index_of(s: Seq<char>, c: char) -> nat
    decreases s.len(),
{
    if s.len() == 0 || s[0] == c {
        0
    } else {
        1 + index_of(s.drop_first(), c)
    }
}

/// `index_of` finds the first place.
pub proof fn lemma_index_of(s: Seq<char>, c: char)
    ensures
        index_of(s, c) <= s.len(),
        index_of(s, c) < s.len() ==> s[index_of(s, c) as int] == c,
        forall|i: int| 0 <= i < index_of(s, c) ==> #[trigger] s[i] != c,
    decreases s.len(),
{
    if s.len() > 0 && s[0] != c {
        let t = s.drop_first();
        lemma_index_of(t, c);
        assert forall|i: int| 0 <= i < index_of(s, c) implies #[trigger] s[i] != c by {
            if i > 0 {
                assert(s[i] == t[i - 1]);
            }
        }
    }
}

/// A place before which there is no `c`, and where there is one, is the first.
pub proof fn lemma_index_is(s: Seq<char>, c: char, k: nat)
    requires
        k <= s.len(),
        forall|i: int| 0 <= i < k ==> #[trigger] s[i] != c,
        k < s.len() ==> s[k as int] == c,
    ensures
        index_of(s, c) == k,
{
    lemma_index_of(s, c);
    let n = index_of(s, c);
    if n < k {
        assert(s[n as int] != c);
    } else if k < n {
        assert(s[k as int] != c);
    }
}

/// Find `c` in `s`.
pub fn find_char(s: &[char], c: char) -> (r: usize)
    ensures
        r == index_of(s@, c),
        r <= s.len(),
{
    let mut i: usize = 0;
    while i < s.len() && s[i] != c
        invariant
            i <= s.len(),
            forall|k: int| 0 <= k < i ==> #[trigger] s@[k] != c,
        decreases s.len() - i,
    {
        i = i + 1;
    }
    proof {
        lemma_index_is(s@, c, i as nat);
    }
    i
}

/// The parts of `s` between the places where `c` stands.
pub open spec fn split(s: Seq<char>, c: char) -> Seq<Seq<char>>
    decreases s.len(),
{
    let k = index_of(s, c);
    if k < s.len() {
        seq![s.subrange(0, k as int)] + split(s.subrange((k + 1) as int, s.len() as int), c)
    } else {
        seq![s]
    }
}

/// What a list of texts says.
pub open spec fn texts(v: Seq<Vec<char>>) -> Seq<Seq<char>> {
    v.map_values(|t: Vec<char>| t@)
}

/// Cut `s` at every `c`.
pub fn split_chars(s: &[char], c: char) -> (r: Vec<Vec<char>>)
    ensures
        texts(r@) == split(s@, c),
        r.len() >= 1,
{
    let mut out: Vec<Vec<char>> = Vec::new();
    let mut at: usize = 0;
    assert(s@.subrange(0, s.len() as int) =~= s@);
    assert(texts(out@) =~= Seq::<Seq<char>>::empty());
    assert(texts(out@) + split(s@, c) =~= split(s@, c));
    loop
        invariant
            at <= s.len(),
            texts(out@) + split(s@.subrange(at as int, s.len() as int), c) == split(s@, c),
        decreases s.len() - at,
    {
        let rest = vstd::slice::slice_subrange(s, at, s.len());
        let k: usize = find_char(rest, c);
        let ghost before = texts(out@);
        if k >= rest.len() {
            out.push(vstd::slice::slice_to_vec(rest));
            assert(texts(out@) =~= before + seq![rest@]);
            return out;
        }
        out.push(vstd::slice::slice_to_vec(vstd::slice::slice_subrange(rest, 0, k)));
        proof {
            let part = rest@.subrange(0, k as int);
            assert(texts(out@) =~= before + seq![part]);
            assert(rest@.subrange(k + 1, rest.len() as int) =~= s@.subrange(
                at + k + 1,
                s.len() as int,
            ));
            let tail = split(s@.subrange(at + k + 1, s.len() as int), c);
            assert(before + (seq![part] + tail) =~= (before + seq![part]) + tail);
        }
        at = at + k + 1;
    }
}

/// Texts joined by `c`.
pub open spec fn joined(parts: Seq<Seq<char>>, c: char) -> Seq<char>
    decreases parts.len(),
{
    if parts.len() == 0 {
        Seq::empty()
    } else if parts.len() == 1 {
        parts[0]
    } else {
        parts[0] + seq![c] + joined(parts.drop_first(), c)
    }
}

/// The last text stands behind the others and a separator.
pub proof fn lemma_joined_push(parts: Seq<Seq<char>>, x: Seq<char>, c: char)
    ensures
        joined(parts.push(x), c) == (if parts.len() == 0 {
            x
        } else {
            joined(parts, c) + seq![c] + x
        }),
    decreases parts.len(),
{
    let all = parts.push(x);
    if parts.len() == 1 {
        assert(all.drop_first() =~= seq![x]);
        assert(joined(all.drop_first(), c) == x);
    } else if parts.len() > 1 {
        assert(all.drop_first() =~= parts.drop_first().push(x));
        lemma_joined_push(parts.drop_first(), x, c);
        assert(joined(all, c) =~= joined(parts, c) + seq![c] + x);
    }
}

/// `c` does not stand in `s`.
pub open spec fn lacks(s: Seq<char>, c: char) -> bool {
    forall|i: int| 0 <= i < s.len() ==> #[trigger] s[i] != c
}

/// Texts without `c` that were joined by it are cut apart again.
pub proof fn law_split_joined(parts: Seq<Seq<char>>, c: char)
    requires
        parts.len() >= 1,
        forall|i: int| 0 <= i < parts.len() ==> lacks(#[trigger] parts[i], c),
    ensures
        split(joined(parts, c), c) =~= parts,
    decreases parts.len(),
{
    let s = joined(parts, c);
    assert(lacks(parts[0], c));
    if parts.len() == 1 {
        lemma_index_is(s, c, s.len());
    } else {
        let rest = parts.drop_first();
        assert forall|i: int| 0 <= i < rest.len() implies lacks(#[trigger] rest[i], c) by {
            assert(rest[i] == parts[i + 1]);
        }
        law_split_joined(rest, c);
        let k = parts[0].len();
        assert forall|i: int| 0 <= i < k implies #[trigger] s[i] != c by {
            assert(s[i] == parts[0][i]);
        }
        lemma_index_is(s, c, k);
        assert(s.subrange(0, k as int) =~= parts[0]);
        assert(s.subrange((k + 1) as int, s.len() as int) =~= joined(rest, c));
        assert(seq![parts[0]] + rest =~= parts);
    }
}

/// The digits of a number hold no other character.
pub proof fn lemma_dec_lacks(n: nat, c: char)
    requires
        !is_digit(c),
    ensures
        lacks(dec(n), c),
{
    law_dec_round_trip(n);
}

} // verus!
