//! Low-level byte access.
//!
//! HIPO files are little-endian on disk. A header's magic word tells a big-endian file apart.

use vstd::prelude::*;
use crate::wire::constants::{HEADER_MAGIC, HEADER_MAGIC_BE};

verus! {

/// The little-endian `u16` at byte `i` of `s`.
#[verifier::opaque]
pub open spec fn u16_at(s: Seq<u8>, i: int) -> u16 {
    (s[i] + s[i + 1] * 0x100) as u16
}

/// The little-endian `u32` at byte `i` of `s`.
#[verifier::opaque]
pub open spec fn u32_at(s: Seq<u8>, i: int) -> u32 {
    (s[i] + s[i + 1] * 0x100 + s[i + 2] * 0x1_0000 + s[i + 3] * 0x100_0000) as u32
}

/// The little-endian `u64` at byte `i` of `s`.
pub open spec fn u64_at(s: Seq<u8>, i: int) -> u64 {
    (u32_at(s, i) + u32_at(s, i + 4) * 0x1_0000_0000) as u64
}

/// The two little-endian bytes of `v`.
#[verifier::opaque]
pub open spec fn le16(v: u16) -> Seq<u8> {
    seq![(v % 0x100) as u8, (v / 0x100) as u8]
}

/// The four little-endian bytes of `v`.
#[verifier::opaque]
pub open spec fn le32(v: u32) -> Seq<u8> {
    seq![
        (v % 0x100) as u8,
        (v / 0x100 % 0x100) as u8,
        (v / 0x1_0000 % 0x100) as u8,
        (v / 0x100_0000) as u8,
    ]
}

/// The eight little-endian bytes of `v`.
pub open spec fn le64(v: u64) -> Seq<u8> {
    le32((v % 0x1_0000_0000) as u32) + le32((v / 0x1_0000_0000) as u32)
}

/// `s` with the bytes `b` in place of those from byte `i` on.
pub open spec fn spliced(s: Seq<u8>, i: int, b: Seq<u8>) -> Seq<u8> {
    s.subrange(0, i) + b + s.subrange(i + b.len(), s.len() as int)
}

/// What `le16` writes, `u16_at` reads.
pub broadcast proof fn law_le16_round_trip(v: u16)
    ensures
        #![trigger le16(v)]
        le16(v).len() == 2,
        u16_at(le16(v), 0) == v,
{
    reveal(u16_at);
    reveal(le16);
}

/// What `le32` writes, `u32_at` reads.
pub broadcast proof fn law_le32_round_trip(v: u32)
    ensures
        #![trigger le32(v)]
        le32(v).len() == 4,
        u32_at(le32(v), 0) == v,
{
    reveal(u32_at);
    reveal(le32);
}

/// What `le64` writes, `u64_at` reads.
pub broadcast proof fn law_le64_round_trip(v: u64)
    ensures
        #![trigger le64(v)]
        le64(v).len() == 8,
        u64_at(le64(v), 0) == v,
{
    reveal(u32_at);
    let lo = (v % 0x1_0000_0000) as u32;
    let hi = (v / 0x1_0000_0000) as u32;
    law_le32_round_trip(lo);
    law_le32_round_trip(hi);
    let s = le64(v);
    assert(s[0] == le32(lo)[0] && s[1] == le32(lo)[1] && s[2] == le32(lo)[2] && s[3] == le32(lo)[3]);
    assert(s[4] == le32(hi)[0] && s[5] == le32(hi)[1] && s[6] == le32(hi)[2] && s[7] == le32(hi)[3]);
}

/// A word read at `i` depends on the four bytes from `i` on alone.
pub proof fn lemma_u32_at_same(s: Seq<u8>, i: int, t: Seq<u8>, j: int)
    requires
        s[i] == t[j],
        s[i + 1] == t[j + 1],
        s[i + 2] == t[j + 2],
        s[i + 3] == t[j + 3],
    ensures
        u32_at(s, i) == u32_at(t, j),
{
    reveal(u32_at);
}

/// Reading a word back from where it was spliced in.
pub proof fn lemma_u32_at_spliced(s: Seq<u8>, i: int, v: u32)
    requires
        0 <= i,
        i + 4 <= s.len(),
    ensures
        u32_at(spliced(s, i, le32(v)), i) == v,
        spliced(s, i, le32(v)).len() == s.len(),
{
    reveal(u32_at);
    law_le32_round_trip(v);
    let t = spliced(s, i, le32(v));
    assert(t[i] == le32(v)[0] && t[i + 1] == le32(v)[1] && t[i + 2] == le32(v)[2] && t[i + 3] == le32(v)[3]);
}

/// Read a little-endian `u16` from `buf[off..off + 2]`.
pub fn read_u16_le(buf: &[u8], off: usize) -> (r: u16)
    requires
        off + 2 <= buf.len(),
    ensures
        r == u16_at(buf@, off as int),
{
    proof {
        reveal(u16_at);
    }
    buf[off] as u16 + buf[off + 1] as u16 * 0x100
}

/// Read a little-endian `u32` from `buf[off..off + 4]`.
pub fn read_u32_le(buf: &[u8], off: usize) -> (r: u32)
    requires
        off + 4 <= buf.len(),
    ensures
        r == u32_at(buf@, off as int),
{
    proof {
        reveal(u32_at);
    }
    buf[off] as u32 + buf[off + 1] as u32 * 0x100 + buf[off + 2] as u32 * 0x1_0000 + buf[off
        + 3] as u32 * 0x100_0000
}

pub fn read_i32_le(buf: &[u8], off: usize) -> (r: i32)
    requires
        off + 4 <= buf.len(),
    ensures
        r == u32_at(buf@, off as int) as i32,
{
    let v: u32 = read_u32_le(buf, off);
    v as i32
}

pub fn read_u64_le(buf: &[u8], off: usize) -> (r: u64)
    requires
        off + 8 <= buf.len(),
    ensures
        r == u64_at(buf@, off as int),
{
    let lo: u32 = read_u32_le(buf, off);
    let hi: u32 = read_u32_le(buf, off + 4);
    lo as u64 + hi as u64 * 0x1_0000_0000
}

pub fn read_i16_le(buf: &[u8], off: usize) -> (r: i16)
    requires
        off + 2 <= buf.len(),
    ensures
        r == u16_at(buf@, off as int) as i16,
{
    let v: u16 = read_u16_le(buf, off);
    v as i16
}

/// Write `v` to `buf[off..off + 4]`; the other bytes stay.
pub fn write_u32_le(buf: &mut [u8], off: usize, v: u32)
    requires
        off + 4 <= old(buf).len(),
    ensures
        final(buf)@ == spliced(old(buf)@, off as int, le32(v)),
{
    proof {
        reveal(le32);
    }
    buf[off] = (v % 0x100) as u8;
    buf[off + 1] = (v / 0x100 % 0x100) as u8;
    buf[off + 2] = (v / 0x1_0000 % 0x100) as u8;
    buf[off + 3] = (v / 0x100_0000) as u8;
    assert(buf@ =~= spliced(old(buf)@, off as int, le32(v)));
}

/// Write `v` to `buf[off..off + 8]`; the other bytes stay.
pub fn write_u64_le(buf: &mut [u8], off: usize, v: u64)
    requires
        off + 8 <= old(buf).len(),
    ensures
        final(buf)@ == spliced(old(buf)@, off as int, le64(v)),
{
    proof {
        reveal(le32);
    }
    write_u32_le(buf, off, (v % 0x1_0000_0000) as u32);
    write_u32_le(buf, off + 4, (v / 0x1_0000_0000) as u32);
    assert(buf@ =~= spliced(old(buf)@, off as int, le64(v)));
}

/// Append the four bytes of `v`.
pub fn push_u32_le(buf: &mut Vec<u8>, v: u32)
    ensures
        final(buf)@ == old(buf)@ + le32(v),
{
    proof {
        reveal(le32);
    }
    buf.push((v % 0x100) as u8);
    buf.push((v / 0x100 % 0x100) as u8);
    buf.push((v / 0x1_0000 % 0x100) as u8);
    buf.push((v / 0x100_0000) as u8);
    assert(buf@ =~= old(buf)@ + le32(v));
}

/// Append the two bytes of `v`.
pub fn push_u16_le(buf: &mut Vec<u8>, v: u16)
    ensures
        final(buf)@ == old(buf)@ + le16(v),
{
    proof {
        reveal(le16);
    }
    buf.push((v % 0x100) as u8);
    buf.push((v / 0x100) as u8);
    assert(buf@ =~= old(buf)@ + le16(v));
}

/// Append the eight bytes of `v`.
pub fn push_u64_le(buf: &mut Vec<u8>, v: u64)
    ensures
        final(buf)@ == old(buf)@ + le64(v),
{
    push_u32_le(buf, (v % 0x1_0000_0000) as u32);
    push_u32_le(buf, (v / 0x1_0000_0000) as u32);
    assert(buf@ =~= old(buf)@ + le64(v));
}

/// Append `bytes`.
pub fn push_bytes(buf: &mut Vec<u8>, bytes: &[u8])
    ensures
        final(buf)@ == old(buf)@ + bytes@,
{
    buf.extend_from_slice(bytes);
    assert(buf@ =~= old(buf)@ + bytes@);
}

/// Write `bytes` to `buf[off..]`; the other bytes stay.
pub fn write_bytes(buf: &mut Vec<u8>, off: usize, bytes: &[u8])
    requires
        off + bytes.len() <= old(buf).len(),
    ensures
        final(buf)@ == spliced(old(buf)@, off as int, bytes@),
{
    let mut k: usize = 0;
    assert(buf@ =~= spliced(old(buf)@, off as int, bytes@.subrange(0, 0)));
    while k < bytes.len()
        invariant
            k <= bytes.len(),
            off + bytes.len() <= old(buf).len(),
            buf@ == spliced(old(buf)@, off as int, bytes@.subrange(0, k as int)),
        decreases bytes.len() - k,
    {
        buf.set(off + k, bytes[k]);
        k = k + 1;
        assert(buf@ =~= spliced(old(buf)@, off as int, bytes@.subrange(0, k as int)));
    }
    assert(bytes@.subrange(0, k as int) =~= bytes@);
}

/// Append `n` zero bytes.
pub fn push_zeros(buf: &mut Vec<u8>, n: usize)
    ensures
        final(buf)@ == old(buf)@ + Seq::new(n as nat, |i: int| 0u8),
{
    let mut k: usize = 0;
    while k < n
        invariant
            k <= n,
            buf@ == old(buf)@ + Seq::new(k as nat, |i: int| 0u8),
        decreases n - k,
    {
        buf.push(0);
        k = k + 1;
        assert(buf@ =~= old(buf)@ + Seq::new(k as nat, |i: int| 0u8));
    }
}

/// Byte order of a file or record.
#[derive(Debug, Copy, Clone, Eq, PartialEq, Structural)]
pub enum Endianness {
    Little,
    Big,
}

impl Endianness {
    /// The byte order that a header's magic word announces.
    pub open spec fn of_magic(magic: u32) -> Option<Endianness> {
        if magic == HEADER_MAGIC {
            Some(Endianness::Little)
        } else if magic == HEADER_MAGIC_BE {
            Some(Endianness::Big)
        } else {
            None
        }
    }

    pub fn from_magic(magic: u32) -> (r: Option<Self>)
        ensures
            r == Endianness::of_magic(magic),
    {
        if magic == HEADER_MAGIC {
            Some(Endianness::Little)
        } else if magic == HEADER_MAGIC_BE {
            Some(Endianness::Big)
        } else {
            None
        }
    }
}

/// The big-endian `u32` at byte `i` of `s`.
#[verifier::opaque]
pub open spec fn be32_at(s: Seq<u8>, i: int) -> u32 {
    (s[i] * 0x100_0000 + s[i + 1] * 0x1_0000 + s[i + 2] * 0x100 + s[i + 3]) as u32
}

/// The `u32` at byte `i` of `s`, in the byte order `e`.
pub open spec fn word32(s: Seq<u8>, i: int, e: Endianness) -> u32 {
    match e {
        Endianness::Little => u32_at(s, i),
        Endianness::Big => be32_at(s, i),
    }
}

/// The `u64` at byte `i` of `s`, in the byte order `e`.
pub open spec fn word64(s: Seq<u8>, i: int, e: Endianness) -> u64 {
    match e {
        Endianness::Little => u64_at(s, i),
        Endianness::Big => (be32_at(s, i) * 0x1_0000_0000 + be32_at(s, i + 4)) as u64,
    }
}

/// The bytes of a sequence of little-endian words.
pub open spec fn word_bytes(words: Seq<u32>) -> Seq<u8> {
    Seq::new(4 * words.len(), |i: int| le32(words[i / 4])[i % 4])
}

/// Word `k` of `word_bytes` is read back at byte `4 * k`.
pub proof fn lemma_word_bytes_at(words: Seq<u32>, k: int)
    requires
        0 <= k < words.len(),
    ensures
        u32_at(word_bytes(words), 4 * k) == words[k],
{
    reveal(u32_at);
    law_le32_round_trip(words[k]);
    let s = word_bytes(words);
    assert(s[4 * k] == le32(words[k])[0]);
    assert(s[4 * k + 1] == le32(words[k])[1]);
    assert(s[4 * k + 2] == le32(words[k])[2]);
    assert(s[4 * k + 3] == le32(words[k])[3]);
}

/// One more word is four more bytes.
pub proof fn lemma_word_bytes_push(words: Seq<u32>, v: u32)
    ensures
        word_bytes(words.push(v)) =~= word_bytes(words) + le32(v),
{
    reveal(le32);
}

/// Append `words`, least significant byte first.
pub fn push_words(buf: &mut Vec<u8>, words: &[u32])
    ensures
        final(buf)@ == old(buf)@ + word_bytes(words@),
{
    let mut k: usize = 0;
    assert(buf@ =~= old(buf)@ + word_bytes(words@.subrange(0, 0)));
    while k < words.len()
        invariant
            k <= words.len(),
            buf@ == old(buf)@ + word_bytes(words@.subrange(0, k as int)),
        decreases words.len() - k,
    {
        let v: u32 = words[k];
        push_u32_le(buf, v);
        proof {
            lemma_word_bytes_push(words@.subrange(0, k as int), v);
            assert(words@.subrange(0, k + 1) =~= words@.subrange(0, k as int).push(v));
            assert(buf@ =~= old(buf)@ + word_bytes(words@.subrange(0, k + 1)));
        }
        k = k + 1;
    }
    assert(words@.subrange(0, k as int) =~= words@);
}

/// Read the `u32` at `off`, in the byte order `e`.
pub fn read_word32(buf: &[u8], off: usize, e: Endianness) -> (r: u32)
    requires
        off + 4 <= buf.len(),
    ensures
        r == word32(buf@, off as int, e),
{
    proof {
        reveal(be32_at);
    }
    match e {
        Endianness::Little => read_u32_le(buf, off),
        Endianness::Big => buf[off] as u32 * 0x100_0000 + buf[off + 1] as u32 * 0x1_0000 + buf[off
            + 2] as u32 * 0x100 + buf[off + 3] as u32,
    }
}

/// Read the `u64` at `off`, in the byte order `e`.
pub fn read_word64(buf: &[u8], off: usize, e: Endianness) -> (r: u64)
    requires
        off + 8 <= buf.len(),
    ensures
        r == word64(buf@, off as int, e),
{
    match e {
        Endianness::Little => read_u64_le(buf, off),
        Endianness::Big => {
            let hi: u32 = read_word32(buf, off, e);
            let lo: u32 = read_word32(buf, off + 4, e);
            hi as u64 * 0x1_0000_0000 + lo as u64
        },
    }
}

/// A length in words as a length in bytes, capped at the largest `u32`.
pub open spec fn words_to_bytes(words: u32) -> u32 {
    if words * 4 > u32::MAX {
        u32::MAX
    } else {
        (words * 4) as u32
    }
}

/// Four bytes per word, saturating.
pub fn bytes_of_words(words: u32) -> (r: u32)
    ensures
        r == words_to_bytes(words),
{
    if words > u32::MAX / 4 {
        u32::MAX
    } else {
        words * 4
    }
}

} // verus!
