//! Tables of little-endian numbers, running sums, and presence bits: the pieces of which
//! record directories are made.

use vstd::prelude::*;
use crate::schema::types::cap32;
use crate::wire::bytes::{push_u32_le, read_u16_le, read_u32_le};
#[allow(unused_imports)]
use crate::wire::bytes::{
    law_le16_round_trip, law_le32_round_trip, le16, le32, lemma_u32_at_same, u16_at, u32_at,
};

verus! {

/// The `n` words from byte `off` of `s` on.
pub open spec fn u32_table(s: Seq<u8>, off: int, n: nat) -> Seq<u32> {
    Seq::new(n, |i: int| u32_at(s, off + 4 * i))
}

/// The `n` half words from byte `off` of `s` on.
pub open spec fn u16_table(s: Seq<u8>, off: int, n: nat) -> Seq<u16> {
    Seq::new(n, |i: int| u16_at(s, off + 2 * i))
}

/// The bytes of a table of words.
pub open spec fn u32s_bytes(v: Seq<u32>) -> Seq<u8>
    decreases v.len(),
{
    if v.len() == 0 {
        Seq::empty()
    } else {
        u32s_bytes(v.drop_last()) + le32(v.last())
    }
}

/// The bytes of a table of half words.
pub open spec fn u16s_bytes(v: Seq<u16>) -> Seq<u8>
    decreases v.len(),
{
    if v.len() == 0 {
        Seq::empty()
    } else {
        u16s_bytes(v.drop_last()) + le16(v.last())
    }
}

pub proof fn lemma_u32s_bytes_len(v: Seq<u32>)
    ensures
        u32s_bytes(v).len() == 4 * v.len(),
    decreases v.len(),
{
    if v.len() > 0 {
        lemma_u32s_bytes_len(v.drop_last());
        law_le32_round_trip(v.last());
    }
}

pub proof fn lemma_u16s_bytes_len(v: Seq<u16>)
    ensures
        u16s_bytes(v).len() == 2 * v.len(),
    decreases v.len(),
{
    if v.len() > 0 {
        lemma_u16s_bytes_len(v.drop_last());
        law_le16_round_trip(v.last());
    }
}

/// A table that was written at byte `off` is read back from there.
pub proof fn law_u32_table_round_trip(s: Seq<u8>, off: int, v: Seq<u32>)
    requires
        0 <= off,
        off + 4 * v.len() <= s.len(),
        s.subrange(off, off + 4 * v.len()) == u32s_bytes(v),
    ensures
        u32_table(s, off, v.len()) =~= v,
    decreases v.len(),
{
    if v.len() > 0 {
        let front = v.drop_last();
        let n = front.len();
        lemma_u32s_bytes_len(v);
        lemma_u32s_bytes_len(front);
        law_le32_round_trip(v.last());
        let b = u32s_bytes(v);
        assert(s.subrange(off, off + 4 * n) =~= u32s_bytes(front)) by {
            assert(b.subrange(0, 4 * n as int) =~= u32s_bytes(front));
            assert(s.subrange(off, off + 4 * n) =~= b.subrange(0, 4 * n as int));
        }
        law_u32_table_round_trip(s, off, front);
        let w = le32(v.last());
        let p = off + 4 * n;
        assert forall|k: int| 0 <= k < 4 implies s[p + k] == w[k] by {
            assert(s.subrange(off, off + 4 * v.len())[4 * n + k] == b[4 * n + k]);
        }
        assert(s[p + 0] == w[0] && s[p + 1] == w[1] && s[p + 2] == w[2] && s[p + 3] == w[3]);
        lemma_u32_at_same(s, p, w, 0);
        assert forall|i: int| 0 <= i < v.len() implies u32_table(s, off, v.len())[i] == v[i] by {
            if i < n {
                assert(u32_table(s, off, n)[i] == front[i]);
            }
        }
    }
}

/// A table of half words that was written at byte `off` is read back from there.
pub proof fn law_u16_table_round_trip(s: Seq<u8>, off: int, v: Seq<u16>)
    requires
        0 <= off,
        off + 2 * v.len() <= s.len(),
        s.subrange(off, off + 2 * v.len()) == u16s_bytes(v),
    ensures
        u16_table(s, off, v.len()) =~= v,
    decreases v.len(),
{
    if v.len() > 0 {
        let front = v.drop_last();
        let n = front.len();
        lemma_u16s_bytes_len(v);
        lemma_u16s_bytes_len(front);
        law_le16_round_trip(v.last());
        let b = u16s_bytes(v);
        assert(s.subrange(off, off + 2 * n) =~= u16s_bytes(front)) by {
            assert(b.subrange(0, 2 * n as int) =~= u16s_bytes(front));
            assert(s.subrange(off, off + 2 * n) =~= b.subrange(0, 2 * n as int));
        }
        law_u16_table_round_trip(s, off, front);
        let w = le16(v.last());
        let p = off + 2 * n;
        assert forall|k: int| 0 <= k < 2 implies s[p + k] == w[k] by {
            assert(s.subrange(off, off + 2 * v.len())[2 * n + k] == b[2 * n + k]);
        }
        assert(s[p + 0] == w[0] && s[p + 1] == w[1]);
        assert(u16_at(s, p) == u16_at(w, 0)) by {
            reveal(u16_at);
        }
        assert forall|i: int| 0 <= i < v.len() implies u16_table(s, off, v.len())[i] == v[i] by {
            if i < n {
                assert(u16_table(s, off, n)[i] == front[i]);
            }
        }
    }
}

/// Read a table of words.
pub fn read_u32_table(s: &[u8], off: usize, n: usize) -> (r: Vec<u32>)
    requires
        off + 4 * n <= s.len(),
    ensures
        r@ == u32_table(s@, off as int, n as nat),
{
    let mut out: Vec<u32> = Vec::new();
    let mut i: usize = 0;
    while i < n
        invariant
            i <= n,
            off + 4 * n <= s.len(),
            out@ =~= u32_table(s@, off as int, i as nat),
        decreases n - i,
    {
        out.push(read_u32_le(s, off + 4 * i));
        i = i + 1;
    }
    out
}

/// Read a table of half words.
pub fn read_u16_table(s: &[u8], off: usize, n: usize) -> (r: Vec<u16>)
    requires
        off + 2 * n <= s.len(),
    ensures
        r@ == u16_table(s@, off as int, n as nat),
{
    let mut out: Vec<u16> = Vec::new();
    let mut i: usize = 0;
    while i < n
        invariant
            i <= n,
            off + 2 * n <= s.len(),
            out@ =~= u16_table(s@, off as int, i as nat),
        decreases n - i,
    {
        out.push(read_u16_le(s, off + 2 * i));
        i = i + 1;
    }
    out
}

/// Append a table of words.
pub fn push_u32_table(out: &mut Vec<u8>, v: &[u32])
    ensures
        final(out)@ == old(out)@ + u32s_bytes(v@),
{
    let mut i: usize = 0;
    while i < v.len()
        invariant
            i <= v.len(),
            out@ =~= old(out)@ + u32s_bytes(v@.subrange(0, i as int)),
        decreases v.len() - i,
    {
        assert(v@.subrange(0, i + 1).drop_last() =~= v@.subrange(0, i as int));
        push_u32_le(out, v[i]);
        i = i + 1;
    }
    assert(v@.subrange(0, i as int) =~= v@);
}

/// Append a table of half words.
pub fn push_u16_table(out: &mut Vec<u8>, v: &[u16])
    ensures
        final(out)@ == old(out)@ + u16s_bytes(v@),
{
    let mut i: usize = 0;
    while i < v.len()
        invariant
            i <= v.len(),
            out@ =~= old(out)@ + u16s_bytes(v@.subrange(0, i as int)),
        decreases v.len() - i,
    {
        assert(v@.subrange(0, i + 1).drop_last() =~= v@.subrange(0, i as int));
        crate::wire::bytes::push_u16_le(out, v[i]);
        i = i + 1;
    }
    assert(v@.subrange(0, i as int) =~= v@);
}

/// The first `k` numbers, added up.
pub open spec fn prefix_sum(s: Seq<u32>, k: nat) -> nat
    decreases k,
{
    if k == 0 {
        0
    } else {
        prefix_sum(s, (k - 1) as nat) + s[k - 1] as nat
    }
}

/// All numbers, added up.
pub open spec fn total(s: Seq<u32>) -> nat {
    prefix_sum(s, s.len())
}

/// The running sums of `sizes`, from zero to their total, each capped at the largest `u32`.
pub open spec fn cumulative(sizes: Seq<u32>) -> Seq<u32> {
    Seq::new(sizes.len() + 1, |k: int| cap32(prefix_sum(sizes, k as nat)))
}

/// Running sums grow.
pub proof fn lemma_prefix_sum_monotone(s: Seq<u32>, a: nat, b: nat)
    requires
        a <= b,
    ensures
        prefix_sum(s, a) <= prefix_sum(s, b),
    decreases b,
{
    if a < b {
        lemma_prefix_sum_monotone(s, a, (b - 1) as nat);
    }
}

/// The sum of the first numbers looks at those alone.
pub proof fn lemma_prefix_sum_same(a: Seq<u32>, b: Seq<u32>, k: nat)
    requires
        k <= a.len(),
        k <= b.len(),
        forall|i: int| 0 <= i < k ==> a[i] == b[i],
    ensures
        prefix_sum(a, k) == prefix_sum(b, k),
    decreases k,
{
    if k > 0 {
        lemma_prefix_sum_same(a, b, (k - 1) as nat);
    }
}

/// The running sums start at zero and never decrease.
pub proof fn law_cumulative_monotone(sizes: Seq<u32>)
    ensures
        cumulative(sizes).len() == sizes.len() + 1,
        cumulative(sizes)[0] == 0,
        forall|i: int, j: int|
            0 <= i <= j <= sizes.len() ==> cumulative(sizes)[i] <= cumulative(sizes)[j],
{
    assert forall|i: int, j: int| 0 <= i <= j <= sizes.len() implies cumulative(sizes)[i]
        <= cumulative(sizes)[j] by {
        lemma_prefix_sum_monotone(sizes, i as nat, j as nat);
    }
}

/// The running sums of `sizes`.
pub fn cumulate(sizes: &[u32]) -> (r: Vec<u32>)
    ensures
        r@ == cumulative(sizes@),
{
    let mut out: Vec<u32> = Vec::new();
    let mut acc: u32 = 0;
    out.push(0);
    let mut i: usize = 0;
    while i < sizes.len()
        invariant
            i <= sizes.len(),
            acc == cap32(prefix_sum(sizes@, i as nat)),
            out@ =~= Seq::new((i + 1) as nat, |k: int| cap32(prefix_sum(sizes@, k as nat))),
        decreases sizes.len() - i,
    {
        acc = acc.saturating_add(sizes[i]);
        out.push(acc);
        i = i + 1;
    }
    assert(out@ =~= cumulative(sizes@));
    out
}

/// Bytes per row of a presence matrix for `n` banks.
pub open spec fn row_bytes(n: nat) -> nat {
    (n + 7) / 8
}

/// Bit `k` of `b`.
pub open spec fn bit(b: u8, k: int) -> bool {
    (b >> (k as u8)) & 1u8 == 1u8
}

/// The presence matrix `p` of `n` banks says that event `e` has bank `b`.
pub open spec fn present(p: Seq<u8>, n: nat, e: int, b: int) -> bool {
    bit(p[e * row_bytes(n) + b / 8], b % 8)
}

/// The byte of a presence bit lies within the matrix.
pub proof fn lemma_presence_index(events: nat, n: nat, e: int, b: int)
    requires
        0 <= e < events,
        0 <= b < n,
    ensures
        0 <= e * row_bytes(n) + b / 8 < events * row_bytes(n),
        0 <= e * row_bytes(n),
{
    let w = row_bytes(n);
    assert(b / 8 < w);
    assert(0 <= e * w && e * w + w <= events * w) by (nonlinear_arith)
        requires
            0 <= e < events,
            w >= 0,
    ;
}

/// Look up a presence bit.
pub fn read_presence(p: &[u8], n: usize, events: usize, e: usize, b: usize) -> (r: bool)
    requires
        p.len() == events * row_bytes(n as nat),
        e < events,
        b < n,
        n <= u32::MAX,
    ensures
        r == present(p@, n as nat, e as int, b as int),
{
    proof {
        lemma_presence_index(events as nat, n as nat, e as int, b as int);
    }
    let w: usize = n / 8 + (if n % 8 == 0 {
        0
    } else {
        1
    });
    assert(w == row_bytes(n as nat));
    let byte: u8 = p[e * w + b / 8];
    let k: u8 = (b % 8) as u8;
    (byte >> k) & 1 == 1
}

/// Setting bit `k` sets that bit and leaves the others alone.
pub proof fn lemma_set_bit(x: u8, k: u8, j: u8)
    by (bit_vector)
    requires
        k < 8,
        j < 8,
    ensures
        ((x | (1u8 << k)) >> j) & 1u8 == (if j == k {
            1u8
        } else {
            (x >> j) & 1u8
        }),
{
}

/// A byte of zeros has no bit set.
pub proof fn lemma_zero_bits(j: u8)
    by (bit_vector)
    requires
        j < 8,
    ensures
        (0u8 >> j) & 1u8 == 0u8,
{
}

} // verus!
