//! Ranges of event numbers: merged, and cut to the records they touch.

use core::ops::Range;

use vstd::prelude::*;

verus! {

/// Some range holds `x`.
pub open spec fn covers(rs: Seq<(u64, u64)>, x: int) -> bool {
    exists|i: int| #[trigger] holds_at(rs, i, x)
}

/// Range `i` holds `x`.
pub open spec fn holds_at(rs: Seq<(u64, u64)>, i: int, x: int) -> bool {
    0 <= i < rs.len() && rs[i].0 <= x < rs[i].1
}

/// The ranges as pairs.
pub open spec fn pairs(rs: Seq<Range<u64>>) -> Seq<(u64, u64)> {
    rs.map_values(|r: Range<u64>| (r.start, r.end))
}

/// `m` holds what `rs` hold below `total`, in ranges that are not empty, ascend, and neither
/// overlap nor touch.
pub open spec fn is_merged(m: Seq<(u64, u64)>, rs: Seq<(u64, u64)>, total: int) -> bool {
    &&& ascending(m)
    &&& forall|x: int| #[trigger] covers(m, x) <==> x < total && covers(rs, x)
}

/// The ranges are not empty, and each ends before the next starts.
pub open spec fn ascending(m: Seq<(u64, u64)>) -> bool {
    &&& forall|i: int| 0 <= i < m.len() ==> (#[trigger] m[i]).0 < m[i].1
    &&& forall|i: int, j: int|
        0 <= i < j < m.len() ==> (#[trigger] m[i]).1 < (#[trigger] m[j]).0
}

/// The ranges are ordered by where they start.
spec fn by_start(m: Seq<(u64, u64)>) -> bool {
    &&& forall|i: int| 0 <= i < m.len() ==> (#[trigger] m[i]).0 < m[i].1
    &&& forall|i: int, j: int|
        0 <= i < j < m.len() ==> (#[trigger] m[i]).0 <= (#[trigger] m[j]).0
}

/// One more range holds what it holds.
proof fn lemma_covers_insert(s: Seq<(u64, u64)>, k: int, p: (u64, u64), x: int)
    requires
        0 <= k <= s.len(),
    ensures
        covers(s.insert(k, p), x) <==> covers(s, x) || p.0 <= x < p.1,
{
    let t = s.insert(k, p);
    if covers(t, x) {
        let i = choose|i: int| #[trigger] holds_at(t, i, x);
        if i < k {
            assert(holds_at(s, i, x));
        } else if i > k {
            assert(holds_at(s, i - 1, x));
        }
    }
    if covers(s, x) {
        let i = choose|i: int| #[trigger] holds_at(s, i, x);
        if i < k {
            assert(holds_at(t, i, x));
        } else {
            assert(holds_at(t, i + 1, x));
        }
    }
    if p.0 <= x < p.1 {
        assert(holds_at(t, k, x));
    }
}

/// The last range counts.
proof fn lemma_covers_last(s: Seq<(u64, u64)>, x: int)
    requires
        s.len() > 0,
    ensures
        covers(s, x) <==> covers(s.drop_last(), x) || s.last().0 <= x < s.last().1,
{
    lemma_covers_insert(s.drop_last(), s.len() - 1, s.last(), x);
    assert(s.drop_last().insert(s.len() - 1, s.last()) =~= s);
}

/// Put a range behind those that start no later.
fn insert_range(v: &mut Vec<(u64, u64)>, p: (u64, u64))
    requires
        by_start(old(v)@),
        p.0 < p.1,
    ensures
        by_start(final(v)@),
        forall|x: int| #[trigger]
            covers(final(v)@, x) <==> covers(old(v)@, x) || p.0 <= x < p.1,
{
    let mut k: usize = v.len();
    while k > 0 && v[k - 1].0 > p.0
        invariant
            k <= v.len(),
            v@ == old(v)@,
            forall|i: int| k <= i < v.len() ==> (#[trigger] v@[i]).0 > p.0,
        decreases k,
    {
        k = k - 1;
    }
    let ghost before = v@;
    assert(forall|i: int| 0 <= i < k ==> (#[trigger] before[i]).0 <= p.0);
    v.insert(k, p);
    proof {
        assert forall|i: int, j: int| 0 <= i < j < v@.len() implies (#[trigger] v@[i]).0 <= (
        #[trigger] v@[j]).0 by {
            let a = if i < k {
                before[i]
            } else if i == k {
                p
            } else {
                before[i - 1]
            };
            let b = if j < k {
                before[j]
            } else if j == k {
                p
            } else {
                before[j - 1]
            };
            assert(v@[i] == a && v@[j] == b);
        }
        assert forall|x: int| #[trigger]
            covers(v@, x) <==> covers(before, x) || p.0 <= x < p.1 by {
            lemma_covers_insert(before, k as int, p, x);
        }
    }
}

/// Merge ranges that are ordered by where they start.
fn join_ranges(wanted: &[(u64, u64)]) -> (r: Vec<(u64, u64)>)
    requires
        by_start(wanted@),
    ensures
        ascending(r@),
        forall|x: int| #[trigger] covers(r@, x) <==> covers(wanted@, x),
{
    let mut merged: Vec<(u64, u64)> = Vec::new();
    let mut i: usize = 0;
    assert(wanted@.subrange(0, 0) =~= merged@);
    while i < wanted.len()
        invariant
            i <= wanted.len(),
            by_start(wanted@),
            ascending(merged@),
            forall|x: int| #[trigger]
                covers(merged@, x) <==> covers(wanted@.subrange(0, i as int), x),
            merged.len() > 0 ==> forall|j: int|
                i <= j < wanted.len() ==> merged@[merged.len() - 1].0 <= (#[trigger] wanted@[j]).0,
        decreases wanted.len() - i,
    {
        let (lo, hi) = wanted[i];
        let ghost before = merged@;
        let ghost seen = wanted@.subrange(0, i as int);
        let ghost now = wanted@.subrange(0, i + 1);
        assert(now.drop_last() =~= seen);
        let n: usize = merged.len();
        if n > 0 && lo <= merged[n - 1].1 {
            let (a, b) = merged[n - 1];
            let end: u64 = if hi > b {
                hi
            } else {
                b
            };
            merged.set(n - 1, (a, end));
            proof {
                assert(merged@.drop_last() =~= before.drop_last());
                assert forall|x: int| #[trigger] covers(merged@, x) <==> covers(now, x) by {
                    lemma_covers_last(merged@, x);
                    lemma_covers_last(before, x);
                    lemma_covers_last(now, x);
                    assert(covers(before, x) <==> covers(seen, x));
                }
            }
        } else {
            merged.push((lo, hi));
            proof {
                assert(merged@.drop_last() =~= before);
                assert forall|x: int| #[trigger] covers(merged@, x) <==> covers(now, x) by {
                    lemma_covers_last(merged@, x);
                    lemma_covers_last(now, x);
                    assert(covers(before, x) <==> covers(seen, x));
                }
            }
        }
        i = i + 1;
    }
    assert(wanted@.subrange(0, i as int) =~= wanted@);
    merged
}

/// Clamp ranges to the numbers below `total`, drop the empty and the inverted, and merge the
/// rest.
pub fn merge_ranges(ranges: &[Range<u64>], total: u64) -> (r: Vec<(u64, u64)>)
    ensures
        is_merged(r@, pairs(ranges@), total as int),
{
    let ghost asked = pairs(ranges@);
    let mut wanted: Vec<(u64, u64)> = Vec::new();
    let mut i: usize = 0;
    assert(asked.subrange(0, 0) =~= wanted@);
    while i < ranges.len()
        invariant
            i <= ranges.len(),
            asked == pairs(ranges@),
            by_start(wanted@),
            forall|x: int| #[trigger]
                covers(wanted@, x) <==> x < total && covers(asked.subrange(0, i as int), x),
        decreases ranges.len() - i,
    {
        let lo: u64 = if ranges[i].start < total {
            ranges[i].start
        } else {
            total
        };
        let hi: u64 = if ranges[i].end < total {
            ranges[i].end
        } else {
            total
        };
        let ghost before = wanted@;
        let ghost seen = asked.subrange(0, i as int);
        let ghost now = asked.subrange(0, i + 1);
        if lo < hi {
            insert_range(&mut wanted, (lo, hi));
        }
        proof {
            assert(now.drop_last() =~= seen);
            assert(now.last() == (ranges@[i as int].start, ranges@[i as int].end));
            assert forall|x: int| #[trigger]
                covers(wanted@, x) <==> x < total && covers(now, x) by {
                lemma_covers_last(now, x);
                assert(covers(before, x) <==> x < total && covers(seen, x));
            }
        }
        i = i + 1;
    }
    assert(asked.subrange(0, i as int) =~= asked);
    let merged = join_ranges(wanted.as_slice());
    assert forall|x: int| #[trigger]
        covers(merged@, x) <==> x < total && covers(asked, x) by {
        assert(covers(wanted@, x) <==> x < total && covers(asked, x));
    }
    merged
}

/// Range `i` touches the numbers from `a` up to `b`.
pub open spec fn touches_at(m: Seq<(u64, u64)>, i: int, a: int, b: int) -> bool {
    0 <= i < m.len() && m[i].1 > a && m[i].0 < b
}

/// Some range touches the numbers from `a` up to `b`.
pub open spec fn touches(m: Seq<(u64, u64)>, a: int, b: int) -> bool {
    exists|i: int| #[trigger] touches_at(m, i, a, b)
}

/// The ranges that touch the numbers from `a` up to `b`: from the first up to the last.
pub fn touching(m: &[(u64, u64)], a: u64, b: u64) -> (r: (usize, usize))
    requires
        ascending(m@),
    ensures
        r.0 <= r.1 <= m.len(),
        (r.0 < r.1) == touches(m@, a as int, b as int),
        forall|i: int|
            r.0 <= i < r.1 <==> #[trigger] touches_at(m@, i, a as int, b as int),
{
    let mut first: usize = 0;
    while first < m.len() && m[first].1 <= a
        invariant
            first <= m.len(),
            forall|i: int| 0 <= i < first ==> (#[trigger] m@[i]).1 <= a,
        decreases m.len() - first,
    {
        first = first + 1;
    }
    let mut last: usize = first;
    while last < m.len() && m[last].0 < b
        invariant
            first <= last <= m.len(),
            forall|i: int| first <= i < last ==> (#[trigger] m@[i]).0 < b,
        decreases m.len() - last,
    {
        last = last + 1;
    }
    proof {
        let (x, y) = (a as int, b as int);
        assert forall|i: int| first <= i < last <==> #[trigger] touches_at(m@, i, x, y) by {
            if first <= i < last {
                if i > first {
                    assert(m@[first as int].1 < m@[i].0);
                }
            }
            if touches_at(m@, i, x, y) && last <= i {
                if last < i {
                    assert(m@[last as int].1 < m@[i].0);
                }
            }
        }
        if first < last {
            assert(touches_at(m@, first as int, x, y));
        }
    }
    (first, last)
}

/// Which events of a record are asked for: those whose number one of the ranges that touch the
/// record holds.
#[derive(Debug, Clone, Copy)]
pub struct EventWindow<'r> {
    /// The number of the record's first event.
    pub record_start: u64,
    /// The ranges that touch the record.
    pub ranges: &'r [(u64, u64)],
}

impl<'r> EventWindow<'r> {
    /// Is event `ev_idx` of the record asked for?
    pub fn holds(&self, ev_idx: u64) -> (r: bool)
        ensures
            r == covers(self.ranges@, self.record_start + ev_idx),
    {
        let ghost x = self.record_start + ev_idx;
        if ev_idx > u64::MAX - self.record_start {
            proof {
                assert forall|i: int| !#[trigger] holds_at(self.ranges@, i, x) by {
                    if 0 <= i < self.ranges@.len() {
                        assert(self.ranges@[i].1 <= u64::MAX);
                    }
                }
            }
            return false;
        }
        let g: u64 = self.record_start + ev_idx;
        let mut i: usize = 0;
        while i < self.ranges.len()
            invariant
                i <= self.ranges.len(),
                x == g,
                x == self.record_start + ev_idx,
                forall|k: int| 0 <= k < i ==> !#[trigger] holds_at(self.ranges@, k, x),
            decreases self.ranges.len() - i,
        {
            if g >= self.ranges[i].0 && g < self.ranges[i].1 {
                assert(holds_at(self.ranges@, i as int, x));
                return true;
            }
            assert(!holds_at(self.ranges@, i as int, x));
            i = i + 1;
        }
        false
    }
}

/// Within a record, the ranges that touch it hold what all hold.
pub proof fn law_window_is_enough(m: Seq<(u64, u64)>, first: int, last: int, a: int, b: int, x: int)
    requires
        0 <= first <= last <= m.len(),
        forall|i: int| first <= i < last <==> #[trigger] touches_at(m, i, a, b),
        a <= x < b,
    ensures
        covers(m.subrange(first, last), x) == covers(m, x),
{
    let w = m.subrange(first, last);
    if covers(w, x) {
        let i = choose|i: int| #[trigger] holds_at(w, i, x);
        assert(holds_at(m, first + i, x));
    }
    if covers(m, x) {
        let i = choose|i: int| #[trigger] holds_at(m, i, x);
        assert(touches_at(m, i, a, b));
        assert(holds_at(w, i - first, x));
    }
}

} // verus!
