//! How many events a scan goes through.

use vstd::prelude::*;
#[allow(unused_imports)]
use crate::read::chain::{events_base, ChainView};
#[allow(unused_imports)]
use crate::read::iter::wanted_tags;
#[allow(unused_imports)]
use crate::read::ranges::{covers, holds_at, is_merged, touches, touches_at};
#[allow(unused_imports)]
use crate::read::scan::asked;
#[allow(unused_imports)]
use crate::wire::event_index::{events_before, events_in, numbered};

verus! {

/// How many of the `n` numbers from `a` on lie in a range.
pub open spec fn covered(rs: Seq<(u64, u64)>, a: int, n: nat) -> nat
    decreases n,
{
    if n == 0 {
        0
    } else if covers(rs, a + n - 1) {
        covered(rs, a, (n - 1) as nat) + 1
    } else {
        covered(rs, a, (n - 1) as nat)
    }
}

/// Numbers can be counted in two parts.
proof fn lemma_covered_splits(rs: Seq<(u64, u64)>, a: int, n: nat, k: nat)
    ensures
        covered(rs, a, n + k) == covered(rs, a, n) + covered(rs, a + n, k),
    decreases k,
{
    if k > 0 {
        lemma_covered_splits(rs, a, n, (k - 1) as nat);
        assert(a + (n + k) - 1 == (a + n) + k - 1);
    }
}

/// Ranges that hold the same numbers count the same.
proof fn lemma_covered_same(m: Seq<(u64, u64)>, rs: Seq<(u64, u64)>, a: int, n: nat)
    requires
        forall|x: int| a <= x < a + n ==> #[trigger] covers(m, x) == covers(rs, x),
    ensures
        covered(m, a, n) == covered(rs, a, n),
    decreases n,
{
    if n > 0 {
        lemma_covered_same(m, rs, a, (n - 1) as nat);
    }
}

/// No range touches what holds none of its numbers.
proof fn lemma_untouched(m: Seq<(u64, u64)>, a: int, n: nat, k: nat)
    requires
        !touches(m, a, a + n),
        k <= n,
    ensures
        covered(m, a, k) == 0,
    decreases k,
{
    if k > 0 {
        lemma_untouched(m, a, n, (k - 1) as nat);
        if covers(m, a + k - 1) {
            let i = choose|i: int| #[trigger] holds_at(m, i, a + k - 1);
            assert(touches_at(m, i, a, a + n));
        }
    }
}

/// What is kept of ranges is among them, and what is wanted of them is kept.
proof fn lemma_filtered(m: Seq<(u64, u64)>, p: spec_fn((u64, u64)) -> bool, r: (u64, u64))
    ensures
        m.filter(p).contains(r) <==> m.contains(r) && p(r),
    decreases m.len(),
{
    reveal(Seq::filter);
    if m.len() > 0 {
        let front = m.drop_last();
        lemma_filtered(front, p, r);
        assert(m =~= front.push(m.last()));
        let w = front.filter(p);
        if front.contains(r) {
            let i = choose|i: int| 0 <= i < front.len() && front[i] == r;
            assert(m[i] == r);
        }
        if m.contains(r) && !front.contains(r) {
            let i = choose|i: int| 0 <= i < m.len() && m[i] == r;
            assert(i == m.len() - 1 || front[i] == r);
        }
        if p(m.last()) {
            assert(m.filter(p) =~= w.push(m.last()));
            if w.contains(r) {
                let i = choose|i: int| 0 <= i < w.len() && w[i] == r;
                assert(w.push(m.last())[i] == r);
            }
            if w.push(m.last()).contains(r) && !w.contains(r) {
                let i = choose|i: int|
                    0 <= i < w.push(m.last()).len() && w.push(m.last())[i] == r;
                assert(i == w.len() || w[i] == r);
            }
            assert(w.push(m.last())[w.len() as int] == m.last());
        }
        assert(m[m.len() - 1] == m.last());
    }
}

/// Within a record, the ranges that touch it hold what all hold.
proof fn lemma_filtered_covers(m: Seq<(u64, u64)>, a: int, b: int, x: int)
    requires
        a <= x < b,
    ensures
        covers(m.filter(|r: (u64, u64)| r.1 > a && r.0 < b), x) == covers(m, x),
{
    let p = |r: (u64, u64)| r.1 > a && r.0 < b;
    let w = m.filter(p);
    if covers(w, x) {
        let i = choose|i: int| #[trigger] holds_at(w, i, x);
        lemma_filtered(m, p, w[i]);
        assert(w.contains(w[i]));
        let j = choose|j: int| 0 <= j < m.len() && m[j] == w[i];
        assert(holds_at(m, j, x));
    }
    if covers(m, x) {
        let i = choose|i: int| #[trigger] holds_at(m, i, x);
        lemma_filtered(m, p, m[i]);
        assert(m.contains(m[i]));
        let j = choose|j: int| 0 <= j < w.len() && w[j] == m[i];
        assert(holds_at(w, j, x));
    }
}

/// What a window asks of a record are the numbers of its events that lie in a range.
proof fn lemma_asked(c: ChainView, m: Seq<(u64, u64)>, f: int, r: int, n: nat)
    requires
        n <= c.files[f].info.spans[r].event_count,
    ensures
        asked(c.window(Some(m), f, r), n) == covered(m, c.record_start(f, r), n),
    decreases n,
{
    if n > 0 {
        lemma_asked(c, m, f, r, (n - 1) as nat);
        let a = c.record_start(f, r);
        let b = c.record_end(f, r);
        lemma_filtered_covers(m, a, b, a + n - 1);
        assert(c.window(Some(m), f, r)->0.ranges == m.filter(
            |x: (u64, u64)| x.1 > a && x.0 < b,
        ));
    }
}

/// Without a window every event is asked for.
proof fn lemma_all_asked(n: nat)
    ensures
        asked(None, n) == n,
    decreases n,
{
    if n > 0 {
        lemma_all_asked((n - 1) as nat);
    }
}

/// The events that the index counts in the first `n` records of `ts`, those in a range alone
/// where there are ranges.
spec fn counted(c: ChainView, m: Option<Seq<(u64, u64)>>, ts: Seq<(int, int)>, n: nat) -> nat
    decreases n,
{
    if n == 0 {
        0
    } else {
        let (f, r) = ts[n - 1];
        let k = c.files[f].info.spans[r].event_count as nat;
        counted(c, m, ts, (n - 1) as nat) + match m {
            Some(m) => covered(m, c.record_start(f, r), k),
            None => k,
        }
    }
}

/// Every one of these is a record of the chain.
spec fn are_records(c: ChainView, ts: Seq<(int, int)>) -> bool {
    forall|k: int|
        0 <= k < ts.len() ==> 0 <= (#[trigger] ts[k]).0 < c.files.len() && 0 <= ts[k].1
            < c.files[ts[k].0].info.spans.len()
}

/// Only the first records count.
proof fn lemma_count_in_same(
    c: ChainView,
    m: Option<Seq<(u64, u64)>>,
    a: Seq<(int, int)>,
    b: Seq<(int, int)>,
    n: nat,
)
    requires
        n <= a.len(),
        n <= b.len(),
        forall|k: int| 0 <= k < n ==> #[trigger] a[k] == b[k],
    ensures
        c.count_in(m, a, n) == c.count_in(m, b, n),
    decreases n,
{
    if n > 0 {
        lemma_count_in_same(c, m, a, b, (n - 1) as nat);
        assert(a[n - 1] == b[n - 1]);
    }
}

/// What a scan of ranges counts, record by record.
proof fn lemma_touched_counted(c: ChainView, m: Seq<(u64, u64)>, ts: Seq<(int, int)>, n: nat)
    requires
        c.sound(),
        are_records(c, ts),
        n <= ts.len(),
    ensures
        c.count_in(Some(m), c.touched(ts, m, n), c.touched(ts, m, n).len()) == counted(
            c,
            Some(m),
            ts,
            n,
        ),
    decreases n,
{
    if n > 0 {
        lemma_touched_counted(c, m, ts, (n - 1) as nat);
        let before = c.touched(ts, m, (n - 1) as nat);
        let now = c.touched(ts, m, n);
        let (f, r) = ts[n - 1];
        assert(c.sound_at(f, r));
        let k = c.files[f].info.spans[r].event_count as nat;
        if touches(m, c.record_start(f, r), c.record_end(f, r)) {
            lemma_count_in_same(c, Some(m), now, before, before.len());
            assert(now[now.len() - 1] == (f, r));
            lemma_asked(c, m, f, r, k);
        } else {
            lemma_untouched(m, c.record_start(f, r), k, k);
        }
    }
}

/// What a scan of everything counts, record by record.
proof fn lemma_all_counted(c: ChainView, ts: Seq<(int, int)>, n: nat)
    requires
        c.sound(),
        are_records(c, ts),
        n <= ts.len(),
    ensures
        c.count_in(None, ts, n) == counted(c, None, ts, n),
    decreases n,
{
    if n > 0 {
        lemma_all_counted(c, ts, (n - 1) as nat);
        let (f, r) = ts[n - 1];
        assert(c.sound_at(f, r));
        lemma_all_asked(c.stored(f, r)->0.events());
    }
}

/// Records counted in two parts.
proof fn lemma_counted_joined(
    c: ChainView,
    m: Option<Seq<(u64, u64)>>,
    a: Seq<(int, int)>,
    b: Seq<(int, int)>,
    n: nat,
)
    requires
        n <= b.len(),
    ensures
        counted(c, m, a + b, a.len() + n) == counted(c, m, a, a.len()) + counted(c, m, b, n),
    decreases n,
{
    if n > 0 {
        lemma_counted_joined(c, m, a, b, (n - 1) as nat);
        assert((a + b)[a.len() + n - 1] == b[n - 1]);
    } else {
        lemma_counted_front(c, m, a, b, a.len());
    }
}

/// Only the first records count.
proof fn lemma_counted_front(
    c: ChainView,
    m: Option<Seq<(u64, u64)>>,
    a: Seq<(int, int)>,
    b: Seq<(int, int)>,
    n: nat,
)
    requires
        n <= a.len(),
    ensures
        counted(c, m, a + b, n) == counted(c, m, a, n),
    decreases n,
{
    if n > 0 {
        lemma_counted_front(c, m, a, b, (n - 1) as nat);
        assert((a + b)[n - 1] == a[n - 1]);
    }
}

/// The numbers of `n` events from `a` on that are counted.
spec fn in_ranges(m: Option<Seq<(u64, u64)>>, a: int, n: nat) -> nat {
    match m {
        Some(m) => covered(m, a, n),
        None => n,
    }
}

/// The records of a file are counted one behind the other.
proof fn lemma_file_counted(c: ChainView, m: Option<Seq<(u64, u64)>>, f: int, n: nat)
    requires
        c.sound(),
        wanted_tags(c.filter).len() == 0,
        0 <= f < c.files.len(),
        n <= c.files[f].info.spans.len(),
    ensures
        c.file_tasks(f, n).len() == n,
        forall|k: int| 0 <= k < n ==> #[trigger] c.file_tasks(f, n)[k] == (f, k),
        counted(c, m, c.file_tasks(f, n), n) == in_ranges(
            m,
            c.base(f) as int,
            events_before(c.files[f].info.spans, n),
        ),
    decreases n,
{
    if n > 0 {
        lemma_file_counted(c, m, f, (n - 1) as nat);
        let spans = c.files[f].info.spans;
        let before = c.file_tasks(f, (n - 1) as nat);
        let now = c.file_tasks(f, n);
        assert(now =~= before + seq![(f, n - 1)]);
        lemma_counted_front(c, m, before, seq![(f, n - 1)], (n - 1) as nat);
        assert(numbered(spans));
        assert(spans[n - 1].first_event == events_before(spans, (n - 1) as nat));
        if let Some(rs) = m {
            lemma_covered_splits(
                rs,
                c.base(f) as int,
                events_before(spans, (n - 1) as nat),
                spans[n - 1].event_count as nat,
            );
        }
    }
}

/// The files of a chain are counted one behind the other.
proof fn lemma_chain_counted(c: ChainView, m: Option<Seq<(u64, u64)>>, n: nat)
    requires
        c.sound(),
        wanted_tags(c.filter).len() == 0,
        n <= c.files.len(),
    ensures
        are_records(c, c.tasks(n)),
        counted(c, m, c.tasks(n), c.tasks(n).len()) == in_ranges(m, 0, events_base(c.files, n)),
    decreases n,
{
    if n > 0 {
        let f = n - 1;
        let spans = c.files[f].info.spans;
        lemma_chain_counted(c, m, f as nat);
        lemma_file_counted(c, m, f, spans.len());
        let a = c.tasks(f as nat);
        let b = c.file_tasks(f, spans.len());
        lemma_counted_joined(c, m, a, b, b.len());
        if let Some(rs) = m {
            lemma_covered_splits(rs, 0, events_base(c.files, f as nat), events_in(spans));
        }
        assert forall|k: int| 0 <= k < (a + b).len() implies 0 <= (#[trigger] (a + b)[k]).0
            < c.files.len() && 0 <= (a + b)[k].1 < c.files[(a + b)[k].0].info.spans.len() by {
            if k < a.len() {
                assert((a + b)[k] == a[k]);
            } else {
                assert((a + b)[k] == b[k - a.len()]);
            }
        }
    }
}

/// A scan of ranges goes through every event of the chain whose number lies in one of them, each
/// once, however the ranges overlap: the count of a scan is that of such numbers. Every record
/// must be readable and hold as many events as the index says, and none be passed over for its
/// tag.
pub proof fn law_ranges_count_each_event_once(
    c: ChainView,
    rs: Seq<(u64, u64)>,
    m: Seq<(u64, u64)>,
)
    requires
        c.sound(),
        wanted_tags(c.filter).len() == 0,
        is_merged(m, rs, c.total() as int),
    ensures
        ({
            let ts = c.touched(c.tasks(c.files.len()), m, c.tasks(c.files.len()).len());
            c.count_in(Some(m), ts, ts.len()) == covered(rs, 0, c.total())
        }),
{
    let ts = c.tasks(c.files.len());
    lemma_chain_counted(c, Some(m), c.files.len());
    lemma_touched_counted(c, m, ts, ts.len());
    lemma_covered_same(m, rs, 0, c.total());
}

/// A scan of everything goes through every event of the chain.
pub proof fn law_scan_counts_every_event(c: ChainView)
    requires
        c.sound(),
        wanted_tags(c.filter).len() == 0,
    ensures
        c.count_in(None, c.tasks(c.files.len()), c.tasks(c.files.len()).len()) == c.total(),
{
    let ts = c.tasks(c.files.len());
    lemma_chain_counted(c, None, c.files.len());
    lemma_all_counted(c, ts, ts.len());
}

} // verus!
