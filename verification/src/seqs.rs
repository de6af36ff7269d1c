//! Facts about runs of bytes laid end to end.

use vstd::prelude::*;

verus! {

/// The runs, one after the other.
pub open spec fn concat(runs: Seq<Seq<u8>>) -> Seq<u8>
    decreases runs.len(),
{
    if runs.len() == 0 {
        Seq::empty()
    } else {
        concat(runs.drop_last()) + runs.last()
    }
}

/// Where run `k` starts.
pub open spec fn run_start(runs: Seq<Seq<u8>>, k: int) -> int {
    concat(runs.subrange(0, k)).len() as int
}

/// One run more.
pub proof fn lemma_concat_step(runs: Seq<Seq<u8>>, k: int)
    requires
        0 <= k < runs.len(),
    ensures
        concat(runs.subrange(0, k + 1)) == concat(runs.subrange(0, k)) + runs[k],
        run_start(runs, k + 1) == run_start(runs, k) + runs[k].len(),
{
    assert(runs.subrange(0, k + 1).drop_last() =~= runs.subrange(0, k));
}

/// Runs laid end to end are found where they were put.
pub proof fn lemma_concat_at(runs: Seq<Seq<u8>>, k: int)
    requires
        0 <= k < runs.len(),
    ensures
        0 <= run_start(runs, k),
        run_start(runs, k) + runs[k].len() <= concat(runs).len(),
        concat(runs).subrange(run_start(runs, k), run_start(runs, k) + runs[k].len()) =~= runs[k],
    decreases runs.len(),
{
    let front = runs.drop_last();
    if k == runs.len() - 1 {
        assert(runs.subrange(0, k) =~= front);
    } else {
        lemma_concat_at(front, k);
        assert(front.subrange(0, k) =~= runs.subrange(0, k));
        let a = run_start(runs, k);
        let b = a + runs[k].len();
        assert(concat(runs).subrange(a, b) =~= concat(front).subrange(a, b));
    }
}

/// The first runs are the front of all runs.
pub proof fn lemma_concat_prefix(runs: Seq<Seq<u8>>, k: int)
    requires
        0 <= k <= runs.len(),
    ensures
        run_start(runs, k) <= concat(runs).len(),
        concat(runs).subrange(0, run_start(runs, k)) =~= concat(runs.subrange(0, k)),
    decreases runs.len(),
{
    if k == runs.len() {
        assert(runs.subrange(0, k) =~= runs);
    } else {
        let front = runs.drop_last();
        lemma_concat_prefix(front, k);
        assert(front.subrange(0, k) =~= runs.subrange(0, k));
    }
}

/// A run in front is laid before the others.
pub proof fn lemma_concat_front(first: Seq<u8>, rest: Seq<Seq<u8>>)
    ensures
        concat(seq![first] + rest) =~= first + concat(rest),
    decreases rest.len(),
{
    let all = seq![first] + rest;
    if rest.len() == 0 {
        assert(all.drop_last() =~= Seq::<Seq<u8>>::empty());
        assert(concat(all.drop_last()) =~= Seq::<u8>::empty());
    } else {
        assert(all.drop_last() =~= seq![first] + rest.drop_last());
        lemma_concat_front(first, rest.drop_last());
        assert(all.last() == rest.last());
    }
}

/// The bytes of a sequence of vectors, as runs.
pub open spec fn runs_of(v: Seq<Vec<u8>>) -> Seq<Seq<u8>> {
    v.map_values(|c: Vec<u8>| c@)
}

} // verus!
