//! Patterns of bank names: which schemas they choose.

use vstd::prelude::*;
use crate::error::HipoError;
use crate::schema::dict::Dict;
use crate::schema::patterns::BankPatterns;
#[allow(unused_imports)]
use crate::schema::patterns::{
    all_plain, hits, is_glob, listed, pattern_matches, plain, schema_names, selected, selects,
};
use crate::schema::types::Schema;
#[allow(unused_imports)]
use crate::schema::types::SchemaView;
#[allow(unused_imports)]
use crate::text::{split, trimmed};

verus! {

/// `at` gives the places of the kept ones among `n`: in ascending order, and each place where
/// `keep` holds is one of them.
pub open spec fn kept_at(n: int, keep: spec_fn(int) -> bool, at: Seq<int>) -> bool {
    &&& forall|i: int| 0 <= i < at.len() ==> 0 <= #[trigger] at[i] < n && keep(at[i])
    &&& forall|i: int, j: int| 0 <= i < j < at.len() ==> at[i] < at[j]
    &&& forall|k: int| 0 <= k < n && #[trigger] keep(k) ==> at.contains(k)
}

proof fn lemma_listed(parts: Seq<Seq<char>>) -> (at: Seq<int>)
    ensures
        kept_at(parts.len() as int, |k: int| trimmed(parts[k]).len() > 0, at),
        listed(parts).len() == at.len(),
        forall|i: int| 0 <= i < at.len() ==> #[trigger] listed(parts)[i] == trimmed(parts[at[i]]),
    decreases parts.len(),
{
    let keep = |k: int| trimmed(parts[k]).len() > 0;
    if parts.len() == 0 {
        Seq::empty()
    } else {
        let front = parts.drop_last();
        let a = lemma_listed(front);
        let kf = |k: int| trimmed(front[k]).len() > 0;
        let n = parts.len() - 1;
        assert forall|k: int| 0 <= k < n implies #[trigger] kf(k) == keep(k) by {}
        if trimmed(parts.last()).len() == 0 {
            assert forall|i: int| 0 <= i < a.len() implies 0 <= #[trigger] a[i] < parts.len()
                && keep(a[i]) by {
                assert(kf(a[i]));
            }
            assert forall|k: int| 0 <= k < parts.len() && #[trigger] keep(k) implies a.contains(
                k,
            ) by {
                assert(kf(k));
            }
            assert forall|i: int| 0 <= i < a.len() implies #[trigger] listed(parts)[i] == trimmed(
                parts[a[i]],
            ) by {
                assert(listed(front)[i] == trimmed(front[a[i]]));
                assert(kf(a[i]));
            }
            a
        } else {
            let at = a.push(n);
            assert forall|i: int| 0 <= i < at.len() implies 0 <= #[trigger] at[i] < parts.len()
                && keep(at[i]) by {
                if i < a.len() {
                    assert(at[i] == a[i]);
                    assert(kf(a[i]));
                }
            }
            assert forall|i: int, j: int| 0 <= i < j < at.len() implies at[i] < at[j] by {
                assert(at[i] == a[i] && a[i] < n) by {
                    assert(kf(a[i]));
                }
                if j < a.len() {
                    assert(at[j] == a[j]);
                }
            }
            assert forall|k: int| 0 <= k < parts.len() && #[trigger] keep(k) implies at.contains(
                k,
            ) by {
                if k < n {
                    assert(kf(k));
                    let i = choose|i: int| 0 <= i < a.len() && a[i] == k;
                    assert(at[i] == k);
                } else {
                    assert(at[a.len() as int] == k);
                }
            }
            assert forall|i: int| 0 <= i < at.len() implies #[trigger] listed(parts)[i] == trimmed(
                parts[at[i]],
            ) by {
                if i < a.len() {
                    assert(at[i] == a[i]);
                    assert(listed(front)[i] == trimmed(front[a[i]]));
                    assert(kf(a[i]));
                    assert(listed(parts)[i] == listed(front)[i]);
                }
            }
            at
        }
    }
}

/// A list of patterns is what stands between its commas, in order, without the white space around
/// it and without the blank ones. Given one by one, patterns are taken as they are. There must be
/// at least one.
pub proof fn law_patterns_are_listed(
    text: &str,
    r: Result<BankPatterns, HipoError>,
    given: &[&str],
    g: Result<BankPatterns, HipoError>,
    i: int,
) -> (at: Seq<int>)
    requires
        call_ensures(BankPatterns::parse, (text,), r),
        call_ensures(BankPatterns::from_slice, (given,), g),
    ensures
        kept_at(
            split(text@, ',').len() as int,
            |k: int| trimmed(split(text@, ',')[k]).len() > 0,
            at,
        ),
        at.len() == 0 ==> r is Err,
        r matches Ok(p) ==> p@.len() == at.len() && (0 <= i < at.len() ==> p@[i] == trimmed(
            split(text@, ',')[at[i]],
        )),
        given@.len() == 0 ==> g is Err,
        g matches Ok(p) ==> p@.len() == given@.len() && (0 <= i < given@.len() ==> p@[i]
            == given@[i]@),
{
    let at = lemma_listed(split(text@, ','));
    at
}

/// A name that has no star, question mark or bracket, as a pattern, matches that name and no other.
pub proof fn law_plain_name_matches_itself(p: BankPatterns, name: &str, r: bool)
    requires
        call_ensures(BankPatterns::matches, (&p, name), r),
        all_plain(p@),
        plain(name@),
        p@.len() == 1,
        forall|k: int|
            0 <= k < p@[0].len() ==> #[trigger] p@[0][k] != '*' && p@[0][k] != '?' && p@[0][k]
                != '[',
    ensures
        r == (name@ == p@[0]),
{
    assert(!is_glob(p@[0]));
    if r {
        let i = choose|i: int| 0 <= i < p@.len() && #[trigger] pattern_matches(p@[i], name@);
    } else {
        assert(!pattern_matches(p@[0], name@));
    }
}

proof fn lemma_selected(ts: Seq<Seq<char>>, ss: Seq<SchemaView>, n: nat) -> (at: Seq<int>)
    requires
        n <= ss.len(),
    ensures
        kept_at(n as int, |k: int| selects(ts, ss[k].name), at),
        selected(ts, ss, n).len() == at.len(),
        forall|i: int| 0 <= i < at.len() ==> #[trigger] selected(ts, ss, n)[i] == ss[at[i]],
    decreases n,
{
    let keep = |k: int| selects(ts, ss[k].name);
    if n == 0 {
        Seq::empty()
    } else {
        let m = (n - 1) as nat;
        let a = lemma_selected(ts, ss, m);
        let before = selected(ts, ss, m);
        let now = selected(ts, ss, n);
        if selects(ts, ss[n - 1].name) {
            let at = a.push(n - 1);
            assert forall|i: int| 0 <= i < at.len() implies 0 <= #[trigger] at[i] < n && keep(
                at[i],
            ) by {
                if i < a.len() {
                    assert(at[i] == a[i]);
                    assert(keep(a[i]));
                }
            }
            assert forall|i: int, j: int| 0 <= i < j < at.len() implies at[i] < at[j] by {
                assert(at[i] == a[i] && keep(a[i]));
                if j < a.len() {
                    assert(at[j] == a[j]);
                }
            }
            assert forall|k: int| 0 <= k < n && #[trigger] keep(k) implies at.contains(k) by {
                if k < m {
                    assert(a.contains(k));
                    let i = choose|i: int| 0 <= i < a.len() && a[i] == k;
                    assert(at[i] == k);
                } else {
                    assert(at[a.len() as int] == k);
                }
            }
            assert forall|i: int| 0 <= i < at.len() implies #[trigger] now[i] == ss[at[i]] by {
                if i < a.len() {
                    assert(at[i] == a[i] && now[i] == before[i]);
                }
            }
            at
        } else {
            assert forall|i: int| 0 <= i < a.len() implies 0 <= #[trigger] a[i] < n && keep(
                a[i],
            ) by {
                assert(keep(a[i]));
            }
            assert forall|i: int| 0 <= i < a.len() implies #[trigger] now[i] == ss[a[i]] by {
                assert(now[i] == before[i]);
            }
            a
        }
    }
}

/// The pattern matches the name of one of the schemas.
pub open spec fn matches_some(t: Seq<char>, ss: Seq<SchemaView>) -> bool {
    exists|k: int| 0 <= k < ss.len() && #[trigger] pattern_matches(t, ss[k].name)
}

/// Patterns choose, in the order of the dictionary, every schema whose name one of them matches,
/// and no other. Each pattern must match at least one.
pub proof fn law_patterns_choose_schemas<'d>(
    p: BankPatterns,
    dict: &'d Dict,
    v: Vec<&'d Schema>,
    i: int,
) -> (at: Seq<int>)
    requires
        call_ensures(BankPatterns::resolve, (&p, dict), Ok::<Vec<&'d Schema>, HipoError>(v)),
        all_plain(p@),
        all_plain(schema_names(dict@.schemas)),
    ensures
        kept_at(
            dict@.schemas.len() as int,
            |k: int|
                exists|t: int|
                    0 <= t < p@.len() && #[trigger] pattern_matches(p@[t], dict@.schemas[k].name),
            at,
        ),
        v@.len() == at.len(),
        0 <= i < at.len() ==> v@[i]@ == dict@.schemas[at[i]],
        forall|t: int| 0 <= t < p@.len() ==> matches_some(#[trigger] p@[t], dict@.schemas),
{
    let ss = dict@.schemas;
    let at = lemma_selected(p@, ss, ss.len());
    let views = v@.map_values(|s: &Schema| s@);
    assert(views.len() == v@.len());
    if 0 <= i < at.len() {
        assert(views[i] == v@[i]@);
    }
    let a = |k: int| selects(p@, ss[k].name);
    let b = |k: int|
        exists|t: int| 0 <= t < p@.len() && #[trigger] pattern_matches(p@[t], ss[k].name);
    assert forall|k: int| #[trigger] a(k) == b(k) by {}
    assert(kept_at(ss.len() as int, a, at));
    assert(kept_at(ss.len() as int, b, at)) by {
        assert forall|x: int| 0 <= x < at.len() implies 0 <= #[trigger] at[x] < ss.len() && b(
            at[x],
        ) by {
            assert(a(at[x]));
        }
        assert forall|k: int| 0 <= k < ss.len() && #[trigger] b(k) implies at.contains(k) by {
            assert(a(k));
        }
    }
    assert forall|t: int| 0 <= t < p@.len() implies matches_some(#[trigger] p@[t], ss) by {
        assert(hits(p@[t], ss, ss.len()));
    }
    at
}

} // verus!
