//! Event tags: sets of bits, and the names that stand for them.

use vstd::prelude::*;
use crate::tag::{TagRegistry, TagSet};
#[allow(unused_imports)]
use crate::tag::{
    declared_tags, has_bit, has_entry, law_contains_bits, law_intersects_bits, names_tag, tag_mask,
    tag_masks, tag_position, tags_distinct, tags_text, with_tag,
};
#[allow(unused_imports)]
use crate::text::dec;

verus! {

/// Position `k` of a word is set, counted from the least significant.
pub open spec fn set_at(bits: u32, k: u32) -> bool {
    (bits >> k) & 1u32 == 1u32
}

proof fn lemma_set_in_both(a: u32, b: u32, k: u32)
    requires
        k < 32,
    ensures
        set_at(a | b, k) == (set_at(a, k) || set_at(b, k)),
{
    assert(k < 32 ==> (((a | b) >> k) & 1u32 == 1u32) == ((a >> k) & 1u32 == 1u32 || (b >> k) & 1u32
        == 1u32)) by (bit_vector);
}

proof fn lemma_single(p: u32, k: u32)
    requires
        p < 32,
        k < 32,
    ensures
        set_at(1u32 << p, k) == (k == p),
{
    assert(p < 32 && k < 32 ==> (((1u32 << p) >> k) & 1u32 == 1u32) == (k == p)) by (bit_vector);
}

/// A set of tags is the positions that are set in its word. One set contains another where every
/// position of the other is one of its own; they intersect where they share a position; and one
/// with another has the positions of both. The set of a position has that one alone.
pub proof fn law_tag_sets(
    a: TagSet,
    b: TagSet,
    bits: u32,
    p: u32,
    from: TagSet,
    one: TagSet,
    raw: u32,
    empty: bool,
    contains: bool,
    intersects: bool,
    both: TagSet,
    k: u32,
)
    requires
        call_ensures(TagSet::from_bits, (bits,), from),
        p < 32,
        call_ensures(TagSet::from_index, (p,), one),
        call_ensures(TagSet::bits, (a,), raw),
        call_ensures(TagSet::is_empty, (a,), empty),
        call_ensures(TagSet::contains, (a, b), contains),
        call_ensures(TagSet::intersects, (a, b), intersects),
        call_ensures(TagSet::with, (a, b), both),
        k < 32,
    ensures
        from@ == bits,
        raw == a@,
        empty == (a@ == 0),
        set_at(one@, k) == (k == p),
        contains == (forall|j: u32| j < 32 && #[trigger] set_at(b@, j) ==> set_at(a@, j)),
        intersects == (exists|j: u32| j < 32 && #[trigger] set_at(a@, j) && set_at(b@, j)),
        set_at(both@, k) == (set_at(a@, k) || set_at(b@, k)),
{
    lemma_single(p, k);
    lemma_set_in_both(a@, b@, k);
    law_contains_bits(a@, b@);
    law_intersects_bits(a@, b@);
    if contains {
        assert forall|j: u32| j < 32 && #[trigger] set_at(b@, j) implies set_at(a@, j) by {
            assert(has_bit(b@, j));
        }
    } else {
        let j = choose|j: u32| j < 32 && #[trigger] has_bit(b@, j) && !has_bit(a@, j);
        assert(set_at(b@, j) && !set_at(a@, j));
    }
    if intersects {
        let j = choose|j: u32| j < 32 && #[trigger] has_bit(a@, j) && has_bit(b@, j);
        assert(set_at(a@, j) && set_at(b@, j));
    } else {
        assert forall|j: u32| j < 32 && #[trigger] set_at(a@, j) implies !set_at(b@, j) by {
            assert(has_bit(a@, j));
        }
    }
}

/// Adding a set in place adds its positions, and the positions of a set are listed in ascending
/// order, each once.
pub proof fn law_tag_positions<'b>(m: &'b mut TagSet, other: TagSet, a: TagSet, r: Vec<u32>, k: u32)
    requires
        call_ensures(TagSet::insert, (m, other), ()),
        call_ensures(TagSet::iter_bits, (a,), r),
        k < 32,
    ensures
        set_at(final(m)@, k) == (set_at(old(m)@, k) || set_at(other@, k)),
        r@.contains(k) == set_at(a@, k),
        forall|i: int, j: int| 0 <= i < j < r@.len() ==> r@[i] < r@[j],
        forall|i: int| 0 <= i < r@.len() ==> #[trigger] r@[i] < 32,
{
    lemma_set_in_both(old(m)@, other@, k);
    assert(r@.contains(k) == (k < 32 && has_bit(a@, k)));
    assert forall|i: int| 0 <= i < r@.len() implies #[trigger] r@[i] < 32 by {
        assert(r@.contains(r@[i]));
    }
}

/// A name stands for the position that the registry has with it; for none where the registry does
/// not have the name. Its word has that position alone, where it is below 32.
pub proof fn law_tag_is_looked_up(
    reg: TagRegistry,
    name: &str,
    position: Option<u32>,
    mask: Option<u32>,
    i: int,
    k: u32,
)
    requires
        tags_distinct(reg@),
        call_ensures(TagRegistry::position, (&reg, name), position),
        call_ensures(TagRegistry::mask, (&reg, name), mask),
        k < 32,
    ensures
        0 <= i < reg@.len() && reg@[i].0 == name@ ==> position == Some(reg@[i].1),
        (forall|j: int| 0 <= j < reg@.len() ==> (#[trigger] reg@[j]).0 != name@) ==> position
            is None,
        (mask is Some) == (position matches Some(p) && p < 32),
        mask matches Some(m) ==> set_at(m, k) == (position == Some(k)),
{
    let r = reg@;
    if 0 <= i < r.len() && r[i].0 == name@ {
        assert(has_entry(r, i, name@));
        let j = choose|j: int| #[trigger] has_entry(r, j, name@);
        assert(has_entry(r, j, name@));
        if i < j {
            assert(r[i].0 != r[j].0);
        } else if j < i {
            assert(r[j].0 != r[i].0);
        }
    }
    if forall|j: int| 0 <= j < r.len() ==> (#[trigger] r[j]).0 != name@ {
        assert(!names_tag(r, name@));
    }
    if let Some(p) = position {
        if p < 32 {
            lemma_single(p, k);
        }
    }
}

/// Position `k` is that of one of the names.
pub open spec fn is_position_of(reg: Seq<(Seq<char>, u32)>, names: Seq<Seq<char>>, k: u32) -> bool {
    exists|j: int|
        0 <= j < names.len() && tag_position(reg, #[trigger] names[j]) == Some(k)
}

proof fn lemma_masks(reg: Seq<(Seq<char>, u32)>, names: Seq<Seq<char>>, k: u32)
    requires
        k < 32,
    ensures
        (tag_masks(reg, names) is Some) == (forall|j: int|
            0 <= j < names.len() ==> (tag_position(reg, #[trigger] names[j]) matches Some(p) && p
                < 32)),
        tag_masks(reg, names) matches Some(m) ==> set_at(m, k) == is_position_of(reg, names, k),
    decreases names.len(),
{
    if names.len() == 0 {
        assert((0u32 >> k) & 1u32 == 0u32) by (bit_vector);
    } else {
        let front = names.drop_last();
        let last = names.last();
        lemma_masks(reg, front, k);
        assert forall|j: int| 0 <= j < front.len() implies front[j] == names[j] by {}
        assert(names[names.len() - 1] == last);
        if let (Some(a), Some(b)) = (tag_masks(reg, front), tag_mask(reg, last)) {
            lemma_set_in_both(a, b, k);
            lemma_single(tag_position(reg, last)->0, k);
            if is_position_of(reg, front, k) {
                let j = choose|j: int|
                    0 <= j < front.len() && tag_position(reg, #[trigger] front[j]) == Some(k);
                assert(tag_position(reg, names[j]) == Some(k));
            }
            if is_position_of(reg, names, k) && tag_position(reg, last) != Some(k) {
                let j = choose|j: int|
                    0 <= j < names.len() && tag_position(reg, #[trigger] names[j]) == Some(k);
                assert(tag_position(reg, front[j]) == Some(k));
            }
        }
        if forall|j: int|
            0 <= j < names.len() ==> (tag_position(reg, #[trigger] names[j]) matches Some(p) && p
                < 32) {
            assert(tag_position(reg, names[names.len() - 1]) is Some);
        }
        if tag_masks(reg, names) is Some {
            assert forall|j: int| 0 <= j < names.len() implies (tag_position(
                reg,
                #[trigger] names[j],
            ) matches Some(p) && p < 32) by {
                if j < front.len() {
                    assert(tag_position(reg, front[j]) is Some);
                }
            }
        }
    }
}

/// The word of several names has the positions of all of them and no others; there is none where
/// any of the names stands for no position below 32.
pub proof fn law_mask_of_names(reg: TagRegistry, names: &[&str], mask: Option<u32>, k: u32)
    requires
        call_ensures(TagRegistry::mask_of, (&reg, names), mask),
        k < 32,
    ensures
        (mask is Some) == (forall|j: int|
            0 <= j < names@.len() ==> (tag_position(reg@, (#[trigger] names@[j])@) matches Some(p)
                && p < 32)),
        mask matches Some(m) ==> set_at(m, k) == (exists|j: int|
            0 <= j < names@.len() && tag_position(reg@, (#[trigger] names@[j])@) == Some(k)),
{
    let all = names@.map_values(|n: &str| n@);
    lemma_masks(reg@, all, k);
    assert forall|j: int| 0 <= j < names@.len() implies all[j] == (#[trigger] names@[j])@ by {}
    if forall|j: int|
        0 <= j < names@.len() ==> (tag_position(reg@, (#[trigger] names@[j])@) matches Some(p) && p
            < 32) {
        assert forall|j: int| 0 <= j < all.len() implies (tag_position(reg@, #[trigger] all[j])
            matches Some(p) && p < 32) by {
            assert(all[j] == names@[j]@);
        }
    }
    if mask is Some {
        assert forall|j: int| 0 <= j < names@.len() implies (tag_position(
            reg@,
            (#[trigger] names@[j])@,
        ) matches Some(p) && p < 32) by {
            assert(all[j] == names@[j]@);
        }
        if is_position_of(reg@, all, k) {
            let j = choose|j: int|
                0 <= j < all.len() && tag_position(reg@, #[trigger] all[j]) == Some(k);
            assert(tag_position(reg@, names@[j]@) == Some(k));
        }
        if exists|j: int|
            0 <= j < names@.len() && tag_position(reg@, (#[trigger] names@[j])@) == Some(k) {
            let j = choose|j: int|
                0 <= j < names@.len() && tag_position(reg@, (#[trigger] names@[j])@) == Some(k);
            assert(tag_position(reg@, all[j]) == Some(k));
        }
    }
}

/// Recording a name gives it the position, and changes no other name: where the registry has the
/// name, its entry gets the position; where it has not, the entry comes last.
pub proof fn law_tag_is_recorded<'b>(
    reg: &'b mut TagRegistry,
    name: &str,
    bit: u32,
    i: int,
)
    requires
        tags_distinct(old(reg)@),
        call_ensures(TagRegistry::insert, (reg, name, bit), ()),
    ensures
        tags_distinct(final(reg)@),
        0 <= i < old(reg)@.len() && old(reg)@[i].0 != name@ ==> final(reg)@[i] == old(reg)@[i],
        0 <= i < old(reg)@.len() && old(reg)@[i].0 == name@ ==> final(reg)@[i] == (name@, bit)
            && final(reg)@.len() == old(reg)@.len(),
        (forall|j: int| 0 <= j < old(reg)@.len() ==> (#[trigger] old(reg)@[j]).0 != name@)
            ==> final(reg)@ == old(reg)@.push((name@, bit)),
{
    let r = old(reg)@;
    crate::tag::law_with_tag_keeps_distinct(r, name@, bit);
    if 0 <= i < r.len() && r[i].0 == name@ {
        assert(has_entry(r, i, name@));
        let j = choose|j: int| #[trigger] has_entry(r, j, name@);
        assert(has_entry(r, j, name@));
        if i < j {
            assert(r[i].0 != r[j].0);
        } else if j < i {
            assert(r[j].0 != r[i].0);
        }
    }
    if names_tag(r, name@) {
        let j = choose|j: int| #[trigger] has_entry(r, j, name@);
        assert(has_entry(r, j, name@));
        assert(r[j].0 == name@);
    }
}

/// The last of `names` with the name `n` is at `at`.
pub open spec fn last_given(names: Seq<(Seq<char>, u32)>, n: Seq<char>, at: int) -> bool {
    &&& 0 <= at < names.len()
    &&& names[at].0 == n
    &&& forall|j: int| at < j < names.len() ==> (#[trigger] names[j]).0 != n
}

proof fn lemma_declared(names: Seq<(Seq<char>, u32)>, n: Seq<char>, at: int)
    ensures
        tags_distinct(declared_tags(names)),
        last_given(names, n, at) ==> tag_position(declared_tags(names), n) == Some(names[at].1),
        (forall|j: int| 0 <= j < names.len() ==> (#[trigger] names[j]).0 != n) ==> tag_position(
            declared_tags(names),
            n,
        ) is None,
    decreases names.len(),
{
    if names.len() > 0 {
        let front = names.drop_last();
        let (m, bit) = names.last();
        lemma_declared(front, n, at);
        let r = declared_tags(front);
        let w = declared_tags(names);
        crate::tag::law_with_tag_keeps_distinct(r, m, bit);
        if n != m {
            lemma_other_tag(r, m, bit, n);
        }
        if last_given(names, n, at) {
            if n == m {
                assert(at == names.len() - 1) by {
                    if at < names.len() - 1 {
                        assert(names[names.len() - 1].0 != n);
                    }
                }
            } else {
                assert(last_given(front, n, at)) by {
                    assert forall|j: int| at < j < front.len() implies (#[trigger] front[j]).0
                        != n by {
                        assert(names[j].0 != n);
                    }
                }
            }
        }
        if forall|j: int| 0 <= j < names.len() ==> (#[trigger] names[j]).0 != n {
            assert(names[names.len() - 1].0 != n);
            assert forall|j: int| 0 <= j < front.len() implies (#[trigger] front[j]).0 != n by {
                assert(names[j].0 != n);
            }
        }
    } else {
        assert(!names_tag(declared_tags(names), n));
    }
}

/// Recording one name leaves the others.
proof fn lemma_other_tag(r: Seq<(Seq<char>, u32)>, m: Seq<char>, bit: u32, n: Seq<char>)
    requires
        tags_distinct(r),
        n != m,
    ensures
        tag_position(with_tag(r, m, bit), n) == tag_position(r, n),
{
    let w = with_tag(r, m, bit);
    crate::tag::law_with_tag_keeps_distinct(r, m, bit);
    if names_tag(r, n) {
        let i = choose|i: int| #[trigger] has_entry(r, i, n);
        assert(has_entry(r, i, n));
        assert(has_entry(w, i, n));
    }
    if names_tag(w, n) {
        let i = choose|i: int| #[trigger] has_entry(w, i, n);
        assert(has_entry(w, i, n));
        assert(has_entry(r, i, n));
        let k = choose|k: int| #[trigger] has_entry(r, k, n);
        assert(has_entry(r, k, n));
        if i < k {
            assert(r[i].0 != r[k].0);
        } else if k < i {
            assert(r[k].0 != r[i].0);
        }
    }
}

/// A registry that is made of a list of names has every name of the list with the position that it
/// was given last, and no other name.
pub proof fn law_registry_of_names(names: &[(&str, u32)], reg: TagRegistry, n: Seq<char>, at: int)
    requires
        call_ensures(TagRegistry::from_names, (names,), reg),
    ensures
        0 <= at < names@.len() && names@[at].0@ == n && (forall|j: int|
            at < j < names@.len() ==> (#[trigger] names@[j]).0@ != n) ==> tag_position(reg@, n)
            == Some(names@[at].1),
        (forall|j: int| 0 <= j < names@.len() ==> (#[trigger] names@[j]).0@ != n) ==> tag_position(
            reg@,
            n,
        ) is None,
{
    let all = names@.map_values(|x: (&str, u32)| (x.0@, x.1));
    lemma_declared(all, n, at);
    if 0 <= at < names@.len() && names@[at].0@ == n && (forall|j: int|
        at < j < names@.len() ==> (#[trigger] names@[j]).0@ != n) {
        assert forall|j: int| at < j < all.len() implies (#[trigger] all[j]).0 != n by {
            assert(all[j].0 == names@[j].0@);
        }
        assert(last_given(all, n, at));
    }
    if forall|j: int| 0 <= j < names@.len() ==> (#[trigger] names@[j]).0@ != n {
        assert forall|j: int| 0 <= j < all.len() implies (#[trigger] all[j]).0 != n by {
            assert(all[j].0 == names@[j].0@);
        }
    }
}

/// The text of a registry is a line for each entry, in order: the name, an equals sign and the
/// position.
pub proof fn law_registry_text(reg: TagRegistry, text: String)
    requires
        call_ensures(TagRegistry::to_text, (&reg,), text),
    ensures
        reg@.len() == 0 ==> text@.len() == 0,
        reg@.len() > 0 ==> {
            let last = reg@[reg@.len() - 1];
            text@ == tags_text(reg@.subrange(0, reg@.len() - 1)) + last.0 + seq!['='] + dec(
                last.1 as nat,
            ) + seq!['\n']
        },
{
    if reg@.len() > 0 {
        assert(reg@.drop_last() =~= reg@.subrange(0, reg@.len() - 1));
    }
}

} // verus!
