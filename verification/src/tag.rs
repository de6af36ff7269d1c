//! Event tags: the 32 bits of the tag word of an event, and the names that a file may give
//! them.

use vstd::prelude::*;
use crate::text::{
    chars_of, find_char, owned, push_dec, push_text, read_uint, same_text, split_chars, text_of,
    trim_chars,
};
#[allow(unused_imports)]
use crate::text::{
    dec, index_of, is_digit, is_space, joined, lacks, law_dec_round_trip, law_split_joined,
    law_trimmed_clean, law_uint_round_trip, lemma_dec_lacks, lemma_index_is, lemma_index_of,
    lemma_joined_push, split, texts, trim_back, trim_front, trimmed, uint_value,
};

verus! {

/// Bit `k` of `bits` is set.
pub open spec fn has_bit(bits: u32, k: u32) -> bool {
    (bits >> k) & 1u32 == 1u32
}

/// A set of up to 32 event-tag bits.
#[derive(Debug, Clone, Copy, PartialEq, Eq, Hash, Structural)]
pub struct TagSet {
    bits: u32,
}

impl View for TagSet {
    type V = u32;

    closed spec fn view(&self) -> u32 {
        self.bits
    }
}

impl TagSet {
    /// The set with this bit pattern.
    pub closed spec fn of(bits: u32) -> TagSet {
        TagSet { bits }
    }

    /// The empty set.
    pub fn empty() -> (r: Self)
        ensures
            r@ == 0,
    {
        TagSet { bits: 0 }
    }

    /// A set from a raw bit pattern.
    pub fn from_bits(bits: u32) -> (r: Self)
        ensures
            r@ == bits,
            r == TagSet::of(bits),
    {
        TagSet { bits }
    }

    /// The set of the bit at position `bit` alone.
    pub fn from_index(bit: u32) -> (r: Self)
        requires
            bit < 32,
        ensures
            r@ == 1u32 << bit,
            forall|k: u32| k < 32 ==> #[trigger] has_bit(r@, k) == (k == bit),
    {
        let r = TagSet { bits: 1u32 << bit };
        assert forall|k: u32| k < 32 implies #[trigger] has_bit(r@, k) == (k == bit) by {
            lemma_one_bit(bit, k);
        }
        r
    }

    /// The raw bit pattern: what stands in the event's tag word.
    pub fn bits(self) -> (r: u32)
        ensures
            r == self@,
    {
        self.bits
    }

    /// Whether no bit is set.
    pub fn is_empty(self) -> (r: bool)
        ensures
            r == (self@ == 0),
    {
        self.bits == 0
    }

    /// Whether every bit of `other` is set here.
    pub fn contains(self, other: TagSet) -> (r: bool)
        ensures
            r == (self@ & other@ == other@),
    {
        self.bits & other.bits == other.bits
    }

    /// Whether the two sets share a bit.
    pub fn intersects(self, other: TagSet) -> (r: bool)
        ensures
            r == (self@ & other@ != 0),
    {
        self.bits & other.bits != 0
    }

    /// This set with every bit of `other` added.
    pub fn with(self, other: TagSet) -> (r: Self)
        ensures
            r@ == self@ | other@,
    {
        TagSet { bits: self.bits | other.bits }
    }

    /// Add every bit of `other`.
    pub fn insert(&mut self, other: TagSet)
        ensures
            final(self)@ == old(self)@ | other@,
    {
        self.bits = self.bits | other.bits;
    }

    /// The positions of the set bits, ascending.
    pub fn iter_bits(self) -> (r: Vec<u32>)
        ensures
            forall|k: u32| #[trigger] r@.contains(k) <==> k < 32 && has_bit(self@, k),
            forall|i: int, j: int| 0 <= i < j < r.len() ==> r@[i] < r@[j],
    {
        let mut out: Vec<u32> = Vec::new();
        let mut b: u32 = 0;
        while b < 32
            invariant
                b <= 32,
                forall|k: u32| #[trigger] out@.contains(k) <==> k < b && has_bit(self@, k),
                forall|i: int, j: int| 0 <= i < j < out.len() ==> out@[i] < out@[j],
                forall|i: int| 0 <= i < out.len() ==> out@[i] < b,
            decreases 32 - b,
        {
            let ghost before = out@;
            if (self.bits >> b) & 1 == 1 {
                out.push(b);
                proof {
                    assert forall|k: u32| #[trigger] out@.contains(k) <==> k < b + 1 && has_bit(
                        self@,
                        k,
                    ) by {
                        if before.contains(k) {
                            let i = choose|i: int| 0 <= i < before.len() && before[i] == k;
                            assert(out@[i] == k);
                        }
                        if k == b {
                            assert(out@[before.len() as int] == k);
                        }
                        if out@.contains(k) && k != b {
                            let i = choose|i: int| 0 <= i < out@.len() && out@[i] == k;
                            assert(before[i] == k);
                        }
                    }
                }
            }
            b = b + 1;
        }
        out
    }
}

/// A single bit is where it was put.
proof fn lemma_one_bit(bit: u32, k: u32)
    by (bit_vector)
    requires
        bit < 32,
        k < 32,
    ensures
        (((1u32 << bit) >> k) & 1u32 == 1u32) == (k == bit),
{
}

/// Containing is having every bit of the other.
pub proof fn law_contains_bits(a: u32, b: u32)
    ensures
        (a & b == b) <==> (forall|k: u32| k < 32 && #[trigger] has_bit(b, k) ==> has_bit(a, k)),
{
    if a & b == b {
        assert forall|k: u32| k < 32 && #[trigger] has_bit(b, k) implies has_bit(a, k) by {
            assert((a & b == b && (b >> k) & 1u32 == 1u32 && k < 32) ==> (a >> k) & 1u32 == 1u32)
                by (bit_vector);
        }
    } else {
        let x = b & !a;
        assert(a & b != b ==> b & !a != 0u32) by (bit_vector);
        lemma_some_bit(x);
        let k = choose|k: u32| k < 32 && #[trigger] has_bit(x, k);
        assert(x == b & !a && (x >> k) & 1u32 == 1u32 && k < 32 ==> (b >> k) & 1u32 == 1u32 && (a
            >> k) & 1u32 != 1u32) by (bit_vector);
        assert(has_bit(b, k) && !has_bit(a, k));
    }
}

/// Intersecting is sharing a bit.
pub proof fn law_intersects_bits(a: u32, b: u32)
    ensures
        (a & b != 0) <==> (exists|k: u32| k < 32 && #[trigger] has_bit(a, k) && has_bit(b, k)),
{
    if a & b != 0 {
        let x = a & b;
        lemma_some_bit(x);
        let k = choose|k: u32| k < 32 && #[trigger] has_bit(x, k);
        assert(x == a & b && (x >> k) & 1u32 == 1u32 && k < 32 ==> (b >> k) & 1u32 == 1u32 && (a
            >> k) & 1u32 == 1u32) by (bit_vector);
        assert(has_bit(a, k) && has_bit(b, k));
    } else {
        assert forall|k: u32| k < 32 && #[trigger] has_bit(a, k) implies !has_bit(b, k) by {
            assert(a & b == 0u32 && (a >> k) & 1u32 == 1u32 && k < 32 ==> (b >> k) & 1u32 != 1u32)
                by (bit_vector);
        }
    }
}

/// A word that is not zero has a bit set.
proof fn lemma_some_bit(x: u32)
    requires
        x != 0,
    ensures
        exists|k: u32| k < 32 && #[trigger] has_bit(x, k),
{
    if forall|k: u32| k < 32 ==> !#[trigger] has_bit(x, k) {
        assert(!has_bit(x, 0) && !has_bit(x, 1) && !has_bit(x, 2) && !has_bit(x, 3) && !has_bit(
            x,
            4,
        ) && !has_bit(x, 5) && !has_bit(x, 6) && !has_bit(x, 7) && !has_bit(x, 8) && !has_bit(x, 9)
            && !has_bit(x, 10) && !has_bit(x, 11) && !has_bit(x, 12) && !has_bit(x, 13) && !has_bit(
            x,
            14,
        ) && !has_bit(x, 15) && !has_bit(x, 16) && !has_bit(x, 17) && !has_bit(x, 18) && !has_bit(
            x,
            19,
        ) && !has_bit(x, 20) && !has_bit(x, 21) && !has_bit(x, 22) && !has_bit(x, 23) && !has_bit(
            x,
            24,
        ) && !has_bit(x, 25) && !has_bit(x, 26) && !has_bit(x, 27) && !has_bit(x, 28) && !has_bit(
            x,
            29,
        ) && !has_bit(x, 30) && !has_bit(x, 31));
        lemma_no_bits(x);
    }
}

proof fn lemma_no_bits(x: u32)
    by (bit_vector)
    requires
        (x >> 0u32) & 1u32 != 1u32,
        (x >> 1u32) & 1u32 != 1u32,
        (x >> 2u32) & 1u32 != 1u32,
        (x >> 3u32) & 1u32 != 1u32,
        (x >> 4u32) & 1u32 != 1u32,
        (x >> 5u32) & 1u32 != 1u32,
        (x >> 6u32) & 1u32 != 1u32,
        (x >> 7u32) & 1u32 != 1u32,
        (x >> 8u32) & 1u32 != 1u32,
        (x >> 9u32) & 1u32 != 1u32,
        (x >> 10u32) & 1u32 != 1u32,
        (x >> 11u32) & 1u32 != 1u32,
        (x >> 12u32) & 1u32 != 1u32,
        (x >> 13u32) & 1u32 != 1u32,
        (x >> 14u32) & 1u32 != 1u32,
        (x >> 15u32) & 1u32 != 1u32,
        (x >> 16u32) & 1u32 != 1u32,
        (x >> 17u32) & 1u32 != 1u32,
        (x >> 18u32) & 1u32 != 1u32,
        (x >> 19u32) & 1u32 != 1u32,
        (x >> 20u32) & 1u32 != 1u32,
        (x >> 21u32) & 1u32 != 1u32,
        (x >> 22u32) & 1u32 != 1u32,
        (x >> 23u32) & 1u32 != 1u32,
        (x >> 24u32) & 1u32 != 1u32,
        (x >> 25u32) & 1u32 != 1u32,
        (x >> 26u32) & 1u32 != 1u32,
        (x >> 27u32) & 1u32 != 1u32,
        (x >> 28u32) & 1u32 != 1u32,
        (x >> 29u32) & 1u32 != 1u32,
        (x >> 30u32) & 1u32 != 1u32,
        (x >> 31u32) & 1u32 != 1u32,
    ensures
        x == 0,
{
}

impl core::ops::BitOr for TagSet {
    type Output = TagSet;

    fn bitor(self, rhs: TagSet) -> (r: TagSet) {
        TagSet { bits: self.bits | rhs.bits }
    }
}

impl vstd::std_specs::ops::BitOrSpecImpl for TagSet {
    open spec fn obeys_bitor_spec() -> bool {
        true
    }

    open spec fn bitor_req(self, rhs: TagSet) -> bool {
        true
    }

    open spec fn bitor_spec(self, rhs: TagSet) -> TagSet {
        TagSet::of(self@ | rhs@)
    }
}

impl core::ops::BitAnd for TagSet {
    type Output = TagSet;

    fn bitand(self, rhs: TagSet) -> (r: TagSet) {
        TagSet { bits: self.bits & rhs.bits }
    }
}

impl vstd::std_specs::ops::BitAndSpecImpl for TagSet {
    open spec fn obeys_bitand_spec() -> bool {
        true
    }

    open spec fn bitand_req(self, rhs: TagSet) -> bool {
        true
    }

    open spec fn bitand_spec(self, rhs: TagSet) -> TagSet {
        TagSet::of(self@ & rhs@)
    }
}

impl From<u32> for TagSet {
    fn from(bits: u32) -> (r: Self) {
        TagSet { bits }
    }
}

impl vstd::std_specs::convert::FromSpecImpl<u32> for TagSet {
    open spec fn obeys_from_spec() -> bool {
        true
    }

    open spec fn from_spec(bits: u32) -> TagSet {
        TagSet::of(bits)
    }
}

impl From<TagSet> for u32 {
    fn from(t: TagSet) -> (r: u32) {
        t.bits
    }
}

impl vstd::std_specs::convert::FromSpecImpl<TagSet> for u32 {
    open spec fn obeys_from_spec() -> bool {
        true
    }

    open spec fn from_spec(t: TagSet) -> u32 {
        t@
    }
}

/// The entry with this name.
pub open spec fn has_entry(reg: Seq<(Seq<char>, u32)>, i: int, name: Seq<char>) -> bool {
    0 <= i < reg.len() && reg[i].0 == name
}

/// Some entry has this name.
pub open spec fn names_tag(reg: Seq<(Seq<char>, u32)>, name: Seq<char>) -> bool {
    exists|i: int| #[trigger] has_entry(reg, i, name)
}

/// No name stands twice.
pub open spec fn tags_distinct(reg: Seq<(Seq<char>, u32)>) -> bool {
    forall|i: int, j: int| 0 <= i < j < reg.len() ==> (#[trigger] reg[i]).0 != (#[trigger] reg[j]).0
}

/// The position that a name stands for.
pub open spec fn tag_position(reg: Seq<(Seq<char>, u32)>, name: Seq<char>) -> Option<u32> {
    if names_tag(reg, name) {
        Some(reg[choose|i: int| #[trigger] has_entry(reg, i, name)].1)
    } else {
        None
    }
}

/// The registry with one more entry: it replaces the one of the same name, or comes last.
pub open spec fn with_tag(
    reg: Seq<(Seq<char>, u32)>,
    name: Seq<char>,
    bit: u32,
) -> Seq<(Seq<char>, u32)> {
    if names_tag(reg, name) {
        reg.update(choose|i: int| #[trigger] has_entry(reg, i, name), (name, bit))
    } else {
        reg.push((name, bit))
    }
}

/// Where names are distinct, a name has one place.
proof fn lemma_tag_place(reg: Seq<(Seq<char>, u32)>, i: int, name: Seq<char>)
    requires
        tags_distinct(reg),
        has_entry(reg, i, name),
    ensures
        names_tag(reg, name),
        (choose|k: int| #[trigger] has_entry(reg, k, name)) == i,
{
    let k = choose|k: int| #[trigger] has_entry(reg, k, name);
    assert(has_entry(reg, k, name));
    if k < i {
        assert(reg[k].0 != reg[i].0);
    } else if i < k {
        assert(reg[i].0 != reg[k].0);
    }
}

/// Adding an entry keeps names distinct.
pub proof fn law_with_tag_keeps_distinct(reg: Seq<(Seq<char>, u32)>, name: Seq<char>, bit: u32)
    requires
        tags_distinct(reg),
    ensures
        tags_distinct(with_tag(reg, name, bit)),
        tag_position(with_tag(reg, name, bit), name) == Some(bit),
{
    let w = with_tag(reg, name, bit);
    if names_tag(reg, name) {
        let p = choose|i: int| #[trigger] has_entry(reg, i, name);
        assert forall|i: int, j: int| 0 <= i < j < w.len() implies (#[trigger] w[i]).0 != (
        #[trigger] w[j]).0 by {
            assert(reg[i].0 != reg[j].0);
        }
        lemma_tag_place(w, p, name);
    } else {
        assert forall|i: int, j: int| 0 <= i < j < w.len() implies (#[trigger] w[i]).0 != (
        #[trigger] w[j]).0 by {
            assert(!has_entry(reg, i, name));
            if j < reg.len() {
                assert(reg[i].0 != reg[j].0);
            }
        }
        lemma_tag_place(w, reg.len() as int, name);
    }
}

/// The text of a registry: one `name=bit` per line.
pub open spec fn tags_text(reg: Seq<(Seq<char>, u32)>) -> Seq<char>
    decreases reg.len(),
{
    if reg.len() == 0 {
        Seq::empty()
    } else {
        tags_text(reg.drop_last()) + reg.last().0 + seq!['='] + dec(reg.last().1 as nat) + seq![
            '\n',
        ]
    }
}

/// The entry that a line declares; nothing where it is blank or malformed.
pub open spec fn tag_line(line: Seq<char>) -> Option<(Seq<char>, u32)> {
    let t = trimmed(line);
    let k = index_of(t, '=');
    let name = trimmed(t.subrange(0, k as int));
    if k >= t.len() || name.len() == 0 {
        None
    } else {
        match uint_value(trimmed(t.subrange((k + 1) as int, t.len() as int)), u32::MAX as nat) {
            Some(b) => Some((name, b as u32)),
            None => None,
        }
    }
}

/// The registry that lines declare, in order.
pub open spec fn tag_lines(lines: Seq<Seq<char>>) -> Seq<(Seq<char>, u32)>
    decreases lines.len(),
{
    if lines.len() == 0 {
        Seq::empty()
    } else {
        let before = tag_lines(lines.drop_last());
        match tag_line(lines.last()) {
            Some((name, bit)) => with_tag(before, name, bit),
            None => before,
        }
    }
}

/// The registry that a text declares.
pub open spec fn tags_parsed(text: Seq<char>) -> Seq<(Seq<char>, u32)> {
    tag_lines(split(text, '\n'))
}

/// A persisted registry of tag names.
#[derive(Debug, PartialEq, Eq)]
pub struct TagRegistry {
    /// Name and bit position, in the order in which they were declared.
    entries: Vec<(String, u32)>,
}

/// Whether some name is declared at a bit.
pub open spec fn has_name(tags: Seq<(Seq<char>, u32)>, bit: u32) -> bool {
    exists|i: int| 0 <= i < tags.len() && (#[trigger] tags[i]).1 == bit
}

impl View for TagRegistry {
    type V = Seq<(Seq<char>, u32)>;

    closed spec fn view(&self) -> Seq<(Seq<char>, u32)> {
        self.entries@.map_values(|e: (String, u32)| (e.0@, e.1))
    }
}

impl Default for TagRegistry {
    fn default() -> (r: Self)
        ensures
            r@.len() == 0,
    {
        TagRegistry::new()
    }
}

impl Clone for TagRegistry {
    fn clone(&self) -> (r: Self)
        ensures
            r@ == self@,
    {
        proof {
            use_type_invariant(self);
        }
        let mut entries: Vec<(String, u32)> = Vec::new();
        let mut i: usize = 0;
        while i < self.entries.len()
            invariant
                i <= self.entries.len(),
                entries.len() == i,
                forall|k: int|
                    0 <= k < i ==> (#[trigger] entries@[k]).0@ == self.entries@[k].0@
                        && entries@[k].1 == self.entries@[k].1,
            decreases self.entries.len() - i,
        {
            entries.push((self.entries[i].0.clone(), self.entries[i].1));
            i = i + 1;
        }
        let ghost g = entries@.map_values(|e: (String, u32)| (e.0@, e.1));
        assert(g =~= self@);
        TagRegistry { entries }
    }
}

impl TagRegistry {
    /// No name stands twice.
    #[verifier::type_invariant]
    pub open spec fn inv(self) -> bool {
        tags_distinct(self@)
    }

    /// An empty registry.
    pub fn new() -> (r: Self)
        ensures
            r@ == Seq::<(Seq<char>, u32)>::empty(),
    {
        let entries: Vec<(String, u32)> = Vec::new();
        assert(entries@.map_values(|e: (String, u32)| (e.0@, e.1)) =~= Seq::<
            (Seq<char>, u32),
        >::empty());
        TagRegistry { entries }
    }

    /// Build from a list of names and bits. A later name replaces an earlier one.
    pub fn from_names(names: &[(&str, u32)]) -> (r: Self)
        ensures
            r@ == declared_tags(names@.map_values(|n: (&str, u32)| (n.0@, n.1))),
    {
        let ghost all = names@.map_values(|n: (&str, u32)| (n.0@, n.1));
        let mut reg = TagRegistry::new();
        let mut i: usize = 0;
        assert(all.subrange(0, 0) =~= Seq::<(Seq<char>, u32)>::empty());
        while i < names.len()
            invariant
                i <= names.len(),
                all == names@.map_values(|n: (&str, u32)| (n.0@, n.1)),
                reg@ == declared_tags(all.subrange(0, i as int)),
            decreases names.len() - i,
        {
            assert(all.subrange(0, i + 1).drop_last() =~= all.subrange(0, i as int));
            reg.insert(names[i].0, names[i].1);
            i = i + 1;
        }
        assert(all.subrange(0, i as int) =~= all);
        reg
    }

    /// The place of a name.
    fn find(&self, name: &str) -> (r: Option<usize>)
        ensures
            match r {
                Some(i) => has_entry(self@, i as int, name@) && i < self.entries.len(),
                None => !names_tag(self@, name@),
            },
    {
        let mut i: usize = 0;
        while i < self.entries.len()
            invariant
                i <= self.entries.len(),
                self@.len() == self.entries.len(),
                forall|k: int| 0 <= k < i ==> (#[trigger] self@[k]).0 != name@,
            decreases self.entries.len() - i,
        {
            assert(self@[i as int].0 == self.entries@[i as int].0@);
            if same_text(self.entries[i].0.as_str(), name) {
                return Some(i);
            }
            i = i + 1;
        }
        None
    }

    /// Record one name, or replace its bit position.
    pub fn insert(&mut self, name: &str, bit: u32)
        ensures
            final(self)@ == with_tag(old(self)@, name@, bit),
    {
        proof {
            use_type_invariant(&*self);
            law_with_tag_keeps_distinct(self@, name@, bit);
        }
        let ghost before = self@;
        let at = self.find(name);
        let mut work = TagRegistry::new();
        core::mem::swap(&mut work, self);
        let TagRegistry { mut entries } = work;
        match at {
            Some(i) => {
                proof {
                    lemma_tag_place(before, i as int, name@);
                }
                entries.set(i, (owned(name), bit));
            },
            None => {
                entries.push((owned(name), bit));
            },
        }
        assert(entries@.map_values(|e: (String, u32)| (e.0@, e.1)) =~= with_tag(
            before,
            name@,
            bit,
        ));
        *self = TagRegistry { entries };
    }

    /// Whether the registry has no entries.
    pub fn is_empty(&self) -> (r: bool)
        ensures
            r == (self@.len() == 0),
    {
        self.entries.len() == 0
    }

    /// Number of named flags.
    pub fn len(&self) -> (r: usize)
        ensures
            r == self@.len(),
    {
        self.entries.len()
    }

    /// The bit position declared for `name`.
    pub fn position(&self, name: &str) -> (r: Option<u32>)
        ensures
            r == tag_position(self@, name@),
    {
        proof {
            use_type_invariant(self);
        }
        match self.find(name) {
            Some(i) => {
                proof {
                    lemma_tag_place(self@, i as int, name@);
                }
                Some(self.entries[i].1)
            },
            None => None,
        }
    }

    /// The first name declared at bit position `bit`.
    pub fn name(&self, bit: u32) -> (r: Option<&str>)
        ensures
            match r {
                Some(n) => exists|i: int|
                    0 <= i < self@.len() && #[trigger] self@[i] == (n@, bit) && forall|k: int|
                        0 <= k < i ==> (#[trigger] self@[k]).1 != bit,
                None => forall|k: int| 0 <= k < self@.len() ==> (#[trigger] self@[k]).1 != bit,
            },
            r is Some == has_name(self@, bit),
    {
        let mut i: usize = 0;
        while i < self.entries.len()
            invariant
                i <= self.entries.len(),
                self@.len() == self.entries.len(),
                forall|k: int| 0 <= k < i ==> (#[trigger] self@[k]).1 != bit,
            decreases self.entries.len() - i,
        {
            assert(self@[i as int] == (self.entries@[i as int].0@, self.entries@[i as int].1));
            if self.entries[i].1 == bit {
                return Some(self.entries[i].0.as_str());
            }
            i = i + 1;
        }
        None
    }

    /// The word with the bit of `name` alone set; nothing where the name is unknown or its
    /// position is past the last bit.
    pub fn mask(&self, name: &str) -> (r: Option<u32>)
        ensures
            r == tag_mask(self@, name@),
    {
        match self.position(name) {
            Some(p) => if p < 32 {
                Some(1u32 << p)
            } else {
                None
            },
            None => None,
        }
    }

    /// The words of all names, put together; nothing where any of them has none.
    pub fn mask_of(&self, names: &[&str]) -> (r: Option<u32>)
        ensures
            r == tag_masks(self@, names@.map_values(|n: &str| n@)),
    {
        let ghost all = names@.map_values(|n: &str| n@);
        let mut mask: u32 = 0;
        let mut i: usize = 0;
        assert(all.subrange(0, 0) =~= Seq::<Seq<char>>::empty());
        while i < names.len()
            invariant
                i <= names.len(),
                all == names@.map_values(|n: &str| n@),
                tag_masks(self@, all.subrange(0, i as int)) == Some(mask),
            decreases names.len() - i,
        {
            assert(all.subrange(0, i + 1).drop_last() =~= all.subrange(0, i as int));
            match self.mask(names[i]) {
                Some(m) => {
                    mask = mask | m;
                },
                None => {
                    proof {
                        lemma_masks_missing(self@, all, (i + 1) as int);
                    }
                    return None;
                },
            }
            i = i + 1;
        }
        assert(all.subrange(0, i as int) =~= all);
        Some(mask)
    }

    /// The names and bits, in the order in which they were declared.
    pub fn iter(&self) -> (r: &[(String, u32)])
        ensures
            r.len() == self@.len(),
            forall|i: int|
                0 <= i < r.len() ==> #[trigger] self@[i] == (r@[i].0@, r@[i].1),
    {
        self.entries.as_slice()
    }

    /// The text form: one `name=bit` per line.
    pub fn to_text(&self) -> (r: String)
        ensures
            r@ == tags_text(self@),
    {
        let mut out: Vec<char> = Vec::new();
        let mut i: usize = 0;
        assert(self@.subrange(0, 0) =~= Seq::<(Seq<char>, u32)>::empty());
        while i < self.entries.len()
            invariant
                i <= self.entries.len(),
                self@.len() == self.entries.len(),
                out@ == tags_text(self@.subrange(0, i as int)),
            decreases self.entries.len() - i,
        {
            assert(self@.subrange(0, i + 1).drop_last() =~= self@.subrange(0, i as int));
            assert(self@[i as int] == (self.entries@[i as int].0@, self.entries@[i as int].1));
            push_text(&mut out, self.entries[i].0.as_str());
            out.push('=');
            push_dec(&mut out, self.entries[i].1 as u64);
            out.push('\n');
            i = i + 1;
            assert(out@ =~= tags_text(self@.subrange(0, i as int)));
        }
        assert(self@.subrange(0, i as int) =~= self@);
        text_of(out.as_slice())
    }

    /// Read the text form. Blank and malformed lines are skipped.
    pub fn parse_text(text: &str) -> (r: Self)
        ensures
            r@ == tags_parsed(text@),
    {
        let lines = split_chars(chars_of(text).as_slice(), '\n');
        let ghost all = texts(lines@);
        let mut reg = TagRegistry::new();
        let mut i: usize = 0;
        assert(all.subrange(0, 0) =~= Seq::<Seq<char>>::empty());
        while i < lines.len()
            invariant
                i <= lines.len(),
                all == texts(lines@),
                reg@ == tag_lines(all.subrange(0, i as int)),
            decreases lines.len() - i,
        {
            assert(all.subrange(0, i + 1).drop_last() =~= all.subrange(0, i as int));
            assert(all[i as int] == lines@[i as int]@);
            if let Some((name, bit)) = parse_line(lines[i].as_slice()) {
                reg.insert(name.as_str(), bit);
            }
            i = i + 1;
        }
        assert(all.subrange(0, i as int) =~= all);
        reg
    }
}

/// The registry that a list declares, in order.
pub open spec fn declared_tags(names: Seq<(Seq<char>, u32)>) -> Seq<(Seq<char>, u32)>
    decreases names.len(),
{
    if names.len() == 0 {
        Seq::empty()
    } else {
        with_tag(declared_tags(names.drop_last()), names.last().0, names.last().1)
    }
}

/// The word with the bit of a name alone set.
pub open spec fn tag_mask(reg: Seq<(Seq<char>, u32)>, name: Seq<char>) -> Option<u32> {
    match tag_position(reg, name) {
        Some(p) => if p < 32 {
            Some(1u32 << p)
        } else {
            None
        },
        None => None,
    }
}

/// The words of names, put together.
pub open spec fn tag_masks(reg: Seq<(Seq<char>, u32)>, names: Seq<Seq<char>>) -> Option<u32>
    decreases names.len(),
{
    if names.len() == 0 {
        Some(0)
    } else {
        match (tag_masks(reg, names.drop_last()), tag_mask(reg, names.last())) {
            (Some(a), Some(b)) => Some(a | b),
            _ => None,
        }
    }
}

/// A name without a word spoils the whole.
proof fn lemma_masks_missing(reg: Seq<(Seq<char>, u32)>, names: Seq<Seq<char>>, k: int)
    requires
        0 <= k <= names.len(),
        tag_masks(reg, names.subrange(0, k)) is None,
    ensures
        tag_masks(reg, names) is None,
    decreases names.len(),
{
    if k == names.len() {
        assert(names.subrange(0, k) =~= names);
    } else {
        assert(names.drop_last().subrange(0, k) =~= names.subrange(0, k));
        lemma_masks_missing(reg, names.drop_last(), k);
    }
}

/// Read one line.
fn parse_line(line: &[char]) -> (r: Option<(String, u32)>)
    ensures
        match r {
            Some((name, bit)) => tag_line(line@) == Some((name@, bit)),
            None => tag_line(line@) is None,
        },
{
    let t = trim_chars(line);
    let k: usize = find_char(t, '=');
    if k >= t.len() {
        return None;
    }
    let name = trim_chars(vstd::slice::slice_subrange(t, 0, k));
    if name.len() == 0 {
        return None;
    }
    match read_uint(
        trim_chars(vstd::slice::slice_subrange(t, k + 1, t.len())),
        u32::MAX as u64,
    ) {
        Some(b) => Some((text_of(name), b as u32)),
        None => None,
    }
}

/// A name that the text form can hold: not empty, no equals sign or line break, and no white
/// space around it.
pub open spec fn valid_tag_name(n: Seq<char>) -> bool {
    &&& n.len() > 0
    &&& lacks(n, '=')
    &&& lacks(n, '\n')
    &&& !is_space(n[0])
    &&& !is_space(n.last())
}

/// Whether the text form can hold a name, and if not, why.
pub fn check_tag_name(name: &str) -> (r: crate::error::Result<()>)
    ensures
        match r {
            Ok(_) => valid_tag_name(name@),
            Err(e) => !valid_tag_name(name@) && (e matches crate::error::HipoError::InvalidTagName {
                name: n,
                ..
            } && n@ == name@),
        },
{
    let c = chars_of(name);
    proof {
        lemma_index_of(c@, '=');
        lemma_index_of(c@, '\n');
    }
    let reason: &'static str = if c.len() == 0 {
        "it is empty"
    } else if find_char(c.as_slice(), '=') < c.len() {
        "it contains '='"
    } else if find_char(c.as_slice(), '\n') < c.len() {
        "it contains a line break"
    } else if crate::text::check_space(c[0]) || crate::text::check_space(c[c.len() - 1]) {
        "it has white space around it"
    } else {
        return Ok(());
    };
    Err(crate::error::HipoError::InvalidTagName { name: owned(name), reason })
}

/// The lines of a registry's text.
spec fn entry_lines(reg: Seq<(Seq<char>, u32)>) -> Seq<Seq<char>> {
    reg.map_values(|e: (Seq<char>, u32)| e.0 + seq!['='] + dec(e.1 as nat))
}

/// A line is read back.
proof fn lemma_line_round_trip(name: Seq<char>, bit: u32)
    requires
        valid_tag_name(name),
    ensures
        tag_line(name + seq!['='] + dec(bit as nat)) == Some((name, bit)),
        lacks(name + seq!['='] + dec(bit as nat), '\n'),
{
    let d = dec(bit as nat);
    let t = name + seq!['='] + d;
    law_dec_round_trip(bit as nat);
    lemma_dec_lacks(bit as nat, '\n');
    assert(is_digit(d[0]) && is_digit(d.last()));
    assert(t[0] == name[0] && t.last() == d.last());
    law_trimmed_clean(t);
    let k = name.len();
    assert forall|i: int| 0 <= i < k implies #[trigger] t[i] != '=' by {
        assert(t[i] == name[i]);
    }
    assert(t[k as int] == '=');
    lemma_index_is(t, '=', k);
    assert(t.subrange(0, k as int) =~= name);
    assert(t.subrange((k + 1) as int, t.len() as int) =~= d);
    law_trimmed_clean(name);
    law_trimmed_clean(d);
    law_uint_round_trip(bit as nat, u32::MAX as nat);
    assert forall|i: int| 0 <= i < t.len() implies #[trigger] t[i] != '\n' by {
        if i < k {
            assert(t[i] == name[i]);
        } else if i > k {
            assert(t[i] == d[i - k - 1]);
        }
    }
}

/// The text of a registry is its lines, each with a line break behind it.
proof fn lemma_tags_text_joined(reg: Seq<(Seq<char>, u32)>)
    ensures
        tags_text(reg) =~= joined(entry_lines(reg).push(Seq::empty()), '\n'),
    decreases reg.len(),
{
    let lines = entry_lines(reg);
    let none = Seq::<char>::empty();
    if reg.len() == 0 {
        assert(lines.push(none) =~= seq![none]);
    } else {
        let front = reg.drop_last();
        lemma_tags_text_joined(front);
        let last = lines.last();
        assert(lines.drop_last() =~= entry_lines(front));
        lemma_joined_push(entry_lines(front), none, '\n');
        lemma_joined_push(lines, none, '\n');
        lemma_joined_push(entry_lines(front), last, '\n');
        assert(entry_lines(front).push(last) =~= lines);
    }
}

/// The lines of a registry with distinct valid names declare it again.
proof fn lemma_lines_declare(reg: Seq<(Seq<char>, u32)>)
    requires
        tags_distinct(reg),
        forall|i: int| 0 <= i < reg.len() ==> valid_tag_name((#[trigger] reg[i]).0),
    ensures
        tag_lines(entry_lines(reg)) =~= reg,
    decreases reg.len(),
{
    if reg.len() > 0 {
        let front = reg.drop_last();
        assert(entry_lines(reg).drop_last() =~= entry_lines(front));
        assert forall|i: int, j: int| 0 <= i < j < front.len() implies (#[trigger] front[i]).0 != (
        #[trigger] front[j]).0 by {
            assert(reg[i].0 != reg[j].0);
        }
        assert forall|i: int| 0 <= i < front.len() implies valid_tag_name(
            (#[trigger] front[i]).0,
        ) by {
            assert(front[i] == reg[i]);
        }
        lemma_lines_declare(front);
        let e = reg.last();
        assert(valid_tag_name(reg[reg.len() - 1].0));
        lemma_line_round_trip(e.0, e.1);
        assert(!names_tag(front, e.0)) by {
            if names_tag(front, e.0) {
                let i = choose|i: int| #[trigger] has_entry(front, i, e.0);
                assert(reg[i].0 != reg[reg.len() - 1].0);
            }
        }
    }
}

/// A registry whose names the text form can hold is read back from its text, also where the
/// white space around that was dropped.
pub proof fn law_tags_text_round_trip(reg: Seq<(Seq<char>, u32)>)
    requires
        tags_distinct(reg),
        forall|i: int| 0 <= i < reg.len() ==> valid_tag_name((#[trigger] reg[i]).0),
    ensures
        tags_parsed(tags_text(reg)) == reg,
        tags_parsed(trimmed(tags_text(reg))) == reg,
{
    let lines = entry_lines(reg);
    let none = Seq::<char>::empty();
    let all = lines.push(none);
    lemma_tags_text_joined(reg);
    assert forall|i: int| 0 <= i < all.len() implies lacks(#[trigger] all[i], '\n') by {
        if i < reg.len() {
            lemma_line_round_trip(reg[i].0, reg[i].1);
            assert(all[i] == lines[i]);
        }
    }
    law_split_joined(all, '\n');
    lemma_lines_declare(reg);
    assert(all.drop_last() =~= lines);
    assert(trimmed(none) =~= none);
    assert(tag_line(none) is None);
    if reg.len() > 0 {
        let t = tags_text(reg);
        let j = joined(lines, '\n');
        let n = reg.len() - 1;
        lemma_joined_push(lines, none, '\n');
        assert(t =~= j.push('\n'));
        lemma_joined_push(lines.drop_last(), lines.last(), '\n');
        assert(lines.drop_last().push(lines.last()) =~= lines);
        law_dec_round_trip(reg[n].1 as nat);
        assert(valid_tag_name(reg[n].0) && valid_tag_name(reg[0].0));
        assert(lines[n].last() == dec(reg[n].1 as nat).last());
        assert(j.last() == lines[n].last());
        assert(is_digit(dec(reg[n].1 as nat).last()));
        assert(lines[0][0] == reg[0].0[0]);
        assert(j[0] == lines[0][0]);
        assert(t.drop_last() =~= j);
        assert(t[0] == j[0]);
        assert(trim_front(t) == t);
        assert(trim_back(t) == trim_back(j));
        assert(trimmed(t) == j);
        assert forall|i: int| 0 <= i < lines.len() implies lacks(#[trigger] lines[i], '\n') by {
            lemma_line_round_trip(reg[i].0, reg[i].1);
        }
        law_split_joined(lines, '\n');
    } else {
        assert(trimmed(tags_text(reg)) =~= tags_text(reg));
    }
}

} // verus!
