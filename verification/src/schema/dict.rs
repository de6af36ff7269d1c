//! `Dict`: the schemas of a HIPO file.

use vstd::prelude::*;
use crate::error::{HipoError, Result};
use crate::schema::types::{Schema, SchemaIndex};
#[allow(unused_imports)]
use crate::schema::types::SchemaView;
#[allow(unused_imports)]
use crate::text::quoted_text;
use crate::text::{owned, push_quoted, push_text, same_text, text_of};

verus! {

/// How many buckets the name table has.
const BUCKETS: usize = 1024;

/// The bucket of a name with the UTF-8 bytes `b`.
spec fn bucket_of(b: Seq<u8>) -> nat
    decreases b.len(),
{
    if b.len() == 0 {
        0
    } else {
        (bucket_of(b.drop_last()) * 31 + b.last() as nat) % BUCKETS as nat
    }
}

/// The bucket of `name`.
fn bucket(name: &str) -> (r: usize)
    ensures
        r == bucket_of(vstd::utf8::encode_utf8(name@)),
        r < BUCKETS,
{
    let b = name.as_bytes();
    let mut h: usize = 0;
    let mut i: usize = 0;
    while i < b.len()
        invariant
            i <= b.len(),
            h < BUCKETS,
            h == bucket_of(b@.subrange(0, i as int)),
        decreases b.len() - i,
    {
        assert(b@.subrange(0, i + 1).drop_last() =~= b@.subrange(0, i as int));
        h = (h * 31 + b[i] as usize) % BUCKETS;
        i = i + 1;
    }
    assert(b@.subrange(0, i as int) =~= b@);
    h
}

/// What a dictionary says: its schemas in order, and the table from `(group, item)` to the
/// position of a schema.
#[verifier::ext_equal]
pub struct DictView {
    pub schemas: Seq<SchemaView>,
    pub ids: Map<(u16, u8), u16>,
}

impl DictView {
    /// Some schema has this name.
    pub open spec fn has_name(self, name: Seq<char>) -> bool {
        exists|i: int| #[trigger] self.names(i, name)
    }

    /// Schema `i` has this name.
    pub open spec fn names(self, i: int, name: Seq<char>) -> bool {
        0 <= i < self.schemas.len() && self.schemas[i].name == name
    }

    /// The position of the schema with this name.
    pub open spec fn position(self, name: Seq<char>) -> int {
        choose|i: int| #[trigger] self.names(i, name)
    }

    /// The schema with this name.
    pub open spec fn named(self, name: Seq<char>) -> Option<SchemaView> {
        if self.has_name(name) {
            Some(self.schemas[self.position(name)])
        } else {
            None
        }
    }

    /// The schema that the table holds for `(group, item)`.
    pub open spec fn by_id(self, group: u16, item: u8) -> Option<SchemaView> {
        match self.ids.get((group, item)) {
            Some(i) => Some(self.schemas[i as int]),
            None => None,
        }
    }

    /// No two schemas share a name, the table maps an id to a schema with that id, every schema is
    /// laid out, and there are no more schemas than ids.
    pub open spec fn wf(self) -> bool {
        &&& self.schemas.len() <= 65536
        &&& forall|i: int, j: int|
            0 <= i < j < self.schemas.len() ==> (#[trigger] self.schemas[i]).name != (
            #[trigger] self.schemas[j]).name
        &&& forall|k: (u16, u8)| #[trigger]
            self.ids.dom().contains(k) ==> self.ids[k] < self.schemas.len() && self.schemas[
            self.ids[k] as int].group == k.0 && self.schemas[self.ids[k] as int].item == k.1
        &&& forall|i: int| 0 <= i < self.schemas.len() ==> (#[trigger] self.schemas[i]).laid_out()
    }

    /// There is an id for a schema with this name.
    pub open spec fn admits(self, name: Seq<char>) -> bool {
        self.has_name(name) || self.schemas.len() < 65536
    }

    /// What the id table keeps once schema `i` has given way: all but the entry that leads to it.
    pub open spec fn ids_without(self, i: int) -> Map<(u16, u8), u16> {
        let id = (self.schemas[i].group, self.schemas[i].item);
        if self.ids.dom().contains(id) && self.ids[id] == i {
            self.ids.remove(id)
        } else {
            self.ids
        }
    }

    /// The dictionary with `s` added, or put in the place of the schema of the same name.
    pub open spec fn with(self, s: SchemaView) -> DictView {
        let i = if self.has_name(s.name) {
            self.position(s.name)
        } else {
            self.schemas.len() as int
        };
        DictView {
            schemas: if self.has_name(s.name) {
                self.schemas.update(i, s)
            } else {
                self.schemas.push(s)
            },
            ids: (if self.has_name(s.name) {
                self.ids_without(i)
            } else {
                self.ids
            }).insert((s.group, s.item), i as u16),
        }
    }

    /// The dictionary without schemas.
    pub open spec fn none() -> DictView {
        DictView { schemas: Seq::empty(), ids: Map::empty() }
    }
}

/// In a well-formed dictionary a name has one position.
pub proof fn lemma_position(d: DictView, i: int, name: Seq<char>)
    requires
        d.wf(),
        d.names(i, name),
    ensures
        d.has_name(name),
        d.position(name) == i,
{
    let p = d.position(name);
    assert(d.names(p, name));
    if p < i {
        assert(d.schemas[p].name != d.schemas[i].name);
    } else if i < p {
        assert(d.schemas[i].name != d.schemas[p].name);
    }
}

/// Adding keeps a dictionary well-formed, wherever there is an id for the schema.
pub proof fn law_add_keeps_wf(d: DictView, s: SchemaView)
    requires
        d.wf(),
        s.laid_out(),
        d.admits(s.name),
    ensures
        d.with(s).wf(),
{
    if d.has_name(s.name) {
        let p = d.position(s.name);
        assert(d.names(p, s.name));
        let w = d.with(s);
        assert forall|i: int, j: int| 0 <= i < j < w.schemas.len() implies (
        #[trigger] w.schemas[i]).name != (#[trigger] w.schemas[j]).name by {
            assert(d.schemas[i].name != d.schemas[j].name);
        }
    } else {
        let w = d.with(s);
        let n = d.schemas.len() as int;
        assert forall|i: int, j: int| 0 <= i < j < w.schemas.len() implies (
        #[trigger] w.schemas[i]).name != (#[trigger] w.schemas[j]).name by {
            assert(!d.names(i, s.name));
            if j < n {
                assert(d.schemas[i].name != d.schemas[j].name);
            }
        }
    }
}

/// What was added is found under its name; every other name is answered as before.
pub proof fn law_lookup_after_add(d: DictView, s: SchemaView, name: Seq<char>)
    requires
        d.wf(),
        s.laid_out(),
        d.admits(s.name),
    ensures
        d.with(s).named(name) == (if name == s.name {
            Some(s)
        } else {
            d.named(name)
        }),
{
    let w = d.with(s);
    law_add_keeps_wf(d, s);
    let slot = if d.has_name(s.name) {
        d.position(s.name)
    } else {
        d.schemas.len() as int
    };
    if d.has_name(s.name) {
        assert(d.names(slot, s.name));
    }
    assert(w.names(slot, s.name));
    lemma_position(w, slot, s.name);
    if name != s.name {
        if d.has_name(name) {
            let p = d.position(name);
            assert(d.names(p, name));
            assert(w.names(p, name));
            lemma_position(w, p, name);
        } else if w.has_name(name) {
            let p = w.position(name);
            assert(w.names(p, name));
            assert(d.names(p, name));
        }
    }
}

/// What was added is found under its id; a replaced schema is no longer found under its own, and
/// every other id is answered as before.
pub proof fn law_id_after_add(d: DictView, s: SchemaView, group: u16, item: u8)
    requires
        d.wf(),
        d.admits(s.name),
    ensures
        d.with(s).by_id(group, item) == (if group == s.group && item == s.item {
            Some(s)
        } else if d.has_name(s.name) && d.ids.get((group, item)) == Some(d.position(s.name) as u16) {
            None
        } else {
            d.by_id(group, item)
        }),
{
    if d.has_name(s.name) {
        let p = d.position(s.name);
        assert(d.names(p, s.name));
        if d.ids.dom().contains((group, item)) {
            assert(d.ids[(group, item)] < d.schemas.len());
        }
    } else if d.ids.dom().contains((group, item)) {
        assert(d.ids[(group, item)] < d.schemas.len());
    }
}

/// A schema that is found under an id has that id, and is found under its name too.
pub proof fn law_found_by_id_is_its_own(d: DictView, group: u16, item: u8)
    requires
        d.wf(),
    ensures
        d.by_id(group, item) matches Some(s) ==> s.group == group && s.item == item && d.named(
            s.name,
        ) == Some(s),
{
    if d.ids.dom().contains((group, item)) {
        let i = d.ids[(group, item)] as int;
        assert(d.names(i, d.schemas[i].name));
        lemma_position(d, i, d.schemas[i].name);
    }
}

/// What is said of a schema for which there is no id left.
pub open spec fn full_text(name: Seq<char>) -> Seq<char> {
    "dictionary exceeds 65536 schemas: a schema id is a u16, so there is none left to assign to "@
        + quoted_text(name)
}

/// Say that there is no id left.
fn full_message(name: &str) -> (r: String)
    ensures
        r@ == full_text(name@),
{
    let mut out: Vec<char> = Vec::new();
    push_text(
        &mut out,
        "dictionary exceeds 65536 schemas: a schema id is a u16, so there is none left to assign to ",
    );
    push_quoted(&mut out, name);
    assert(out@ =~= full_text(name@));
    text_of(out.as_slice())
}

/// Schema directory.
#[derive(Debug)]
pub struct Dict {
    schemas: Vec<Schema>,
    buckets: Vec<Vec<u16>>,
    by_id: SchemaIndex,
}

impl View for Dict {
    type V = DictView;

    closed spec fn view(&self) -> DictView {
        DictView { schemas: self.schemas@.map_values(|s: Schema| s@), ids: self.by_id@ }
    }
}

/// Every dictionary is well-formed.
pub proof fn law_dict_is_well_formed(d: Dict)
    requires
        d.inv(),
    ensures
        d@.wf(),
{
}

/// Every schema is listed in the bucket of its name, and the buckets list schemas only.
spec fn buckets_cover(schemas: Seq<SchemaView>, buckets: Seq<Vec<u16>>) -> bool {
    &&& buckets.len() == BUCKETS
    &&& forall|b: int, k: int|
        0 <= b < BUCKETS && 0 <= k < buckets[b].len() ==> #[trigger] buckets[b]@[k] < schemas.len()
    &&& forall|i: int|
        0 <= i < schemas.len() ==> listed(
            buckets[bucket_of(vstd::utf8::encode_utf8((#[trigger] schemas[i]).name)) as int]@,
            i,
        )
}

/// `i` is in the bucket.
spec fn listed(b: Seq<u16>, i: int) -> bool {
    exists|k: int| 0 <= k < b.len() && #[trigger] b[k] == i
}

impl Default for Dict {
    fn default() -> (r: Self)
        ensures
            r@ == DictView::none(),
    {
        Dict::new()
    }
}

impl Clone for Dict {
    fn clone(&self) -> (r: Self)
        ensures
            r@ == self@,
    {
        proof {
            use_type_invariant(self);
        }
        let mut schemas: Vec<Schema> = Vec::new();
        let mut i: usize = 0;
        while i < self.schemas.len()
            invariant
                i <= self.schemas.len(),
                schemas.len() == i,
                forall|k: int| 0 <= k < i ==> (#[trigger] schemas@[k])@ == self.schemas@[k]@,
            decreases self.schemas.len() - i,
        {
            schemas.push(self.schemas[i].clone());
            i = i + 1;
        }
        let mut buckets: Vec<Vec<u16>> = Vec::new();
        let mut b: usize = 0;
        while b < self.buckets.len()
            invariant
                b <= self.buckets.len(),
                buckets.len() == b,
                forall|k: int| 0 <= k < b ==> (#[trigger] buckets@[k])@ == self.buckets@[k]@,
            decreases self.buckets.len() - b,
        {
            buckets.push(vstd::slice::slice_to_vec(self.buckets[b].as_slice()));
            b = b + 1;
        }
        let by_id = self.by_id.copied();
        proof {
            assert(schemas@.map_values(|s: Schema| s@) =~= self@.schemas);
            assert(buckets_cover(self@.schemas, buckets@));
        }
        Dict { schemas, buckets, by_id }
    }
}

impl Dict {
    /// A dictionary is well-formed and its name table covers its schemas.
    #[verifier::type_invariant]
    pub closed spec fn inv(self) -> bool {
        self@.wf() && buckets_cover(self@.schemas, self.buckets@)
    }

    pub fn new() -> (r: Self)
        ensures
            r@ == DictView::none(),
    {
        let mut buckets: Vec<Vec<u16>> = Vec::new();
        let mut b: usize = 0;
        while b < BUCKETS
            invariant
                b <= BUCKETS,
                buckets.len() == b,
                forall|k: int| 0 <= k < b ==> (#[trigger] buckets@[k]).len() == 0,
            decreases BUCKETS - b,
        {
            buckets.push(Vec::new());
            b = b + 1;
        }
        let schemas: Vec<Schema> = Vec::new();
        let by_id = SchemaIndex::new();
        assert(schemas@.map_values(|s: Schema| s@) =~= Seq::<SchemaView>::empty());
        Dict { schemas, buckets, by_id }
    }

    /// Position of the schema named `name`.
    fn find(&self, name: &str) -> (r: Option<usize>)
        ensures
            match r {
                Some(i) => self@.names(i as int, name@) && i < self.schemas.len(),
                None => !self@.has_name(name@),
            },
    {
        proof {
            use_type_invariant(self);
        }
        let b: usize = bucket(name);
        let ghost list = self.buckets@[b as int]@;
        let mut k: usize = 0;
        while k < self.buckets[b].len()
            invariant
                self.inv(),
                b == bucket_of(vstd::utf8::encode_utf8(name@)),
                b < BUCKETS,
                list == self.buckets@[b as int]@,
                k <= list.len(),
                forall|j: int| 0 <= j < k ==> self@.schemas[#[trigger] list[j] as int].name != name@,
            decreases list.len() - k,
        {
            let i: usize = self.buckets[b][k] as usize;
            assert(self@.schemas[i as int] == self.schemas@[i as int]@);
            if same_text(self.schemas[i].name(), name) {
                return Some(i);
            }
            k = k + 1;
        }
        proof {
            if self@.has_name(name@) {
                let p = self@.position(name@);
                assert(self@.names(p, name@));
                assert(listed(list, p));
            }
        }
        None
    }

    /// Insert or replace a schema with the same name, and return the stored schema. There must
    /// be an id left for a new name: ids are 16 bits wide.
    pub fn add(&mut self, schema: Schema) -> (r: &Schema)
        requires
            old(self)@.admits(schema@.name),
        ensures
            r@ == schema@,
            final(self)@ == old(self)@.with(schema@),
    {
        match self.try_add(schema) {
            Ok(s) => s,
            Err(_) => vstd::pervasive::unreached(),
        }
    }

    /// [`Self::add`], returning an error where there is no id left for a new name.
    pub fn try_add(&mut self, schema: Schema) -> (r: Result<&Schema>)
        ensures
            match r {
                Ok(s) => old(self)@.admits(schema@.name) && s@ == schema@ && final(self)@ == old(
                    self,
                )@.with(schema@),
                Err(e) => !old(self)@.admits(schema@.name) && (e matches HipoError::SchemaParse(msg)
                    && msg@ == full_text(schema@.name)) && final(self)@ == old(self)@,
            },
    {
        proof {
            use_type_invariant(&*self);
            use_type_invariant(&schema);
        }
        let ghost before = self@;
        let ghost added = schema@;
        match self.find(schema.name()) {
            Some(i) => {
                proof {
                    lemma_position(before, i as int, added.name);
                    law_add_keeps_wf(before, added);
                }
                let mut work = Dict::new();
                core::mem::swap(&mut work, self);
                let Dict { mut schemas, buckets, mut by_id } = work;
                let (group, item) = (schemas[i].group(), schemas[i].item());
                assert(before.schemas[i as int] == schemas@[i as int]@);
                if let Some(at) = by_id.get(group, item) {
                    if at as usize == i {
                        by_id.remove(group, item);
                    }
                }
                assert(by_id@ == before.ids_without(i as int));
                by_id.insert(schema.group(), schema.item(), i as u16);
                schemas.set(i, schema);
                proof {
                    assert(schemas@.map_values(|s: Schema| s@) =~= before.with(added).schemas);
                    assert(buckets_cover(before.with(added).schemas, buckets@));
                }
                *self = Dict { schemas, buckets, by_id };
                assert(self@ =~= before.with(added));
                Ok(&self.schemas[i])
            },
            None => {
                if self.schemas.len() >= 65536 {
                    return Err(HipoError::SchemaParse(full_message(schema.name())));
                }
                proof {
                    law_add_keeps_wf(before, added);
                }
                let i: usize = self.schemas.len();
                let b: usize = bucket(schema.name());
                let mut work = Dict::new();
                core::mem::swap(&mut work, self);
                let Dict { mut schemas, mut buckets, mut by_id } = work;
                let ghost old_buckets = buckets@;
                by_id.insert(schema.group(), schema.item(), i as u16);
                schemas.push(schema);
                let mut list = buckets.remove(b);
                list.push(i as u16);
                buckets.insert(b, list);
                proof {
                    let now = before.with(added).schemas;
                    assert(schemas@.map_values(|s: Schema| s@) =~= now);
                    assert(buckets@ =~= old_buckets.update(b as int, list));
                    assert(list@ == old_buckets[b as int]@.push(i as u16));
                    assert forall|j: int| 0 <= j < now.len() implies listed(
                        buckets@[bucket_of(
                            vstd::utf8::encode_utf8((#[trigger] now[j]).name),
                        ) as int]@,
                        j,
                    ) by {
                        let h = bucket_of(vstd::utf8::encode_utf8(now[j].name)) as int;
                        if j < i {
                            assert(now[j] == before.schemas[j]);
                            let k = choose|k: int|
                                0 <= k < old_buckets[h]@.len() && #[trigger] old_buckets[h]@[k] == j;
                            assert(buckets@[h]@[k] == j);
                        } else {
                            assert(buckets@[h]@[list.len() - 1] == j);
                        }
                    }
                    assert forall|c: int, k: int|
                        0 <= c < BUCKETS && 0 <= k < buckets@[c].len() implies #[trigger] buckets@[c]@[k]
                        < now.len() by {
                        if c != b || k < list.len() - 1 {
                            assert(old_buckets[c]@[k] < before.schemas.len());
                        }
                    }
                }
                *self = Dict { schemas, buckets, by_id };
                assert(self@ =~= before.with(added));
                Ok(&self.schemas[i])
            },
        }
    }

    pub fn get(&self, name: &str) -> (r: Option<&Schema>)
        ensures
            match r {
                Some(s) => self@.named(name@) == Some(s@),
                None => self@.named(name@) is None,
            },
    {
        proof {
            use_type_invariant(self);
        }
        match self.find(name) {
            Some(i) => {
                proof {
                    lemma_position(self@, i as int, name@);
                }
                Some(&self.schemas[i])
            },
            None => None,
        }
    }

    pub fn require(&self, name: &str) -> (r: Result<&Schema>)
        ensures
            match r {
                Ok(s) => self@.named(name@) == Some(s@),
                Err(e) => self@.named(name@) is None && (e matches HipoError::UnknownSchema { name: n }
                    && n@ == name@),
            },
    {
        match self.get(name) {
            Some(s) => Ok(s),
            None => Err(HipoError::UnknownSchema { name: owned(name) }),
        }
    }

    /// Look up by `(group, item)`. What is found has that id, and is found by its name too.
    pub fn get_by_id(&self, group: u16, item: u8) -> (r: Option<&Schema>)
        ensures
            match r {
                Some(s) => self@.by_id(group, item) == Some(s@) && s@.group == group && s@.item
                    == item && self@.named(s@.name) == Some(s@),
                None => self@.by_id(group, item) is None,
            },
    {
        proof {
            use_type_invariant(self);
            law_found_by_id_is_its_own(self@, group, item);
        }
        match self.by_id.get(group, item) {
            Some(i) => {
                assert(self@.ids.dom().contains((group, item)));
                Some(&self.schemas[i as usize])
            },
            None => None,
        }
    }

    pub fn len(&self) -> (r: usize)
        ensures
            r == self@.schemas.len(),
            r <= 65536,
    {
        proof {
            use_type_invariant(self);
        }
        self.schemas.len()
    }

    pub fn is_empty(&self) -> (r: bool)
        ensures
            r == (self@.schemas.len() == 0),
    {
        self.schemas.len() == 0
    }

    /// The schemas, in the order in which they were first added.
    pub fn iter(&self) -> (r: &[Schema])
        ensures
            r.len() == self@.schemas.len(),
            forall|i: int| 0 <= i < r.len() ==> (#[trigger] r@[i])@ == self@.schemas[i],
    {
        self.schemas.as_slice()
    }
}

} // verus!
