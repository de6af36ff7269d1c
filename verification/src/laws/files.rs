//! Files and chains of files: their dictionaries, tag names and configuration.

use vstd::prelude::*;
use std::sync::Arc;
use crate::error::HipoError;
#[allow(unused_imports)]
use crate::event::event::{event_structures, found, StructView};
use crate::read::chain::Chain;
#[allow(unused_imports)]
use crate::read::chain::{file_views, first_config, first_tags};
use crate::read::dictionary::{parse_evio_string, Dictionary};
#[allow(unused_imports)]
use crate::read::dictionary::{evio_text, key_index, text_len};
use crate::read::inner::FileInner;
#[allow(unused_imports)]
use crate::read::inner::FileView;
use crate::read::source::ReadAt;
use crate::read::union::union_dict;
#[allow(unused_imports)]
use crate::read::union::{
    all_schemas, dict_views, id_taken, lemma_all_laid_out, lemma_all_schemas_at, united,
};
use crate::schema::dict::Dict;
#[allow(unused_imports)]
use crate::schema::types::SchemaView;

verus! {

proof fn lemma_text_len(s: Seq<u8>, n: nat)
    requires
        n <= s.len(),
        forall|i: int| 0 <= i < n ==> s[i] != 0,
        n < s.len() ==> s[n as int] == 0,
    ensures
        text_len(s) == n,
    decreases n,
{
    if n > 0 {
        let t = s.drop_first();
        assert forall|i: int| 0 <= i < n - 1 implies t[i] != 0 by {
            assert(t[i] == s[i + 1]);
        }
        lemma_text_len(t, (n - 1) as nat);
    }
}

/// The text in the data of a structure ends before its first zero byte, or with the data; where
/// those bytes are not UTF-8 it is empty.
pub proof fn law_text_ends_at_zero(data: &[u8], r: String, n: nat)
    requires
        call_ensures(parse_evio_string, (data,), r),
        n <= data@.len(),
        forall|i: int| 0 <= i < n ==> data@[i] != 0,
        n < data@.len() ==> data@[n as int] == 0,
    ensures
        ({
            let b = data@.subrange(0, n as int);
            r@ == if vstd::utf8::valid_utf8(b) {
                vstd::utf8::decode_utf8(b)
            } else {
                Seq::empty()
            }
        }),
{
    lemma_text_len(data@, n);
}

proof fn lemma_key_index(config: Seq<(Seq<char>, Seq<char>)>, key: Seq<char>)
    ensures
        ({
            let i = key_index(config, key);
            &&& i <= config.len()
            &&& i < config.len() ==> config[i as int].0 == key
            &&& forall|k: int| 0 <= k < i ==> (#[trigger] config[k]).0 != key
        }),
    decreases config.len(),
{
    if config.len() > 0 && config[0].0 != key {
        let rest = config.drop_first();
        lemma_key_index(rest, key);
        let i = key_index(config, key);
        assert forall|k: int| 0 <= k < i implies (#[trigger] config[k]).0 != key by {
            if k > 0 {
                assert(rest[k - 1] == config[k]);
            }
        }
    }
}

/// An event of a dictionary record without schema and tag names, but with the key of group 32555
/// and item 1 and the value of item 2, sets the value of that key: in the place of the first entry
/// with the key, or as the last entry where there is none. Nothing else changes.
pub proof fn law_config_is_set<'b>(
    d: &'b mut Dictionary,
    event: &[u8],
    k: StructView,
    v: StructView,
    i: int,
)
    requires
        call_ensures(Dictionary::add_event, (d, event), ()),
        found(event_structures(event@), 120, 1) is None,
        found(event_structures(event@), 120, 2) is None,
        found(event_structures(event@), 120, 3) is None,
        found(event_structures(event@), 32555, 1) == Some(k),
        found(event_structures(event@), 32555, 2) == Some(v),
    ensures
        ({
            let key = evio_text(k.data);
            let entry = (key, evio_text(v.data));
            let b = old(d)@.config;
            let a = final(d)@.config;
            &&& final(d)@.dict == old(d)@.dict && final(d)@.tags == old(d)@.tags
            &&& (forall|j: int| 0 <= j < b.len() ==> (#[trigger] b[j]).0 != key) ==> a == b.push(
                entry,
            )
            &&& 0 <= i < b.len() && b[i].0 == key && (forall|j: int|
                0 <= j < i ==> (#[trigger] b[j]).0 != key) ==> a == b.update(i, entry)
        }),
{
    let b = old(d)@.config;
    let key = evio_text(k.data);
    lemma_key_index(b, key);
    let p = key_index(b, key);
    if 0 <= i < b.len() && b[i].0 == key && (forall|j: int|
        0 <= j < i ==> (#[trigger] b[j]).0 != key) {
        if p < i {
            assert(b[p as int].0 != key);
        }
        if i < p {
            assert(b[i].0 != key);
        }
    }
    if forall|j: int| 0 <= j < b.len() ==> (#[trigger] b[j]).0 != key {
        if p < b.len() {
            assert(b[p as int].0 != key);
        }
    }
}

/// An event of a dictionary record with a structure of group 120 and item 2 whose text is a schema
/// adds that schema; where there is room for it, it is the one found under its name from then on.
pub proof fn law_schema_is_declared<'b>(
    d: &'b mut Dictionary,
    event: &[u8],
    st: StructView,
    text: &str,
    s: crate::schema::types::Schema,
)
    requires
        call_ensures(Dictionary::add_event, (d, event), ()),
        found(event_structures(event@), 120, 2) == Some(st),
        text@ == crate::text::trimmed(evio_text(st.data)),
        call_ensures(
            crate::schema::types::Schema::parse_text,
            (text,),
            Ok::<crate::schema::types::Schema, HipoError>(s),
        ),
        old(d)@.dict.wf(),
        s@.laid_out(),
        old(d)@.dict.named(s@.name) is Some || old(d)@.dict.schemas.len() < 65536,
    ensures
        final(d)@.dict.named(s@.name) == Some(s@),
        final(d)@.dict.by_id(s@.group, s@.item) == Some(s@),
        final(d)@.tags == old(d)@.tags,
        final(d)@.config == old(d)@.config,
{
    crate::schema::dict::law_lookup_after_add(old(d)@.dict, s@, s@.name);
    crate::schema::dict::law_id_after_add(old(d)@.dict, s@, s@.group, s@.item);
}

/// The first file that has any tag names is file `f`.
proof fn lemma_first_tags(files: Seq<FileView>, f: int)
    requires
        0 <= f < files.len(),
        files[f].info.dictionary.tags.len() > 0,
        forall|j: int| 0 <= j < f ==> (#[trigger] files[j]).info.dictionary.tags.len() == 0,
    ensures
        first_tags(files) == files[f].info.dictionary.tags,
    decreases files.len(),
{
    if f > 0 {
        let rest = files.drop_first();
        assert(files[0].info.dictionary.tags.len() == 0);
        assert forall|j: int| 0 <= j < f - 1 implies (
        #[trigger] rest[j]).info.dictionary.tags.len() == 0 by {
            assert(rest[j] == files[j + 1]);
        }
        lemma_first_tags(rest, f - 1);
    }
}

proof fn lemma_no_tags(files: Seq<FileView>)
    requires
        forall|j: int| 0 <= j < files.len() ==> (#[trigger] files[j]).info.dictionary.tags.len() == 0,
    ensures
        first_tags(files).len() == 0,
    decreases files.len(),
{
    if files.len() > 0 {
        let rest = files.drop_first();
        assert(files[0].info.dictionary.tags.len() == 0);
        assert forall|j: int| 0 <= j < rest.len() implies (
        #[trigger] rest[j]).info.dictionary.tags.len() == 0 by {
            assert(rest[j] == files[j + 1]);
        }
        lemma_no_tags(rest);
    }
}

proof fn lemma_first_config(files: Seq<FileView>, f: int)
    requires
        0 <= f < files.len(),
        files[f].info.dictionary.config.len() > 0,
        forall|j: int| 0 <= j < f ==> (#[trigger] files[j]).info.dictionary.config.len() == 0,
    ensures
        first_config(files) == files[f].info.dictionary.config,
    decreases files.len(),
{
    if f > 0 {
        let rest = files.drop_first();
        assert(files[0].info.dictionary.config.len() == 0);
        assert forall|j: int| 0 <= j < f - 1 implies (
        #[trigger] rest[j]).info.dictionary.config.len() == 0 by {
            assert(rest[j] == files[j + 1]);
        }
        lemma_first_config(rest, f - 1);
    }
}

/// A chain has its files in the order in which they were given, no filter, and the tag names and
/// the configuration of the first of them that has any.
pub proof fn law_chain_of_files<S: ReadAt>(
    files: Vec<Arc<FileInner<S>>>,
    chain: Chain<S>,
    f: int,
)
    requires
        call_ensures(Chain::<S>::from_inners, (files,), Ok::<Chain<S>, HipoError>(chain)),
    ensures
        chain@.files.len() == files@.len(),
        0 <= f < files@.len() ==> chain@.files[f] == files@[f]@,
        chain@.filter is None,
        0 <= f < files@.len() && files@[f]@.info.dictionary.tags.len() > 0 && (forall|j: int|
            0 <= j < f ==> (#[trigger] files@[j])@.info.dictionary.tags.len() == 0) ==> chain@.tags
            == files@[f]@.info.dictionary.tags,
        (forall|j: int|
            0 <= j < files@.len() ==> (#[trigger] files@[j])@.info.dictionary.tags.len() == 0)
            ==> chain@.tags.len() == 0,
        0 <= f < files@.len() && files@[f]@.info.dictionary.config.len() > 0 && (forall|j: int|
            0 <= j < f ==> (#[trigger] files@[j])@.info.dictionary.config.len() == 0)
            ==> chain@.config == files@[f]@.info.dictionary.config,
{
    let fs = file_views(files@);
    assert forall|j: int| 0 <= j < files@.len() implies #[trigger] fs[j] == files@[j]@ by {}
    if 0 <= f < files@.len() && files@[f]@.info.dictionary.tags.len() > 0 && (forall|j: int|
        0 <= j < f ==> (#[trigger] files@[j])@.info.dictionary.tags.len() == 0) {
        assert forall|j: int| 0 <= j < f implies (#[trigger] fs[j]).info.dictionary.tags.len()
            == 0 by {
            assert(fs[j] == files@[j]@);
        }
        lemma_first_tags(fs, f);
    }
    if forall|j: int|
        0 <= j < files@.len() ==> (#[trigger] files@[j])@.info.dictionary.tags.len() == 0 {
        assert forall|j: int| 0 <= j < fs.len() implies (
        #[trigger] fs[j]).info.dictionary.tags.len() == 0 by {
            assert(fs[j] == files@[j]@);
        }
        lemma_no_tags(fs);
    }
    if 0 <= f < files@.len() && files@[f]@.info.dictionary.config.len() > 0 && (forall|j: int|
        0 <= j < f ==> (#[trigger] files@[j])@.info.dictionary.config.len() == 0) {
        assert forall|j: int| 0 <= j < f implies (#[trigger] fs[j]).info.dictionary.config.len()
            == 0 by {
            assert(fs[j] == files@[j]@);
        }
        lemma_first_config(fs, f);
    }
}

/// The value of a key is that of its first entry; a key without an entry has none.
pub proof fn law_config_is_looked_up<S: ReadAt>(chain: Chain<S>, key: &str, r: Option<&str>, i: int)
    requires
        call_ensures(Chain::<S>::config, (&chain, key), r),
    ensures
        0 <= i < chain@.config.len() && chain@.config[i].0 == key@ && (forall|j: int|
            0 <= j < i ==> (#[trigger] chain@.config[j]).0 != key@) ==> (r matches Some(v) && v@
            == chain@.config[i].1),
        (forall|j: int| 0 <= j < chain@.config.len() ==> (#[trigger] chain@.config[j]).0 != key@)
            ==> r is None,
{
    let c = chain@.config;
    if let Some(v) = r {
        let p = choose|p: int|
            0 <= p < c.len() && #[trigger] c[p] == (key@, v@) && forall|k: int|
                0 <= k < p ==> (#[trigger] c[k]).0 != key@;
        assert(c[p].0 == key@);
        if 0 <= i < c.len() && c[i].0 == key@ && p < i {
            if forall|j: int| 0 <= j < i ==> (#[trigger] c[j]).0 != key@ {
                assert(c[p].0 != key@);
            }
        }
        if i < p && 0 <= i {
            assert(c[i].0 != key@);
        }
    } else if 0 <= i < c.len() {
        assert(c[i].0 != key@);
    }
}

/// Schema `k` of the dictionary of file `f` and schema `j` of that of file `g` contradict each
/// other: they share a name or an id, and are not the same.
pub open spec fn contradict(a: SchemaView, b: SchemaView) -> bool {
    a != b && (a.name == b.name || (a.group == b.group && a.item == b.item))
}

/// Every schema of a union is one that went into it.
proof fn lemma_union_members(ss: Seq<SchemaView>, n: nat)
    requires
        united(ss, n) is Some,
        n <= ss.len(),
    ensures
        united(ss, n)->0.schemas.len() <= n,
        forall|i: int|
            0 <= i < united(ss, n)->0.schemas.len() ==> comes_from(
                ss,
                n as int,
                #[trigger] united(ss, n)->0.schemas[i],
            ),
    decreases n,
{
    if n > 0 {
        let m = (n - 1) as nat;
        lemma_union_members(ss, m);
        let d = united(ss, m)->0;
        let s = ss[n - 1];
        let after = united(ss, n)->0;
        assert forall|i: int| 0 <= i < after.schemas.len() implies comes_from(
            ss,
            n as int,
            #[trigger] after.schemas[i],
        ) by {
            if i < d.schemas.len() {
                assert(after.schemas[i] == d.schemas[i]);
                assert(comes_from(ss, m as int, d.schemas[i]));
                let k = choose|k: int| 0 <= k < m && #[trigger] ss[k] == d.schemas[i];
                assert(ss[k] == after.schemas[i]);
            } else {
                assert(ss[n - 1] == after.schemas[i]);
            }
        }
    }
}

/// The schema is one of the first `n`.
pub open spec fn comes_from(ss: Seq<SchemaView>, n: int, s: SchemaView) -> bool {
    exists|k: int| 0 <= k < n && #[trigger] ss[k] == s
}

proof fn lemma_union_exists(ss: Seq<SchemaView>, n: nat)
    requires
        n <= ss.len(),
        n <= 65536,
        forall|i: int, j: int|
            0 <= i < n && 0 <= j < n ==> !contradict(#[trigger] ss[i], #[trigger] ss[j]),
    ensures
        united(ss, n) is Some,
    decreases n,
{
    if n > 0 {
        let m = (n - 1) as nat;
        lemma_union_exists(ss, m);
        lemma_union_members(ss, m);
        let d = united(ss, m)->0;
        let s = ss[n - 1];
        if let Some(t) = d.named(s.name) {
            let p = d.position(s.name);
            assert(d.names(p, s.name));
            assert(comes_from(ss, m as int, d.schemas[p]));
            let k = choose|k: int| 0 <= k < m && #[trigger] ss[k] == d.schemas[p];
            assert(!contradict(ss[k], ss[n - 1]));
        } else if id_taken(d, s.group, s.item) {
            let p = choose|p: int| #[trigger] crate::read::union::has_id(d, p, s.group, s.item);
            assert(crate::read::union::has_id(d, p, s.group, s.item));
            assert(comes_from(ss, m as int, d.schemas[p]));
            let k = choose|k: int| 0 <= k < m && #[trigger] ss[k] == d.schemas[p];
            assert(!contradict(ss[k], ss[n - 1]));
            assert(d.names(p, s.name));
        }
    }
}

/// Dictionaries are united into one that knows every schema of each of them, by name and by id.
/// They are refused where two of their schemas contradict each other, and, as long as there are no
/// more schemas than ids, only there.
pub proof fn law_dictionaries_are_united(
    dicts: &[&Dict],
    labels: &[&str],
    r: Result<Dict, HipoError>,
    f: int,
    k: int,
    g: int,
    j: int,
)
    requires
        labels@.len() == dicts@.len(),
        call_ensures(union_dict, (dicts, labels), r),
        forall|i: int| 0 <= i < dicts@.len() ==> (#[trigger] dicts@[i])@.wf(),
        0 <= f < dicts@.len(),
        0 <= k < dicts@[f]@.schemas.len(),
        0 <= g < dicts@.len(),
        0 <= j < dicts@[g]@.schemas.len(),
    ensures
        r matches Ok(d) ==> {
            let s = dicts@[f]@.schemas[k];
            &&& d@.named(s.name) == Some(s)
            &&& d@.by_id(s.group, s.item) == Some(s)
            &&& !contradict(s, dicts@[g]@.schemas[j])
        },
        (forall|x: int, y: int|
            0 <= x < all_schemas(dict_views(dicts@)).len() && 0 <= y < all_schemas(
                dict_views(dicts@),
            ).len() ==> !contradict(
                #[trigger] all_schemas(dict_views(dicts@))[x],
                #[trigger] all_schemas(dict_views(dicts@))[y],
            )) && all_schemas(dict_views(dicts@)).len() <= 65536 ==> r is Ok,
{
    let dv = dict_views(dicts@);
    let all = all_schemas(dv);
    assert forall|i: int| 0 <= i < dv.len() implies (#[trigger] dv[i]).wf() by {
        assert(dv[i] == dicts@[i]@);
    }
    lemma_all_laid_out(dv);
    lemma_all_schemas_at(dv, f);
    lemma_all_schemas_at(dv, g);
    let a = all_schemas(dv.subrange(0, f)).len() + k;
    let b = all_schemas(dv.subrange(0, g)).len() + j;
    assert(dv[f].schemas[k] == all[a]);
    assert(dv[g].schemas[j] == all[b]);
    if r is Ok {
        crate::read::union::law_union_knows_every_bank(all, all.len(), a);
        crate::read::union::law_union_knows_every_bank(all, all.len(), b);
    }
    if (forall|x: int, y: int|
        0 <= x < all.len() && 0 <= y < all.len() ==> !contradict(
            #[trigger] all[x],
            #[trigger] all[y],
        )) && all.len() <= 65536 {
        lemma_union_exists(all, all.len());
    }
}

} // verus!
