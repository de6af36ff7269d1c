//! The dictionary of a chain: every bank that any of its files declares.
//!
//! A bank that only some files declare is no conflict. The same name with another layout is one,
//! and so is the same id under another name: banks are found by id, so one would be decoded as
//! the other.

use vstd::prelude::*;
use crate::error::{HipoError, Result};
use crate::schema::dict::Dict;
#[allow(unused_imports)]
use crate::schema::dict::{full_text, law_add_keeps_wf, law_lookup_after_add, DictView};
use crate::schema::types::Schema;
#[allow(unused_imports)]
use crate::schema::types::SchemaView;
use crate::text::{push_dec, push_text, text_of};
#[allow(unused_imports)]
use crate::text::dec;

verus! {

/// Schema `k` of the dictionary has this id.
pub open spec fn has_id(d: DictView, k: int, group: u16, item: u8) -> bool {
    0 <= k < d.schemas.len() && d.schemas[k].group == group && d.schemas[k].item == item
}

/// Some schema of the dictionary has this id.
pub open spec fn id_taken(d: DictView, group: u16, item: u8) -> bool {
    exists|k: int| #[trigger] has_id(d, k, group, item)
}

/// The dictionary with one more schema; nothing where that contradicts it.
pub open spec fn united_with(d: DictView, s: SchemaView) -> Option<DictView> {
    match d.named(s.name) {
        Some(t) => if t == s {
            Some(d)
        } else {
            None
        },
        None => if id_taken(d, s.group, s.item) || d.schemas.len() >= 65536 {
            None
        } else {
            Some(d.with(s))
        },
    }
}

/// The dictionary of the first `n` schemas; nothing where two of them contradict each other.
pub open spec fn united(ss: Seq<SchemaView>, n: nat) -> Option<DictView>
    decreases n,
{
    if n == 0 {
        Some(DictView::none())
    } else {
        match united(ss, (n - 1) as nat) {
            Some(d) => united_with(d, ss[n - 1]),
            None => None,
        }
    }
}

/// The schemas of all dictionaries, in order.
pub open spec fn all_schemas(dicts: Seq<DictView>) -> Seq<SchemaView>
    decreases dicts.len(),
{
    if dicts.len() == 0 {
        Seq::empty()
    } else {
        all_schemas(dicts.drop_last()) + dicts.last().schemas
    }
}

/// The dictionary that these dictionaries make together; nothing where they contradict each
/// other.
pub open spec fn union_of(dicts: Seq<DictView>) -> Option<DictView> {
    united(all_schemas(dicts), all_schemas(dicts).len())
}

/// A contradiction stays one.
proof fn lemma_united_fails(ss: Seq<SchemaView>, a: nat, b: nat)
    requires
        a <= b,
        united(ss, a) is None,
    ensures
        united(ss, b) is None,
    decreases b,
{
    if a < b {
        lemma_united_fails(ss, a, (b - 1) as nat);
    }
}

/// Where the schemas of dictionary `f` stand among all.
pub(crate) proof fn lemma_all_schemas_at(dicts: Seq<DictView>, f: int)
    requires
        0 <= f < dicts.len(),
    ensures
        all_schemas(dicts.subrange(0, f + 1)).len() == all_schemas(dicts.subrange(0, f)).len()
            + dicts[f].schemas.len(),
        all_schemas(dicts.subrange(0, f + 1)).len() <= all_schemas(dicts).len(),
        forall|k: int|
            0 <= k < dicts[f].schemas.len() ==> #[trigger] dicts[f].schemas[k] == all_schemas(
                dicts,
            )[all_schemas(dicts.subrange(0, f)).len() + k],
    decreases dicts.len(),
{
    let upto = dicts.subrange(0, f + 1);
    assert(upto.drop_last() =~= dicts.subrange(0, f));
    assert(upto.last() == dicts[f]);
    if f == dicts.len() - 1 {
        assert(upto =~= dicts);
    } else {
        let front = dicts.drop_last();
        lemma_all_schemas_at(front, f);
        assert(front.subrange(0, f + 1) =~= upto);
        assert(front.subrange(0, f) =~= dicts.subrange(0, f));
    }
}

/// The dictionary of a chain knows every bank of every file as that file does, by name and by
/// id.
pub proof fn law_union_knows_every_bank(ss: Seq<SchemaView>, n: nat, k: int)
    requires
        united(ss, n) is Some,
        n <= ss.len(),
        0 <= k < n,
        forall|i: int| 0 <= i < ss.len() ==> (#[trigger] ss[i]).laid_out(),
    ensures
        united(ss, n)->0.named(ss[k].name) == Some(ss[k]),
        united(ss, n)->0.by_id(ss[k].group, ss[k].item) == Some(ss[k]),
{
    lemma_united_wf(ss, n);
    lemma_united_holds(ss, n, k);
}

/// Whatever `d1` says of an id, `d2` says too.
pub open spec fn extends(d1: DictView, d2: DictView) -> bool {
    forall|group: u16, item: u8|
        (#[trigger] d1.by_id(group, item)) is Some ==> d2.by_id(group, item) == d1.by_id(
            group,
            item,
        )
}

/// The union of dictionaries says all that each of them says.
pub proof fn law_union_extends(dicts: Seq<DictView>, f: int)
    requires
        union_of(dicts) is Some,
        forall|i: int| 0 <= i < dicts.len() ==> (#[trigger] dicts[i]).wf(),
        0 <= f < dicts.len(),
    ensures
        extends(dicts[f], union_of(dicts)->0),
{
    let d = dicts[f];
    let all = all_schemas(dicts);
    lemma_all_laid_out(dicts);
    lemma_all_schemas_at(dicts, f);
    assert forall|group: u16, item: u8|
        (#[trigger] d.by_id(group, item)) is Some implies union_of(dicts)->0.by_id(group, item)
        == d.by_id(group, item) by {
        assert(d.ids.dom().contains((group, item)));
        let k = d.ids[(group, item)] as int;
        assert(d.wf());
        let at = all_schemas(dicts.subrange(0, f)).len() + k;
        assert(d.schemas[k] == all[at]);
        law_union_knows_every_bank(all, all.len(), at);
    }
}

/// The schemas of well-formed dictionaries are laid out.
pub(crate) proof fn lemma_all_laid_out(dicts: Seq<DictView>)
    requires
        forall|i: int| 0 <= i < dicts.len() ==> (#[trigger] dicts[i]).wf(),
    ensures
        forall|k: int|
            0 <= k < all_schemas(dicts).len() ==> (#[trigger] all_schemas(dicts)[k]).laid_out(),
    decreases dicts.len(),
{
    if dicts.len() > 0 {
        let front = dicts.drop_last();
        assert forall|i: int| 0 <= i < front.len() implies (#[trigger] front[i]).wf() by {
            assert(front[i] == dicts[i]);
        }
        lemma_all_laid_out(front);
        let a = all_schemas(front);
        let b = dicts.last().schemas;
        assert(dicts[dicts.len() - 1].wf());
        assert forall|k: int| 0 <= k < (a + b).len() implies (#[trigger] (a + b)[k]).laid_out() by {
            if k < a.len() {
                assert((a + b)[k] == a[k]);
            } else {
                assert((a + b)[k] == b[k - a.len()]);
            }
        }
    }
}

/// Every schema stands where the id table says, and no two share an id.
spec fn ids_in_step(d: DictView) -> bool {
    &&& d.wf()
    &&& forall|k: int|
        0 <= k < d.schemas.len() ==> d.ids.dom().contains(
            ((#[trigger] d.schemas[k]).group, d.schemas[k].item),
        ) && d.ids[(d.schemas[k].group, d.schemas[k].item)] == k
}

proof fn lemma_united_wf(ss: Seq<SchemaView>, n: nat)
    requires
        united(ss, n) is Some,
        n <= ss.len(),
        forall|i: int| 0 <= i < ss.len() ==> (#[trigger] ss[i]).laid_out(),
    ensures
        ids_in_step(united(ss, n)->0),
    decreases n,
{
    if n > 0 {
        lemma_united_wf(ss, (n - 1) as nat);
        let d = united(ss, (n - 1) as nat)->0;
        let s = ss[n - 1];
        if d.named(s.name) is None {
            law_add_keeps_wf(d, s);
            let after = d.with(s);
            assert forall|k: int|
                0 <= k < after.schemas.len() implies after.ids.dom().contains(
                ((#[trigger] after.schemas[k]).group, after.schemas[k].item),
            ) && after.ids[(after.schemas[k].group, after.schemas[k].item)] == k by {
                if k < d.schemas.len() {
                    assert(after.schemas[k] == d.schemas[k]);
                    assert(!has_id(d, k, s.group, s.item));
                }
            }
        }
    }
}

proof fn lemma_united_holds(ss: Seq<SchemaView>, n: nat, k: int)
    requires
        united(ss, n) is Some,
        n <= ss.len(),
        0 <= k < n,
        forall|i: int| 0 <= i < ss.len() ==> (#[trigger] ss[i]).laid_out(),
    ensures
        united(ss, n)->0.named(ss[k].name) == Some(ss[k]),
        united(ss, n)->0.by_id(ss[k].group, ss[k].item) == Some(ss[k]),
    decreases n,
{
    let d = united(ss, (n - 1) as nat)->0;
    let s = ss[n - 1];
    let after = united(ss, n)->0;
    lemma_united_wf(ss, (n - 1) as nat);
    lemma_united_wf(ss, n);
    if d.named(s.name) is None {
        law_lookup_after_add(d, s, ss[k].name);
    }
    if k < n - 1 {
        lemma_united_holds(ss, (n - 1) as nat, k);
        assert(d.has_name(ss[k].name));
    }
    assert(after.named(ss[k].name) == Some(ss[k]));
    let at = after.position(ss[k].name);
    assert(after.names(at, ss[k].name));
    assert(after.schemas[at] == ss[k]);
}

/// The name of the first schema from number `k` on with this id.
pub open spec fn id_owner(d: DictView, group: u16, item: u8, k: int) -> Seq<char>
    decreases d.schemas.len() - k,
{
    if k < 0 || k >= d.schemas.len() {
        Seq::empty()
    } else if d.schemas[k].group == group && d.schemas[k].item == item {
        d.schemas[k].name
    } else {
        id_owner(d, group, item, k + 1)
    }
}

/// What is said where the schema `s` of the file `label` contradicts what the files before it
/// declare.
pub open spec fn conflict_text(d: DictView, s: SchemaView, label: Seq<char>) -> Seq<char> {
    let start = "chain file "@ + label + " declares bank "@ + s.name;
    if d.named(s.name) is Some {
        start + " with a different layout than an earlier file; reading them together would decode columns against the wrong schema"@
    } else if id_taken(d, s.group, s.item) {
        start + " with id ("@ + dec(s.group as nat) + ", "@ + dec(s.item as nat)
            + "), which an earlier file already uses for "@ + id_owner(d, s.group, s.item, 0)
            + "; banks are located by id, so one would be decoded as the other"@
    } else {
        full_text(s.name)
    }
}

/// Schema `k` of dictionary `f` is the first that contradicts those before it, and `msg` says so.
pub open spec fn union_stops_at(
    dicts: Seq<DictView>,
    labels: Seq<Seq<char>>,
    f: int,
    k: int,
    msg: Seq<char>,
) -> bool {
    let before = all_schemas(dicts.subrange(0, f)).len() + k;
    &&& 0 <= f < dicts.len()
    &&& 0 <= k < dicts[f].schemas.len()
    &&& united(all_schemas(dicts), before as nat) matches Some(d) && united_with(
        d,
        dicts[f].schemas[k],
    ) is None && msg == conflict_text(d, dicts[f].schemas[k], labels[f])
}

/// `e` says which schema of which file contradicts the others.
pub open spec fn is_conflict(dicts: Seq<DictView>, labels: Seq<Seq<char>>, e: HipoError) -> bool {
    match e {
        HipoError::SchemaParse(msg) => exists|f: int, k: int| #[trigger]
            union_stops_at(dicts, labels, f, k, msg@),
        _ => false,
    }
}

/// Say that a bank has another layout than before.
fn layout_message(label: &str, schema: &Schema, Ghost(d): Ghost<DictView>) -> (r: String)
    requires
        d.named(schema@.name) is Some,
    ensures
        r@ == conflict_text(d, schema@, label@),
{
    let mut out: Vec<char> = Vec::new();
    push_text(&mut out, "chain file ");
    push_text(&mut out, label);
    push_text(&mut out, " declares bank ");
    push_text(&mut out, schema.name());
    push_text(
        &mut out,
        " with a different layout than an earlier file; reading them together would decode columns against the wrong schema",
    );
    assert(out@ =~= conflict_text(d, schema@, label@));
    text_of(out.as_slice())
}

/// Say that a bank has the id of another.
fn id_message(label: &str, schema: &Schema, owner: &str, Ghost(d): Ghost<DictView>) -> (r: String)
    requires
        d.named(schema@.name) is None,
        id_taken(d, schema@.group, schema@.item),
        owner@ == id_owner(d, schema@.group, schema@.item, 0),
    ensures
        r@ == conflict_text(d, schema@, label@),
{
    let mut out: Vec<char> = Vec::new();
    push_text(&mut out, "chain file ");
    push_text(&mut out, label);
    push_text(&mut out, " declares bank ");
    push_text(&mut out, schema.name());
    push_text(&mut out, " with id (");
    push_dec(&mut out, schema.group() as u64);
    push_text(&mut out, ", ");
    push_dec(&mut out, schema.item() as u64);
    push_text(&mut out, "), which an earlier file already uses for ");
    push_text(&mut out, owner);
    push_text(&mut out, "; banks are located by id, so one would be decoded as the other");
    assert(out@ =~= conflict_text(d, schema@, label@));
    text_of(out.as_slice())
}

/// The labels of files.
pub open spec fn label_views(labels: Seq<&str>) -> Seq<Seq<char>> {
    labels.map_values(|l: &str| l@)
}

/// The dictionary of files with these dictionaries. Where two contradict each other, `labels`
/// names the file that the error speaks of.
pub fn union_dict(dicts: &[&Dict], labels: &[&str]) -> (r: Result<Dict>)
    requires
        labels.len() == dicts.len(),
    ensures
        match union_of(dict_views(dicts@)) {
            Some(d) => r is Ok && r->Ok_0@ == d,
            None => r is Err && is_conflict(dict_views(dicts@), label_views(labels@), r->Err_0),
        },
{
    let ghost dv = dict_views(dicts@);
    let ghost all = all_schemas(dv);
    let mut union = Dict::new();
    let mut f: usize = 0;
    assert(dv.subrange(0, 0) =~= Seq::<DictView>::empty());
    while f < dicts.len()
        invariant
            f <= dicts.len(),
            labels.len() == dicts.len(),
            dv == dict_views(dicts@),
            all == all_schemas(dv),
            united(all, all_schemas(dv.subrange(0, f as int)).len()) == Some(union@),
        decreases dicts.len() - f,
    {
        let ghost base = all_schemas(dv.subrange(0, f as int)).len();
        proof {
            lemma_all_schemas_at(dv, f as int);
        }
        let schemas = dicts[f].iter();
        let mut k: usize = 0;
        while k < schemas.len()
            invariant
                k <= schemas.len(),
                f < dicts.len(),
                labels.len() == dicts.len(),
                dv == dict_views(dicts@),
                all == all_schemas(dv),
                schemas.len() == dv[f as int].schemas.len(),
                forall|i: int|
                    0 <= i < schemas.len() ==> (#[trigger] schemas@[i])@
                        == dv[f as int].schemas[i],
                forall|i: int|
                    0 <= i < schemas.len() ==> #[trigger] dv[f as int].schemas[i] == all[base + i],
                base + schemas.len() <= all.len(),
                base == all_schemas(dv.subrange(0, f as int)).len(),
                united(all, (base + k) as nat) == Some(union@),
            decreases schemas.len() - k,
        {
            let schema = &schemas[k];
            proof {
                assert(schemas@[k as int]@ == dv[f as int].schemas[k as int]);
                assert(all[base + k] == schema@);
                if united_with(union@, schema@) is None {
                    lemma_united_fails(all, (base + k + 1) as nat, all.len());
                }
            }
            match union.get(schema.name()) {
                Some(seen) => {
                    if !seen.same_as(schema) {
                        let msg = layout_message(labels[f], schema, Ghost(union@));
                        let e = HipoError::SchemaParse(msg);
                        assert(union_stops_at(
                            dv,
                            label_views(labels@),
                            f as int,
                            k as int,
                            e->SchemaParse_0@,
                        ));
                        return Err(e);
                    }
                },
                None => {
                    if let Some(owner) = find_id(&union, schema.group(), schema.item()) {
                        let msg = id_message(labels[f], schema, owner.name(), Ghost(union@));
                        let e = HipoError::SchemaParse(msg);
                        assert(union_stops_at(
                            dv,
                            label_views(labels@),
                            f as int,
                            k as int,
                            e->SchemaParse_0@,
                        ));
                        return Err(e);
                    }
                    match union.try_add(schema.clone()) {
                        Ok(_) => {},
                        Err(e) => {
                            if let HipoError::SchemaParse(msg) = &e {
                                assert(union_stops_at(
                                    dv,
                                    label_views(labels@),
                                    f as int,
                                    k as int,
                                    msg@,
                                ));
                            }
                            return Err(e);
                        },
                    }
                },
            }
            k = k + 1;
        }
        f = f + 1;
    }
    assert(dv.subrange(0, f as int) =~= dv);
    Ok(union)
}

/// What dictionaries say.
pub open spec fn dict_views(dicts: Seq<&Dict>) -> Seq<DictView> {
    dicts.map_values(|d: &Dict| d@)
}

/// The first schema with this id.
fn find_id(d: &Dict, group: u16, item: u8) -> (r: Option<&Schema>)
    ensures
        r is Some == id_taken(d@, group, item),
        r matches Some(s) ==> s@.name == id_owner(d@, group, item, 0),
{
    let schemas = d.iter();
    let mut k: usize = 0;
    while k < schemas.len()
        invariant
            k <= schemas.len(),
            schemas.len() == d@.schemas.len(),
            forall|i: int| 0 <= i < schemas.len() ==> (#[trigger] schemas@[i])@ == d@.schemas[i],
            forall|i: int| 0 <= i < k ==> !has_id(d@, i, group, item),
            id_owner(d@, group, item, 0) == id_owner(d@, group, item, k as int),
        decreases schemas.len() - k,
    {
        if schemas[k].group() == group && schemas[k].item() == item {
            assert(has_id(d@, k as int, group, item));
            return Some(&schemas[k]);
        }
        assert(!has_id(d@, k as int, group, item));
        k = k + 1;
    }
    None
}

} // verus!
