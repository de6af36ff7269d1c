//! `Filter`: which events a reader wants.
//!
//! Events that lack a required bank are dropped. Records whose first user word is none of the
//! record tags are skipped unread.

use vstd::prelude::*;
use vstd::slice::slice_to_vec;
use crate::error::{HipoError, Result};
use crate::event::event::Event;
#[allow(unused_imports)]
use crate::event::view::EventView;
use crate::schema::dict::Dict;
#[allow(unused_imports)]
use crate::schema::dict::DictView;
use crate::text::owned;
use crate::wire::by_bank::ByBankRecord;
use crate::wire::per_column::PerColumnRecord;

verus! {

/// What a filter says.
#[verifier::ext_equal]
pub struct FilterView {
    /// The banks that an event must have, by name.
    pub names: Seq<Seq<char>>,
    /// Those of them that the bound dictionary knows, by id.
    pub ids: Seq<(u16, u8)>,
    /// The user words of wanted records; empty where every record is wanted.
    pub record_tags: Seq<u64>,
}

/// The ids of those of `names` that the dictionary knows.
pub open spec fn bound_ids(names: Seq<Seq<char>>, dict: DictView) -> Seq<(u16, u8)>
    decreases names.len(),
{
    if names.len() == 0 {
        Seq::empty()
    } else {
        let before = bound_ids(names.drop_last(), dict);
        match dict.named(names.last()) {
            Some(s) => before.push((s.group, s.item)),
            None => before,
        }
    }
}

impl FilterView {
    /// The filter that lets everything pass.
    pub open spec fn none() -> FilterView {
        FilterView { names: Seq::empty(), ids: Seq::empty(), record_tags: Seq::empty() }
    }

    /// The filter drops something: events, or records.
    pub open spec fn active(self) -> bool {
        self.names.len() > 0 || self.record_tags.len() > 0 || self.ids.len() > 0
    }

    /// The filter with its names looked up in a dictionary.
    pub open spec fn bound(self, dict: DictView) -> FilterView {
        FilterView { ids: bound_ids(self.names, dict), ..self }
    }

    /// The event has every bank that the filter asks for.
    pub open spec fn passes(self, e: EventView) -> bool {
        has_all(self.ids, e)
    }

    /// Every required name is one of the dictionary's.
    pub open spec fn valid(self, dict: DictView) -> bool {
        forall|i: int|
            0 <= i < self.names.len() ==> dict.named(#[trigger] self.names[i]) is Some
    }
}

/// The event has every bank with one of these ids.
pub open spec fn has_all(ids: Seq<(u16, u8)>, e: EventView) -> bool {
    forall|i: int| 0 <= i < ids.len() ==> e.has((#[trigger] ids[i]).0, ids[i].1)
}

/// The event has every bank with one of these names that the dictionary knows.
pub open spec fn has_known(names: Seq<Seq<char>>, dict: DictView, e: EventView) -> bool {
    forall|i: int|
        0 <= i < names.len() && dict.named(#[trigger] names[i]) is Some ==> e.has_named(
            dict,
            names[i],
        )
}

/// An event passes a filter that was bound to the dictionary exactly where it has every
/// required bank that the dictionary knows.
pub proof fn law_bound_filter_passes(f: FilterView, dict: DictView, e: EventView)
    ensures
        f.bound(dict).passes(e) == has_known(f.names, dict, e),
{
    lemma_bound_ids(f.names, dict, e);
}

/// Every id is that of a known name, and every known name has its id.
proof fn lemma_bound_ids(names: Seq<Seq<char>>, dict: DictView, e: EventView)
    ensures
        has_all(bound_ids(names, dict), e) == has_known(names, dict, e),
    decreases names.len(),
{
    if names.len() > 0 {
        let front = names.drop_last();
        let ids = bound_ids(names, dict);
        let before = bound_ids(front, dict);
        let last = names.len() - 1;
        lemma_bound_ids(front, dict, e);
        if has_all(ids, e) {
            assert(has_all(before, e)) by {
                assert forall|i: int| 0 <= i < before.len() implies e.has(
                    (#[trigger] before[i]).0,
                    before[i].1,
                ) by {
                    assert(ids[i] == before[i]);
                }
            }
            assert forall|i: int|
                0 <= i < names.len() && dict.named(#[trigger] names[i]) is Some implies e.has_named(
                dict,
                names[i],
            ) by {
                if i < last {
                    assert(front[i] == names[i]);
                } else {
                    assert(ids[ids.len() - 1] == (
                        dict.named(names[i])->0.group,
                        dict.named(names[i])->0.item,
                    ));
                }
            }
        }
        if has_known(names, dict, e) {
            assert(has_known(front, dict, e)) by {
                assert forall|i: int|
                    0 <= i < front.len() && dict.named(#[trigger] front[i]) is Some implies e.has_named(
                    dict,
                    front[i],
                ) by {
                    assert(front[i] == names[i]);
                }
            }
            assert(e.has_named(dict, names[last]) || dict.named(names[last]) is None);
            assert forall|i: int| 0 <= i < ids.len() implies e.has(
                (#[trigger] ids[i]).0,
                ids[i].1,
            ) by {
                if i < before.len() {
                    assert(ids[i] == before[i]);
                }
            }
        }
    }
}

/// What names say.
pub open spec fn name_views(names: Seq<String>) -> Seq<Seq<char>> {
    names.map_values(|s: String| s@)
}

/// A choice of events by the banks they have, and of records by their user word.
#[derive(Debug)]
pub struct Filter {
    require_names: Vec<String>,
    require_ids: Vec<(u16, u8)>,
    record_tags: Vec<u64>,
}

impl View for Filter {
    type V = FilterView;

    closed spec fn view(&self) -> FilterView {
        FilterView {
            names: name_views(self.require_names@),
            ids: self.require_ids@,
            record_tags: self.record_tags@,
        }
    }
}

impl Default for Filter {
    fn default() -> (r: Self)
        ensures
            r@ == FilterView::none(),
    {
        Filter::new()
    }
}

impl Clone for Filter {
    fn clone(&self) -> (r: Self)
        ensures
            r@ == self@,
    {
        let mut require_names: Vec<String> = Vec::new();
        let mut i: usize = 0;
        while i < self.require_names.len()
            invariant
                i <= self.require_names.len(),
                require_names.len() == i,
                forall|k: int|
                    0 <= k < i ==> (#[trigger] require_names@[k])@ == self.require_names@[k]@,
            decreases self.require_names.len() - i,
        {
            require_names.push(owned(self.require_names[i].as_str()));
            i = i + 1;
        }
        let f = Filter {
            require_names,
            require_ids: slice_to_vec(self.require_ids.as_slice()),
            record_tags: slice_to_vec(self.record_tags.as_slice()),
        };
        assert(f@ =~= self@);
        f
    }
}

/// What a list of names says.
pub open spec fn str_views(names: Seq<&str>) -> Seq<Seq<char>> {
    names.map_values(|s: &str| s@)
}

impl Filter {
    /// The filter that lets everything pass.
    pub fn new() -> (r: Self)
        ensures
            r@ == FilterView::none(),
    {
        let r = Filter {
            require_names: Vec::new(),
            require_ids: Vec::new(),
            record_tags: Vec::new(),
        };
        assert(r@ =~= FilterView::none());
        r
    }

    /// A filter that requires every named bank.
    pub fn require(names: &[&str]) -> (r: Self)
        ensures
            r@ == (FilterView { names: str_views(names@), ..FilterView::none() }),
    {
        let r = Filter::new().and_require(names);
        assert(r@.names =~= str_views(names@));
        r
    }

    /// The filter with more required banks.
    pub fn and_require(self, names: &[&str]) -> (r: Self)
        ensures
            r@ == (FilterView { names: self@.names + str_views(names@), ..self@ }),
    {
        let mut f = self;
        let mut i: usize = 0;
        while i < names.len()
            invariant
                i <= names.len(),
                f.require_ids@ == self.require_ids@,
                f.record_tags@ == self.record_tags@,
                f.require_names.len() == self.require_names.len() + i,
                forall|k: int|
                    0 <= k < self.require_names.len() ==> (#[trigger] f.require_names@[k])
                        == self.require_names@[k],
                forall|k: int|
                    0 <= k < i ==> (#[trigger] names@[k])@
                        == f.require_names@[self.require_names.len() + k]@,
            decreases names.len() - i,
        {
            f.require_names.push(owned(names[i]));
            i = i + 1;
        }
        proof {
            let want = self@.names + str_views(names@);
            assert forall|k: int| 0 <= k < want.len() implies want[k] == f@.names[k] by {
                if k >= self@.names.len() {
                    assert(names@[k - self@.names.len()]@ == f.require_names@[k]@);
                }
            }
            assert(f@.names =~= want);
        }
        f
    }

    /// The filter with more record tags: only records whose first user word is one of the tags
    /// are read.
    pub fn record_tag(self, tags: &[u64]) -> (r: Self)
        ensures
            r@ == (FilterView { record_tags: self@.record_tags + tags@, ..self@ }),
    {
        let mut f = self;
        f.record_tags.extend_from_slice(tags);
        assert(f@.record_tags =~= self@.record_tags + tags@);
        f
    }

    /// Does the filter drop anything?
    pub fn is_active(&self) -> (r: bool)
        ensures
            r == self@.active(),
    {
        self.require_names.len() > 0 || self.record_tags.len() > 0 || self.require_ids.len() > 0
    }

    pub fn required_names(&self) -> (r: &[String])
        ensures
            name_views(r@) == self@.names,
    {
        self.require_names.as_slice()
    }

    /// The ids of the required banks, as far as the bound dictionary knows them.
    pub fn required_ids(&self) -> (r: &[(u16, u8)])
        ensures
            r@ == self@.ids,
    {
        self.require_ids.as_slice()
    }

    pub fn record_tags(&self) -> (r: &[u64])
        ensures
            r@ == self@.record_tags,
    {
        self.record_tags.as_slice()
    }

    /// Check every required name against a dictionary. The first that it lacks is the error.
    pub fn validate(&self, dict: &Dict) -> (r: Result<()>)
        ensures
            match r {
                Ok(_) => self@.valid(dict@),
                Err(e) => e matches HipoError::UnknownSchema { name } && exists|i: int|
                    0 <= i < self@.names.len() && #[trigger] self@.names[i] == name@ && dict@.named(
                        name@,
                    ) is None && forall|k: int|
                        0 <= k < i ==> dict@.named(#[trigger] self@.names[k]) is Some,
            },
    {
        let mut i: usize = 0;
        while i < self.require_names.len()
            invariant
                i <= self.require_names.len(),
                forall|k: int| 0 <= k < i ==> dict@.named(#[trigger] self@.names[k]) is Some,
            decreases self.require_names.len() - i,
        {
            assert(self@.names[i as int] == self.require_names@[i as int]@);
            if dict.get(self.require_names[i].as_str()).is_none() {
                return Err(
                    HipoError::UnknownSchema { name: owned(self.require_names[i].as_str()) },
                );
            }
            i = i + 1;
        }
        Ok(())
    }

    /// Look up the required names in a dictionary. Names that it lacks are dropped: no event
    /// can have such a bank.
    pub fn bind(&mut self, dict: &Dict)
        ensures
            final(self)@ == old(self)@.bound(dict@),
    {
        let mut ids: Vec<(u16, u8)> = Vec::new();
        let ghost names = self@.names;
        let mut i: usize = 0;
        assert(names.subrange(0, 0) =~= Seq::<Seq<char>>::empty());
        assert(ids@ =~= bound_ids(names.subrange(0, 0), dict@));
        while i < self.require_names.len()
            invariant
                i <= self.require_names.len(),
                names == name_views(self.require_names@),
                ids@ == bound_ids(names.subrange(0, i as int), dict@),
            decreases self.require_names.len() - i,
        {
            proof {
                let more = names.subrange(0, i + 1);
                assert(more.drop_last() =~= names.subrange(0, i as int));
                assert(more.last() == self.require_names@[i as int]@);
            }
            if let Some(s) = dict.get(self.require_names[i].as_str()) {
                ids.push((s.group(), s.item()));
            }
            i = i + 1;
        }
        assert(names.subrange(0, i as int) =~= names);
        self.require_ids = ids;
        assert(self@ =~= old(self)@.bound(dict@));
    }

    /// True if the event has every required bank.
    pub fn check(&self, event: &Event<'_>) -> (r: bool)
        ensures
            r == self@.passes(EventView::Bytes(event@)),
    {
        let mut i: usize = 0;
        while i < self.require_ids.len()
            invariant
                i <= self.require_ids.len(),
                forall|k: int|
                    0 <= k < i ==> EventView::Bytes(event@).has(
                        (#[trigger] self@.ids[k]).0,
                        self@.ids[k].1,
                    ),
            decreases self.require_ids.len() - i,
        {
            let (group, item) = self.require_ids[i];
            assert(self@.ids[i as int] == (group, item));
            if !event.has(group, item) {
                return false;
            }
            i = i + 1;
        }
        true
    }

    /// [`Self::check`] for an event of a per-bank record: no bank is decompressed.
    pub fn check_by_bank(&self, record: &ByBankRecord, event_idx: u32) -> (r: bool)
        requires
            event_idx < record@.events(),
        ensures
            r == self@.passes(EventView::ByBank(record@, event_idx as int)),
    {
        let mut i: usize = 0;
        while i < self.require_ids.len()
            invariant
                i <= self.require_ids.len(),
                event_idx < record@.events(),
                forall|k: int|
                    0 <= k < i ==> EventView::ByBank(record@, event_idx as int).has(
                        (#[trigger] self@.ids[k]).0,
                        self@.ids[k].1,
                    ),
            decreases self.require_ids.len() - i,
        {
            let (group, item) = self.require_ids[i];
            assert(self@.ids[i as int] == (group, item));
            match record.bank_index(group, item) {
                Some(b) => {
                    if !record.has(event_idx, b) {
                        return false;
                    }
                },
                None => {
                    return false;
                },
            }
            i = i + 1;
        }
        true
    }

    /// [`Self::check`] for an event of a per-column record: no column is decompressed.
    pub fn check_per_column(&self, record: &PerColumnRecord, event_idx: u32) -> (r: bool)
        requires
            event_idx < record@.events(),
        ensures
            r == self@.passes(EventView::PerColumn(record@, event_idx as int)),
    {
        let mut i: usize = 0;
        while i < self.require_ids.len()
            invariant
                i <= self.require_ids.len(),
                event_idx < record@.events(),
                forall|k: int|
                    0 <= k < i ==> EventView::PerColumn(record@, event_idx as int).has(
                        (#[trigger] self@.ids[k]).0,
                        self@.ids[k].1,
                    ),
            decreases self.require_ids.len() - i,
        {
            let (group, item) = self.require_ids[i];
            assert(self@.ids[i as int] == (group, item));
            match record.bank_index(group, item) {
                Some(b) => {
                    if !record.has(event_idx, b) {
                        return false;
                    }
                },
                None => {
                    return false;
                },
            }
            i = i + 1;
        }
        true
    }
}

} // verus!
