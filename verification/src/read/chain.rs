//! `Chain`: one or more files, read as one stream of events with one dictionary.

use std::sync::Arc;

use vstd::prelude::*;
use vstd::slice::slice_to_vec;
use crate::error::{HipoError, Result};
use crate::event::owned::{share, OwnedEvent};
#[allow(unused_imports)]
use crate::event::view::EventView;
#[allow(unused_imports)]
use crate::read::dictionary::config_views;
use crate::read::filter::Filter;
#[allow(unused_imports)]
use crate::read::filter::FilterView;
use crate::read::inner::FileInner;
#[allow(unused_imports)]
use crate::read::inner::{header_in, FileView};
use crate::read::iter::EventIter;
#[allow(unused_imports)]
use crate::read::iter::{
    failed, filter_view, record_at, record_fault, records_stream, tag_wanted, wanted_tags, Item,
};
#[allow(unused_imports)]
use crate::read::kept::KeptOf;
use crate::read::kept::{nothing_kept, Kept, KeptRecord};
use crate::read::source::ReadAt;
use crate::read::stored::StoredRecord;
#[allow(unused_imports)]
use crate::read::stored::StoredView;
use crate::read::union::union_dict;
#[allow(unused_imports)]
use crate::read::union::{dict_views, is_conflict, label_views, union_of};
use crate::schema::dict::Dict;
#[allow(unused_imports)]
use crate::schema::dict::DictView;
use crate::tag::TagRegistry;
use crate::text::{owned, same_text};
use crate::wire::file_header::FileHeader;
#[allow(unused_imports)]
use crate::wire::event_index::{events_in, numbered, spans_event};

verus! {

/// What a chain says.
pub struct ChainView {
    pub files: Seq<FileView>,
    pub dict: DictView,
    pub tags: Seq<(Seq<char>, u32)>,
    pub config: Seq<(Seq<char>, Seq<char>)>,
    pub filter: Option<FilterView>,
}

/// How many events the first `n` files hold.
pub open spec fn events_base(files: Seq<FileView>, n: nat) -> nat
    decreases n,
{
    if n == 0 {
        0
    } else {
        events_base(files, (n - 1) as nat) + events_in(files[n - 1].info.spans)
    }
}

/// The dictionaries of files.
pub open spec fn dicts_of(files: Seq<FileView>) -> Seq<DictView> {
    files.map_values(|f: FileView| f.info.dictionary.dict)
}

/// Where files came from.
pub open spec fn paths_of<S: ReadAt>(files: Seq<Arc<FileInner<S>>>) -> Seq<Seq<char>> {
    files.map_values(|f: Arc<FileInner<S>>| f.spec_path())
}

/// The tag names of the first file that has any.
pub open spec fn first_tags(files: Seq<FileView>) -> Seq<(Seq<char>, u32)>
    decreases files.len(),
{
    if files.len() == 0 {
        Seq::empty()
    } else if files[0].info.dictionary.tags.len() > 0 {
        files[0].info.dictionary.tags
    } else {
        first_tags(files.drop_first())
    }
}

/// The configuration of the first file that has any.
pub open spec fn first_config(files: Seq<FileView>) -> Seq<(Seq<char>, Seq<char>)>
    decreases files.len(),
{
    if files.len() == 0 {
        Seq::empty()
    } else if files[0].info.dictionary.config.len() > 0 {
        files[0].info.dictionary.config
    } else {
        first_config(files.drop_first())
    }
}

/// Where an event of a chain is: its file, the record in that file, and the event in that
/// record.
pub struct Place {
    pub file: int,
    pub record: int,
    pub event: int,
}

impl ChainView {
    /// No read of any file fails.
    pub open spec fn intact(self) -> bool {
        all_intact(self.files)
    }

    /// No failing read passes unnoticed: none fails, or no record is passed over for its tag.
    pub open spec fn steady(self) -> bool {
        self.intact() || wanted_tags(self.filter).len() == 0
    }

    /// What a sweep over the wanted records returns is known: no read fails, or it succeeded and
    /// no failing read passed unnoticed.
    pub open spec fn told(self, ok: bool) -> bool {
        self.intact() || (self.steady() && ok)
    }

    /// The number of the first event of file `i`.
    pub open spec fn base(self, i: int) -> nat {
        events_base(self.files, i as nat)
    }

    /// How many events the chain holds.
    pub open spec fn total(self) -> nat {
        events_base(self.files, self.files.len())
    }

    /// Event number `idx` of the chain is at `p`.
    pub open spec fn is_place(self, idx: int, p: Place) -> bool {
        &&& 0 <= p.file < self.files.len()
        &&& spans_event(self.files[p.file].info.spans, p.record, idx - self.base(p.file))
        &&& p.event == idx - self.base(p.file)
            - self.files[p.file].info.spans[p.record].first_event
    }

    /// Event number `idx` of the chain, decoded with the chain's dictionary; nothing where there
    /// is no such event or its record cannot be read.
    pub open spec fn event_at(self, idx: int) -> Option<EventView> {
        if idx < 0 || idx >= self.total() {
            None
        } else {
            let p = choose|p: Place| self.is_place(idx, p);
            self.event_in(p)
        }
    }

    /// Record `r` of file `f`, decoded with the chain's dictionary.
    pub open spec fn record_of(self, f: int, r: int) -> Option<StoredView> {
        record_at(self.files[f].bytes, self.files[f].info.spans[r], self.dict)
    }

    /// The event at a place.
    pub open spec fn event_in(self, p: Place) -> Option<EventView> {
        match self.record_of(p.file, p.record) {
            Some(v) => if p.event < v.events() {
                Some(v.event(p.event))
            } else {
                None
            },
            None => None,
        }
    }

    /// The records of file `f` up to record `n` that the filter wants.
    pub open spec fn file_tasks(self, f: int, n: nat) -> Seq<(int, int)>
        decreases n,
    {
        if n == 0 {
            Seq::empty()
        } else {
            let before = self.file_tasks(f, (n - 1) as nat);
            if self.wants(f, n - 1) {
                before.push((f, n - 1))
            } else {
                before
            }
        }
    }

    /// Record `r` of file `f` is wanted. A record whose header cannot be read is not, where only
    /// certain tags are.
    pub open spec fn wants(self, f: int, r: int) -> bool {
        let tags = wanted_tags(self.filter);
        tags.len() == 0 || (header_in(
            self.files[f].bytes,
            self.files[f].info.spans[r].file_offset as int,
        ) matches Ok(h) && tag_wanted(tags, h))
    }

    /// There is such a record, and it is wanted.
    pub open spec fn is_task(self, t: (usize, usize)) -> bool {
        &&& t.0 < self.files.len()
        &&& t.1 < self.files[t.0 as int].info.spans.len()
        &&& self.wants(t.0 as int, t.1 as int)
    }

    /// The records of the first `n` files that the filter wants, in order.
    pub open spec fn tasks(self, n: nat) -> Seq<(int, int)>
        decreases n,
    {
        if n == 0 {
            Seq::empty()
        } else {
            self.tasks((n - 1) as nat) + self.file_tasks(n - 1, self.files[n - 1].info.spans.len())
        }
    }

    /// What a walk over the events comes to: each item with the number of its file.
    pub open spec fn stream(self) -> Seq<(int, Item)> {
        files_stream(self.files, self.filter, 0)
    }
}

/// Items of file `f`, each with the number of the file.
pub open spec fn at_file(f: int, items: Seq<Item>) -> Seq<(int, Item)> {
    Seq::new(items.len(), |i: int| (f, items[i]))
}

/// What a walk over files from file `f` on comes to. A record that cannot be read ends the walk.
pub open spec fn files_stream(
    files: Seq<FileView>,
    filter: Option<FilterView>,
    f: int,
) -> Seq<(int, Item)>
    decreases files.len() - f,
{
    if f < 0 || f >= files.len() {
        Seq::empty()
    } else {
        unless_fault(
            at_file(f, records_stream(files[f], filter, 0)),
            files_stream(files, filter, f + 1),
        )
    }
}

/// `a`, and then `b` unless `a` ends at a record that cannot be read.
pub open spec fn unless_fault(a: Seq<(int, Item)>, b: Seq<(int, Item)>) -> Seq<(int, Item)> {
    if a.len() > 0 && a.last().1 is Fault {
        a
    } else {
        a + b
    }
}

/// More files hold no fewer events.
pub proof fn lemma_base_monotone(files: Seq<FileView>, a: nat, b: nat)
    requires
        a <= b <= files.len(),
    ensures
        events_base(files, a) <= events_base(files, b),
    decreases b,
{
    if a < b {
        lemma_base_monotone(files, a, (b - 1) as nat);
    }
}

/// The first files of a longer list hold as many events.
proof fn lemma_base_same(a: Seq<FileView>, b: Seq<FileView>, n: nat)
    requires
        n <= a.len(),
        n <= b.len(),
        forall|i: int| 0 <= i < n ==> a[i] == b[i],
    ensures
        events_base(a, n) == events_base(b, n),
    decreases n,
{
    if n > 0 {
        lemma_base_same(a, b, (n - 1) as nat);
    }
}

/// An event of a chain is at one place.
pub proof fn law_one_place(c: ChainView, idx: int, p: Place, q: Place)
    requires
        forall|i: int| 0 <= i < c.files.len() ==> numbered((#[trigger] c.files[i]).info.spans),
        c.is_place(idx, p),
        c.is_place(idx, q),
    ensures
        p == q,
{
    lemma_in_file(c, idx, p);
    lemma_in_file(c, idx, q);
    if p.file < q.file {
        lemma_base_monotone(c.files, (p.file + 1) as nat, q.file as nat);
    } else if q.file < p.file {
        lemma_base_monotone(c.files, (q.file + 1) as nat, p.file as nat);
    }
    let spans = c.files[p.file].info.spans;
    let local = (idx - c.base(p.file)) as nat;
    let i = crate::wire::event_index::law_each_event_in_one_span(spans, local);
}

/// The event at a place lies within the events of its file.
pub(crate) proof fn lemma_in_file(c: ChainView, idx: int, p: Place)
    requires
        forall|i: int| 0 <= i < c.files.len() ==> numbered((#[trigger] c.files[i]).info.spans),
        c.is_place(idx, p),
    ensures
        c.base(p.file) <= idx < c.base(p.file + 1),
        idx - c.base(p.file) < events_in(c.files[p.file].info.spans),
{
    let spans = c.files[p.file].info.spans;
    crate::wire::event_index::lemma_events_monotone(
        spans,
        (p.record + 1) as nat,
        spans.len(),
    );
}

/// A chain of files. Copies share the open files, and the record that was looked up last.
pub struct Chain<S: ReadAt> {
    files: Vec<Arc<FileInner<S>>>,
    /// The number of the first event of each file, and of one past the last.
    offsets: Vec<u64>,
    dict: Arc<Dict>,
    tag_registry: TagRegistry,
    config: Vec<(String, String)>,
    filter: Option<Filter>,
    /// The record that [`Self::event`] decoded last.
    kept: Kept,
}

/// What files say.
pub open spec fn file_views<S: ReadAt>(files: Seq<Arc<FileInner<S>>>) -> Seq<FileView> {
    files.map_values(|f: Arc<FileInner<S>>| f@)
}

impl<S: ReadAt> View for Chain<S> {
    type V = ChainView;

    closed spec fn view(&self) -> ChainView {
        ChainView {
            files: file_views(self.files@),
            dict: self.dict@,
            tags: self.tag_registry@,
            config: config_views(self.config@),
            filter: filter_view(self.filter),
        }
    }
}

impl<S: ReadAt> Default for Chain<S> {
    fn default() -> (r: Self)
        ensures
            r@.files.len() == 0,
            r@.dict == DictView::none(),
            r@.tags.len() == 0,
            r@.config.len() == 0,
            r@.filter is None,
    {
        let mut offsets: Vec<u64> = Vec::new();
        offsets.push(0);
        let files: Vec<Arc<FileInner<S>>> = Vec::new();
        let dict = Dict::new();
        let kept = nothing_kept(Ghost(KeptOf { files: file_views(files@), dict: dict@ }));
        Chain {
            files,
            offsets,
            dict: Arc::new(dict),
            tag_registry: TagRegistry::new(),
            config: Vec::new(),
            filter: None,
            kept,
        }
    }
}

/// A copy of configuration entries.
fn copy_config(config: &[(String, String)]) -> (r: Vec<(String, String)>)
    ensures
        config_views(r@) == config_views(config@),
{
    let mut out: Vec<(String, String)> = Vec::new();
    let mut i: usize = 0;
    while i < config.len()
        invariant
            i <= config.len(),
            out.len() == i,
            forall|k: int|
                0 <= k < i ==> (#[trigger] out@[k]).0@ == config@[k].0@ && out@[k].1@
                    == config@[k].1@,
        decreases config.len() - i,
    {
        out.push((owned(config[i].0.as_str()), owned(config[i].1.as_str())));
        i = i + 1;
    }
    assert(config_views(out@) =~= config_views(config@));
    out
}

/// Handles to the same files.
fn share_all<S: ReadAt>(files: &Vec<Arc<FileInner<S>>>) -> (r: Vec<Arc<FileInner<S>>>)
    ensures
        r@ == files@,
{
    let mut out: Vec<Arc<FileInner<S>>> = Vec::new();
    let mut i: usize = 0;
    while i < files.len()
        invariant
            i <= files.len(),
            out.len() == i,
            forall|k: int| 0 <= k < i ==> (#[trigger] out@[k]) == files@[k],
        decreases files.len() - i,
    {
        out.push(share(&files[i]));
        i = i + 1;
    }
    assert(out@ =~= files@);
    out
}

/// A copy of a filter, where there is one.
fn copy_filter(filter: &Option<Filter>) -> (r: Option<Filter>)
    ensures
        filter_view(r) == filter_view(*filter),
{
    match filter {
        Some(f) => Some(f.clone()),
        None => None,
    }
}

impl<S: ReadAt> Clone for Chain<S> {
    fn clone(&self) -> (r: Self)
        ensures
            r@ == self@,
    {
        proof {
            use_type_invariant(self);
        }
        Chain {
            files: share_all(&self.files),
            offsets: slice_to_vec(self.offsets.as_slice()),
            dict: share(&self.dict),
            tag_registry: self.tag_registry.clone(),
            config: copy_config(self.config.as_slice()),
            filter: copy_filter(&self.filter),
            kept: share(&self.kept),
        }
    }
}

/// The records of every file of a chain are numbered.
pub proof fn law_chain_is_numbered<S: ReadAt>(c: Chain<S>)
    requires
        c.inv(),
    ensures
        forall|i: int| 0 <= i < c@.files.len() ==> numbered((#[trigger] c@.files[i]).info.spans),
{
}

impl<S: ReadAt> Chain<S> {
    /// Events are numbered across the files.
    #[verifier::type_invariant]
    pub closed spec fn inv(self) -> bool {
        &&& self.offsets.len() == self.files.len() + 1
        &&& forall|i: int|
            0 <= i < self.offsets.len() ==> (#[trigger] self.offsets@[i]) == self@.base(i)
        &&& forall|i: int|
            0 <= i < self.files.len() ==> numbered((#[trigger] self@.files[i]).info.spans)
        &&& self.kept.pred() == (KeptOf { files: self@.files, dict: self@.dict })
    }

    /// A chain of open files. Their dictionaries must not contradict each other: the chain has
    /// every bank that any of them declares. Tag names and configuration are those of the first
    /// file that has any.
    pub fn from_inners(files: Vec<Arc<FileInner<S>>>) -> (r: Result<Self>)
        ensures
            match union_of(dicts_of(file_views(files@))) {
                None => r is Err && is_conflict(
                    dicts_of(file_views(files@)),
                    paths_of(files@),
                    r->Err_0,
                ),
                Some(d) => if events_base(file_views(files@), files@.len()) > u64::MAX {
                    r == Err::<Self, HipoError>(
                        HipoError::Internal("the events of a chain exceed 64 bits"),
                    )
                } else {
                    &&& r is Ok
                    &&& r->Ok_0@ == (ChainView {
                        files: file_views(files@),
                        dict: d,
                        tags: first_tags(file_views(files@)),
                        config: first_config(file_views(files@)),
                        filter: None,
                    })
                },
            },
    {
        let ghost fv = file_views(files@);
        let mut dicts: Vec<&Dict> = Vec::new();
        let mut labels: Vec<&str> = Vec::new();
        let mut i: usize = 0;
        while i < files.len()
            invariant
                i <= files.len(),
                fv == file_views(files@),
                dicts.len() == i,
                labels.len() == i,
                forall|k: int|
                    0 <= k < i ==> (#[trigger] dicts@[k])@ == fv[k].info.dictionary.dict,
                forall|k: int|
                    0 <= k < i ==> (#[trigger] labels@[k])@ == files@[k].spec_path(),
            decreases files.len() - i,
        {
            dicts.push(files[i].dict());
            labels.push(files[i].path());
            i = i + 1;
        }
        assert(dict_views(dicts@) =~= dicts_of(fv));
        assert(label_views(labels@) =~= paths_of(files@));
        let dict = union_dict(dicts.as_slice(), labels.as_slice())?;
        let mut tag_registry = TagRegistry::new();
        let mut config: Vec<(String, String)> = Vec::new();
        let mut offsets: Vec<u64> = Vec::new();
        offsets.push(0);
        let mut acc: u64 = 0;
        let mut f: usize = 0;
        assert(fv.subrange(0, fv.len() as int) =~= fv);
        assert(tag_registry@ =~= Seq::<(Seq<char>, u32)>::empty());
        assert(config_views(config@) =~= Seq::<(Seq<char>, Seq<char>)>::empty());
        while f < files.len()
            invariant
                f <= files.len(),
                fv == file_views(files@),
                fv.len() == files@.len(),
                acc == events_base(fv, f as nat),
                offsets.len() == f + 1,
                forall|k: int|
                    0 <= k < offsets.len() ==> #[trigger] offsets@[k] == events_base(fv, k as nat),
                forall|k: int| 0 <= k < f ==> numbered((#[trigger] fv[k]).info.spans),
                first_tags(fv) == (if tag_registry@.len() > 0 {
                    tag_registry@
                } else {
                    first_tags(fv.subrange(f as int, fv.len() as int))
                }),
                first_config(fv) == (if config@.len() > 0 {
                    config_views(config@)
                } else {
                    first_config(fv.subrange(f as int, fv.len() as int))
                }),
                union_of(dicts_of(fv)) == Some(dict@),
            decreases files.len() - f,
        {
            let n: u64 = files[f].index().total_events();
            let ghost rest = fv.subrange(f as int, fv.len() as int);
            assert(rest[0] == files@[f as int]@);
            assert(rest.drop_first() =~= fv.subrange(f + 1, fv.len() as int));
            if acc > u64::MAX - n {
                proof {
                    lemma_base_monotone(fv, (f + 1) as nat, fv.len());
                }
                return Err(HipoError::Internal("the events of a chain exceed 64 bits"));
            }
            acc = acc + n;
            offsets.push(acc);
            if tag_registry.is_empty() {
                tag_registry = files[f].tag_registry().clone();
            }
            if config.len() == 0 {
                config = copy_config(files[f].config());
                assert(config_views(config@).len() == config@.len());
            }
            f = f + 1;
        }
        assert(fv.subrange(f as int, fv.len() as int) =~= Seq::<FileView>::empty());
        let kept = nothing_kept(Ghost(KeptOf { files: file_views(files@), dict: dict@ }));
        let c = Chain {
            files,
            offsets,
            dict: Arc::new(dict),
            tag_registry,
            config,
            filter: None,
            kept,
        };
        assert(c@.tags =~= first_tags(fv));
        assert(c@.config =~= first_config(fv));
        Ok(c)
    }

    pub fn file_count(&self) -> (r: usize)
        ensures
            r == self@.files.len(),
    {
        self.files.len()
    }

    pub fn is_empty(&self) -> (r: bool)
        ensures
            r == (self@.files.len() == 0),
    {
        self.files.len() == 0
    }

    /// How many events the files hold.
    pub fn event_count(&self) -> (r: u64)
        ensures
            r == self@.total(),
    {
        proof {
            use_type_invariant(self);
        }
        self.offsets[self.files.len()]
    }

    /// The dictionary.
    pub fn schemas(&self) -> (r: &Dict)
        ensures
            r@ == self@.dict,
    {
        &self.dict
    }

    /// The tag names.
    pub fn tag_registry(&self) -> (r: &TagRegistry)
        ensures
            r@ == self@.tags,
    {
        &self.tag_registry
    }

    /// The run configuration, in file order.
    pub fn user_config(&self) -> (r: &[(String, String)])
        ensures
            config_views(r@) == self@.config,
    {
        self.config.as_slice()
    }

    /// The configured value of a key.
    pub fn config(&self, key: &str) -> (r: Option<&str>)
        ensures
            match r {
                Some(v) => exists|i: int|
                    0 <= i < self@.config.len() && #[trigger] self@.config[i] == (key@, v@)
                        && forall|k: int| 0 <= k < i ==> (#[trigger] self@.config[k]).0 != key@,
                None => forall|k: int|
                    0 <= k < self@.config.len() ==> (#[trigger] self@.config[k]).0 != key@,
            },
    {
        let mut i: usize = 0;
        while i < self.config.len()
            invariant
                i <= self.config.len(),
                forall|k: int| 0 <= k < i ==> (#[trigger] self@.config[k]).0 != key@,
            decreases self.config.len() - i,
        {
            assert(self@.config[i as int] == (self.config@[i as int].0@, self.config@[i as int].1@));
            if same_text(self.config[i].0.as_str(), key) {
                return Some(self.config[i].1.as_str());
            }
            i = i + 1;
        }
        assert(self@.config.len() == self.config.len());
        None
    }

    /// File `i`.
    pub fn file(&self, i: usize) -> (r: &Arc<FileInner<S>>)
        requires
            i < self@.files.len(),
        ensures
            r@ == self@.files[i as int],
    {
        &self.files[i]
    }

    /// How many records file `i` has.
    fn records_of(&self, i: usize) -> (r: usize)
        requires
            i < self@.files.len(),
        ensures
            r == self@.files[i as int].info.spans.len(),
    {
        self.files[i].index().record_count()
    }

    /// How many records the files hold, saturating.
    pub fn record_count(&self) -> (r: usize)
        ensures
            r == (if records_before(self@.files, self@.files.len()) > usize::MAX {
                usize::MAX as nat
            } else {
                records_before(self@.files, self@.files.len())
            }),
    {
        let mut n: usize = 0;
        let mut i: usize = 0;
        while i < self.files.len()
            invariant
                i <= self.files.len(),
                self.files.len() == self@.files.len(),
                n == (if records_before(self@.files, i as nat) > usize::MAX {
                    usize::MAX as nat
                } else {
                    records_before(self@.files, i as nat)
                }),
            decreases self.files.len() - i,
        {
            n = n.saturating_add(self.records_of(i));
            i = i + 1;
        }
        n
    }

    /// The header of the first file.
    pub fn file_header(&self) -> (r: Option<&FileHeader>)
        ensures
            match r {
                Some(h) => self@.files.len() > 0 && *h == self@.files[0].info.header,
                None => self@.files.len() == 0,
            },
    {
        if self.files.len() == 0 {
            return None;
        }
        assert(self@.files[0] == self.files@[0]@);
        Some(self.files[0].file_header())
    }

    /// The number of the first event of each file, and of one past the last.
    pub fn event_offsets(&self) -> (r: &[u64])
        ensures
            r.len() == self@.files.len() + 1,
            forall|i: int| 0 <= i < r.len() ==> (#[trigger] r@[i]) == self@.base(i),
            forall|i: int|
                0 <= i < self@.files.len() ==> numbered((#[trigger] self@.files[i]).info.spans),
    {
        proof {
            use_type_invariant(self);
        }
        self.offsets.as_slice()
    }

    /// The filter, bound to the chain's dictionary.
    pub fn filter_ref(&self) -> (r: Option<&Filter>)
        ensures
            match r {
                Some(f) => self@.filter == Some(f@),
                None => self@.filter is None,
            },
    {
        match &self.filter {
            Some(f) => Some(f),
            None => None,
        }
    }

    /// Install a filter in place of the one before, bound to the chain's dictionary. A required
    /// bank that the dictionary lacks is an error.
    pub fn with_filter(self, filter: Filter) -> (r: Result<Self>)
        ensures
            match r {
                Ok(c) => filter@.valid(self@.dict) && c@ == (ChainView {
                    filter: Some(filter@.bound(self@.dict)),
                    ..self@
                }),
                Err(e) => !filter@.valid(self@.dict) && e is UnknownSchema,
            },
    {
        proof {
            use_type_invariant(&self);
        }
        let mut f = filter;
        match f.validate(&self.dict) {
            Ok(_) => {},
            Err(e) => {
                proof {
                    let name = e->UnknownSchema_name@;
                    let i = choose|i: int|
                        0 <= i < filter@.names.len() && #[trigger] filter@.names[i] == name
                            && self@.dict.named(name) is None;
                    assert(self@.dict.named(filter@.names[i]) is None);
                }
                return Err(e);
            },
        }
        f.bind(&self.dict);
        let Chain { files, offsets, dict, tag_registry, config, filter: _, kept } = self;
        Ok(Chain { files, offsets, dict, tag_registry, config, filter: Some(f), kept })
    }

    /// A walk over the events of every file, in order.
    pub fn events(&self) -> (r: ChainEventIter<S>)
        ensures
            r.files() == self@.files,
            r.filter() == self@.filter,
            r.rest() == self@.stream(),
    {
        let files = share_all(&self.files);
        let filter = copy_filter(&self.filter);
        let r = ChainEventIter {
            files,
            next_file: 0,
            current: None,
            filter,
            finished: false,
        };
        assert(r.rest() =~= self@.stream());
        r
    }

    /// The file that holds event number `idx`, and the event's number within that file.
    pub fn file_of(&self, idx: u64) -> (r: Option<(usize, u64)>)
        ensures
            match r {
                Some((f, local)) => f < self@.files.len() && self@.base(f as int) <= idx
                    < self@.base(f + 1) && local == idx - self@.base(f as int),
                None => idx >= self@.total(),
            },
    {
        proof {
            use_type_invariant(self);
        }
        let n: usize = self.files.len();
        if idx >= self.offsets[n] {
            return None;
        }
        let mut lo: usize = 0;
        let mut hi: usize = n;
        while hi - lo > 1
            invariant
                lo < hi <= n,
                n == self.files.len(),
                self.offsets.len() == n + 1,
                forall|i: int|
                    0 <= i < self.offsets.len() ==> (#[trigger] self.offsets@[i]) == self@.base(i),
                self.offsets@[lo as int] <= idx < self.offsets@[hi as int],
            decreases hi - lo,
        {
            let mid: usize = lo + (hi - lo) / 2;
            if self.offsets[mid] <= idx {
                lo = mid;
            } else {
                hi = mid;
            }
        }
        assert(self.offsets@[hi as int] == self@.base(lo + 1));
        Some((lo, idx - self.offsets[lo]))
    }

    /// Where event number `idx` is: its file, the record in that file, and the event in that
    /// record.
    pub fn locate(&self, idx: u64) -> (r: Option<(usize, usize, u32)>)
        ensures
            match r {
                Some((f, rec, e)) => idx < self@.total() && self@.is_place(
                    idx as int,
                    (Place { file: f as int, record: rec as int, event: e as int }),
                ),
                None => idx >= self@.total(),
            },
    {
        let (f, local) = match self.file_of(idx) {
            Some(p) => p,
            None => {
                return None;
            },
        };
        proof {
            lemma_base_monotone(self@.files, (f + 1) as nat, self@.files.len());
        }
        assert(self@.files[f as int] == self.files@[f as int]@);
        match self.files[f].index().locate(local) {
            Some((rec, e)) => Some((f, rec, e)),
            None => {
                assert(self@.base(f + 1) == self@.base(f as int) + events_in(
                    self@.files[f as int].info.spans,
                ));
                None
            },
        }
    }

    /// Where event number `idx` is, as a lookup takes it.
    pub(crate) fn place_of(&self, idx: u64) -> (r: Option<(usize, usize, u32)>)
        ensures
            match r {
                Some((f, rec, e)) => {
                    let p = Place { file: f as int, record: rec as int, event: e as int };
                    &&& idx < self@.total()
                    &&& self@.is_place(idx as int, p)
                    &&& self@.event_at(idx as int) == self@.event_in(p)
                    &&& forall|q: Place| #[trigger] self@.is_place(idx as int, q) ==> q == p
                },
                None => self@.event_at(idx as int) is None && idx >= self@.total(),
            },
    {
        proof {
            use_type_invariant(self);
        }
        let (f, rec, e) = match self.locate(idx) {
            Some(p) => p,
            None => {
                return None;
            },
        };
        proof {
            let p = Place { file: f as int, record: rec as int, event: e as int };
            assert forall|q: Place| #[trigger] self@.is_place(idx as int, q) implies q == p by {
                law_one_place(self@, idx as int, p, q);
            }
            lemma_in_file(self@, idx as int, p);
            lemma_base_monotone(self@.files, (f + 1) as nat, self@.files.len());
        }
        Some((f, rec, e))
    }

    /// Record `rec` of file `f`, decoded with the chain's dictionary. `None` if it cannot be read.
    pub(crate) fn record(&self, f: usize, rec: usize) -> (r: Option<StoredRecord>)
        requires
            f < self@.files.len(),
            rec < self@.files[f as int].info.spans.len(),
        ensures
            self@.intact() || r is Some ==> match r {
                Some(v) => self@.record_of(f as int, rec as int) == Some(v@),
                None => self@.record_of(f as int, rec as int) is None,
            },
    {
        assert(self@.files[f as int] == self.files@[f as int]@);
        let inner = &self.files[f];
        let offset: u64 = inner.index().records()[rec].file_offset;
        let (_, raw) = match inner.read_record(offset) {
            Ok(p) => p,
            Err(_) => {
                return None;
            },
        };
        match StoredRecord::decode(raw.as_slice(), Some(&self.dict)) {
            Ok(record) => Some(record),
            Err(_) => None,
        }
    }

    /// Event `e` of a record, with the chain's dictionary. `None` if the record has no such event.
    pub(crate) fn event_of(&self, record: &StoredRecord, e: u32) -> (r: Option<OwnedEvent>)
        ensures
            match r {
                Some(ev) => e < record@.events() && ev@.event == record@.event(e as int) && ev@.dict
                    == self@.dict,
                None => e >= record@.events(),
            },
    {
        if e >= record.event_count() {
            return None;
        }
        Some(record.owned(e, &self.dict))
    }

    /// Event number `idx` of the chain. `None` if there is no such event or its record cannot be
    /// read. The record that was decoded last is kept: events that lie in one record decode it
    /// once.
    pub fn event(&self, idx: u64) -> (r: Option<OwnedEvent>)
        ensures
            self@.intact() || r is Some ==> match r {
                Some(ev) => self@.event_at(idx as int) == Some(ev@.event) && ev@.dict == self@.dict,
                None => self@.event_at(idx as int) is None,
            },
    {
        let (f, rec, e) = match self.place_of(idx) {
            Some(p) => p,
            None => {
                return None;
            },
        };
        proof {
            use_type_invariant(self);
        }
        let handle = self.kept.acquire_read();
        let hit: Option<Option<OwnedEvent>> = match handle.borrow() {
            Some(k) => if k.file == f && k.record == rec {
                Some(self.event_of(&k.stored, e))
            } else {
                None
            },
            None => None,
        };
        handle.release_read();
        if let Some(ev) = hit {
            return ev;
        }
        match self.record(f, rec) {
            Some(stored) => {
                let ev = self.event_of(&stored, e);
                let (_, handle) = self.kept.acquire_write();
                handle.release_write(Some(KeptRecord { file: f, record: rec, stored }));
                ev
            },
            None => None,
        }
    }

    /// Whether record `rec` of file `f` is wanted.
    fn check_wanted(&self, f: usize, rec: usize) -> (r: bool)
        requires
            f < self@.files.len(),
            rec < self@.files[f as int].info.spans.len(),
        ensures
            self@.steady() ==> r == self@.wants(f as int, rec as int),
            r ==> self@.wants(f as int, rec as int),
    {
        let filter = match &self.filter {
            Some(filter) => filter,
            None => {
                return true;
            },
        };
        let tags = filter.record_tags();
        if tags.len() == 0 {
            return true;
        }
        assert(self@.files[f as int] == self.files@[f as int]@);
        let offset: u64 = self.files[f].index().records()[rec].file_offset;
        let word: u64 = match self.files[f].read_record_header(offset) {
            Ok(h) => h.user_word_1,
            Err(_) => {
                return false;
            },
        };
        let mut i: usize = 0;
        while i < tags.len()
            invariant
                i <= tags.len(),
                tags@ == wanted_tags(self@.filter),
                header_in(
                    self@.files[f as int].bytes,
                    self@.files[f as int].info.spans[rec as int].file_offset as int,
                ) matches Ok(h) && h.user_word_1 == word,
                forall|k: int| 0 <= k < i ==> tags@[k] != word,
            decreases tags.len() - i,
        {
            if tags[i] == word {
                assert(tags@.contains(word));
                return true;
            }
            i = i + 1;
        }
        false
    }

    /// The records that the filter wants, as file and record numbers, in order. Only headers are
    /// read, and only where the filter names record tags.
    pub fn build_tasks(&self) -> (r: Vec<(usize, usize)>)
        ensures
            self@.steady() ==> task_views(r@) == self@.tasks(self@.files.len()),
            forall|i: int| 0 <= i < r.len() ==> self@.is_task(#[trigger] r@[i]),
    {
        let mut out: Vec<(usize, usize)> = Vec::new();
        let mut f: usize = 0;
        assert(task_views(out@) =~= self@.tasks(0));
        while f < self.files.len()
            invariant
                f <= self.files.len(),
                self.files.len() == self@.files.len(),
                self@.steady() ==> task_views(out@) == self@.tasks(f as nat),
                forall|i: int| 0 <= i < out.len() ==> self@.is_task(#[trigger] out@[i]),
            decreases self.files.len() - f,
        {
            let n: usize = self.records_of(f);
            let mut k: usize = 0;
            assert(self@.tasks(f as nat) + self@.file_tasks(f as int, 0) =~= self@.tasks(f as nat));
            while k < n
                invariant
                    k <= n,
                    f < self@.files.len(),
                    n == self@.files[f as int].info.spans.len(),
                    self@.steady() ==> task_views(out@) == self@.tasks(f as nat)
                        + self@.file_tasks(f as int, k as nat),
                    forall|i: int| 0 <= i < out.len() ==> self@.is_task(#[trigger] out@[i]),
                decreases n - k,
            {
                let ghost before = task_views(out@);
                if self.check_wanted(f, k) {
                    out.push((f, k));
                    assert(task_views(out@) =~= before.push((f as int, k as int)));
                }
                proof {
                    if self@.steady() {
                        assert(task_views(out@) =~= self@.tasks(f as nat) + self@.file_tasks(
                            f as int,
                            (k + 1) as nat,
                        ));
                    }
                }
                k = k + 1;
            }
            f = f + 1;
        }
        out
    }
}

/// File and record numbers.
pub open spec fn task_views(tasks: Seq<(usize, usize)>) -> Seq<(int, int)> {
    tasks.map_values(|t: (usize, usize)| (t.0 as int, t.1 as int))
}

/// How many records the first `n` files hold.
pub open spec fn records_before(files: Seq<FileView>, n: nat) -> nat
    decreases n,
{
    if n == 0 {
        0
    } else {
        records_before(files, (n - 1) as nat) + files[n - 1].info.spans.len()
    }
}

/// A walk over the events of a chain.
#[derive(Debug)]
pub struct ChainEventIter<S: ReadAt> {
    files: Vec<Arc<FileInner<S>>>,
    next_file: usize,
    current: Option<EventIter<S>>,
    filter: Option<Filter>,
    finished: bool,
}

/// The error is that of the record which `item` says cannot be read, in the file it names.
pub open spec fn is_fault_of(files: Seq<FileView>, item: (int, Item), e: HipoError) -> bool {
    let (f, fault) = item;
    &&& 0 <= f < files.len()
    &&& fault matches Item::Fault(k) && 0 <= k < files[f].info.spans.len() && record_fault(
        files[f].bytes,
        files[f].info.spans[k],
        files[f].info.dictionary.dict,
        e,
    )
}

/// `item` is this event, of a file whose dictionary is `d`.
pub open spec fn is_event_of(
    files: Seq<FileView>,
    item: (int, Item),
    e: EventView,
    d: DictView,
) -> bool {
    &&& 0 <= item.0 < files.len()
    &&& item.1 == Item::Event(e)
    &&& d == files[item.0].info.dictionary.dict
}

impl<S: ReadAt> ChainEventIter<S> {
    /// The current walk is over one of the files, with the same filter.
    #[verifier::type_invariant]
    pub closed spec fn inv(self) -> bool {
        &&& self.next_file <= self.files.len()
        &&& self.current matches Some(it) ==> it.filter() == self.filter() && self.next_file > 0
            && it.file() == self.files()[self.next_file - 1]
    }

    /// The files.
    pub closed spec fn files(self) -> Seq<FileView> {
        file_views(self.files@)
    }

    /// The filter.
    pub closed spec fn filter(self) -> Option<FilterView> {
        filter_view(self.filter)
    }

    /// What is still to come.
    pub closed spec fn rest(self) -> Seq<(int, Item)> {
        if self.finished {
            Seq::empty()
        } else {
            let later = files_stream(self.files(), self.filter(), self.next_file as int);
            match self.current {
                Some(it) => unless_fault(at_file(self.next_file - 1, it.rest()), later),
                None => later,
            }
        }
    }

    /// Go on to the next file. False where there is none left.
    fn open_next(&mut self) -> (r: bool)
        requires
            old(self).current is None,
            !old(self).finished,
        ensures
            final(self).files() == old(self).files(),
            final(self).filter() == old(self).filter(),
            final(self).finished == old(self).finished,
            final(self).rest() == old(self).rest(),
            r ==> final(self).current is Some && final(self).next_file == old(self).next_file + 1,
            !r ==> old(self).rest().len() == 0 && final(self).current is None,
    {
        proof {
            use_type_invariant(&*self);
        }
        if self.next_file >= self.files.len() {
            return false;
        }
        let ghost before = self.rest();
        let inner = share(&self.files[self.next_file]);
        let it = EventIter::new(inner, copy_filter(&self.filter));
        assert(self.files()[self.next_file as int] == inner@);
        self.next_file = self.next_file + 1;
        self.current = Some(it);
        assert(self.rest() == before);
        true
    }

    /// The next event of the current file. Nothing where it has none left.
    fn next_here(&mut self) -> (r: Option<Result<OwnedEvent>>)
        requires
            old(self).current is Some,
            !old(self).finished,
        ensures
            final(self).files() == old(self).files(),
            final(self).filter() == old(self).filter(),
            final(self).next_file == old(self).next_file,
            r is None ==> final(self).current is None && !final(self).finished,
            all_intact(old(self).files()) || !failed(r) ==> match r {
                Some(Ok(ev)) => {
                    &&& old(self).rest().len() > 0
                    &&& is_event_of(
                        old(self).files(),
                        old(self).rest()[0],
                        ev@.event,
                        ev@.dict,
                    )
                    &&& final(self).rest() == old(self).rest().drop_first()
                },
                Some(Err(e)) => {
                    &&& old(self).rest().len() == 1
                    &&& is_fault_of(old(self).files(), old(self).rest()[0], e)
                    &&& final(self).rest().len() == 0
                },
                None => final(self).rest() == old(self).rest(),
            },
            failed(r) ==> final(self).rest().len() == 0,
    {
        proof {
            use_type_invariant(&*self);
        }
        let mut current = None;
        core::mem::swap(&mut current, &mut self.current);
        let ghost files = self.files();
        let ghost later = files_stream(files, self.filter(), self.next_file as int);
        if let Some(it) = current {
            let mut it = it;
            let ghost f = self.next_file - 1;
            let ghost items = it.rest();
            let ghost here = at_file(f, items);
            assert(files[f] == it.file());
            match it.next_result() {
                Some(Ok(ev)) => {
                    self.current = Some(it);
                    assert(at_file(f, items.drop_first()) =~= here.drop_first());
                    assert(unless_fault(here.drop_first(), later) =~= unless_fault(
                        here,
                        later,
                    ).drop_first());
                    return Some(Ok(ev));
                },
                Some(Err(e)) => {
                    self.finished = true;
                    return Some(Err(e));
                },
                None => {
                    assert(unless_fault(here, later) =~= later);
                },
            }
        }
        None
    }

    /// The next event; an error, once, where a record cannot be read; nothing when the walk is
    /// over.
    pub fn next(&mut self) -> (r: Option<Result<OwnedEvent>>)
        ensures
            final(self).files() == old(self).files(),
            final(self).filter() == old(self).filter(),
            all_intact(old(self).files()) || !failed(r) ==> match r {
                Some(Ok(ev)) => {
                    &&& old(self).rest().len() > 0
                    &&& is_event_of(
                        old(self).files(),
                        old(self).rest()[0],
                        ev@.event,
                        ev@.dict,
                    )
                    &&& final(self).rest() == old(self).rest().drop_first()
                },
                Some(Err(e)) => {
                    &&& old(self).rest().len() == 1
                    &&& is_fault_of(old(self).files(), old(self).rest()[0], e)
                    &&& final(self).rest().len() == 0
                },
                None => old(self).rest().len() == 0 && final(self).rest().len() == 0,
            },
            failed(r) ==> final(self).rest().len() == 0,
    {
        if self.finished {
            return None;
        }
        let n: usize = self.files.len();
        proof {
            use_type_invariant(&*self);
        }
        loop
            invariant
                self.files() == old(self).files(),
                self.filter() == old(self).filter(),
                !self.finished,
                n == self.files().len(),
                self.next_file <= n,
                self.rest() == old(self).rest(),
            decreases
                n - self.next_file,
                (if self.current is Some {
                    1int
                } else {
                    0int
                }),
        {
            let open = match &self.current {
                Some(_) => true,
                None => false,
            };
            if open {
                match self.next_here() {
                    Some(r) => {
                        return Some(r);
                    },
                    None => {},
                }
            } else {
                let opened = self.open_next();
                proof {
                    use_type_invariant(&*self);
                }
                if !opened {
                    self.finished = true;
                    return None;
                }
            }
        }
    }
}

/// No read of any of the files fails.
pub open spec fn all_intact(files: Seq<FileView>) -> bool {
    forall|i: int| 0 <= i < files.len() ==> (#[trigger] files[i]).intact
}

} // verus!
