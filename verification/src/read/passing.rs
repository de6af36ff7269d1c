//! What a filter lets through.

use vstd::prelude::*;
#[allow(unused_imports)]
use crate::event::ctx::CtxView;
#[allow(unused_imports)]
use crate::read::chain::{at_file, files_stream, unless_fault, ChainView};
#[allow(unused_imports)]
use crate::read::filter::FilterView;
#[allow(unused_imports)]
use crate::read::inner::FileView;
#[allow(unused_imports)]
use crate::read::iter::{events_stream, lets_through, records_stream, visit, Item, Visit};
#[allow(unused_imports)]
use crate::read::scan::{law_picked, picked, WindowView};
#[allow(unused_imports)]
use crate::read::stored::StoredView;

verus! {

/// Every event among the items passes.
spec fn all_pass(f: Option<FilterView>, items: Seq<Item>) -> bool {
    forall|k: int| 0 <= k < items.len() ==> match #[trigger] items[k] {
        Item::Event(e) => lets_through(f, e),
        Item::Fault(_) => true,
    }
}

/// What is one behind the other passes where both do.
proof fn lemma_both_pass(f: Option<FilterView>, a: Seq<Item>, b: Seq<Item>)
    requires
        all_pass(f, a),
        all_pass(f, b),
    ensures
        all_pass(f, a + b),
{
    assert forall|k: int| 0 <= k < (a + b).len() implies match #[trigger] (a + b)[k] {
        Item::Event(e) => lets_through(f, e),
        Item::Fault(_) => true,
    } by {
        if k < a.len() {
            assert((a + b)[k] == a[k]);
        } else {
            assert((a + b)[k] == b[k - a.len()]);
        }
    }
}

proof fn lemma_events_pass(v: StoredView, f: Option<FilterView>, e: int)
    ensures
        all_pass(f, events_stream(v, f, e)),
    decreases v.events() - e,
{
    if e < v.events() {
        lemma_events_pass(v, f, e + 1);
        if lets_through(f, v.event(e)) {
            lemma_both_pass(f, seq![Item::Event(v.event(e))], events_stream(v, f, e + 1));
        }
    }
}

proof fn lemma_records_pass(file: FileView, f: Option<FilterView>, r: int)
    ensures
        all_pass(f, records_stream(file, f, r)),
    decreases file.info.spans.len() - r,
{
    if 0 <= r < file.info.spans.len() {
        lemma_records_pass(file, f, r + 1);
        if let Visit::Read(v) = visit(file, f, r) {
            lemma_events_pass(v, f, 0);
            lemma_both_pass(f, events_stream(v, f, 0), records_stream(file, f, r + 1));
        }
    }
}

proof fn lemma_files_pass(files: Seq<FileView>, f: Option<FilterView>, i: int, k: int)
    requires
        0 <= i,
        0 <= k < files_stream(files, f, i).len(),
    ensures
        match files_stream(files, f, i)[k].1 {
            Item::Event(e) => lets_through(f, e),
            Item::Fault(_) => true,
        },
    decreases files.len() - i,
{
    if i < files.len() {
        let items = records_stream(files[i], f, 0);
        let here = at_file(i, items);
        let later = files_stream(files, f, i + 1);
        lemma_records_pass(files[i], f, 0);
        if k < here.len() {
            assert(unless_fault(here, later)[k] == here[k]);
            assert(here[k].1 == items[k]);
        } else {
            assert(unless_fault(here, later)[k] == later[k - here.len()]);
            lemma_files_pass(files, f, i + 1, k - here.len());
        }
    }
}

/// Every event that a walk over a chain hands out passes the filter.
pub proof fn law_walk_hands_out_what_passes(c: ChainView, k: int)
    requires
        0 <= k < c.stream().len(),
    ensures
        c.stream()[k].1 matches Item::Event(e) ==> lets_through(c.filter, e),
{
    lemma_files_pass(c.files, c.filter, 0, k);
}

/// Where no event has a bank that the filter requires, a walk hands out none: each that it hands
/// out has the bank.
pub proof fn law_walk_needs_required_bank(c: ChainView, f: FilterView, group: u16, item: u8, k: int)
    requires
        c.filter == Some(f),
        f.ids.contains((group, item)),
        0 <= k < c.stream().len(),
    ensures
        c.stream()[k].1 matches Item::Event(e) ==> e.has(group, item),
{
    law_walk_hands_out_what_passes(c, k);
    let i = choose|i: int| 0 <= i < f.ids.len() && f.ids[i] == (group, item);
    assert(f.ids[i] == (group, item));
}

/// Where no event of a record has a bank that the filter requires, a scan picks none.
pub proof fn law_scan_needs_required_bank(
    v: StoredView,
    f: FilterView,
    w: Option<WindowView>,
    group: u16,
    item: u8,
)
    requires
        f.ids.contains((group, item)),
        v.events() <= u32::MAX,
        forall|e: int| 0 <= e < v.events() ==> !(#[trigger] v.event(e)).has(group, item),
    ensures
        picked(v, Some(f), w, v.events()).len() == 0,
{
    let out = picked(v, Some(f), w, v.events());
    let i = choose|i: int| 0 <= i < f.ids.len() && f.ids[i] == (group, item);
    assert(f.ids[i] == (group, item));
    if out.len() > 0 {
        let e = out[0];
        assert(out.contains(e));
        law_picked(v, Some(f), w, v.events(), e);
        assert(lets_through(Some(f), v.event(e as int)));
        assert(!v.event(e as int).has(group, item));
    }
}

/// Whatever a scan hands out, of everything or of ranges, has every bank that the filter requires:
/// where no event has such a bank, nothing is handed out.
pub proof fn law_handed_out_has_required_bank(
    c: ChainView,
    f: FilterView,
    ranges: Option<Seq<(u64, u64)>>,
    x: CtxView,
    group: u16,
    item: u8,
)
    requires
        c.filter == Some(f),
        f.ids.contains((group, item)),
        c.may_hand(ranges, x),
    ensures
        x.event.has(group, item),
{
    let i = choose|i: int| 0 <= i < f.ids.len() && f.ids[i] == (group, item);
    assert(f.ids[i] == (group, item));
}

} // verus!
