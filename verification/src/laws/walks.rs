//! Walks over the events of a chain: which events are handed out, and in what order.

use vstd::prelude::*;
use crate::error::HipoError;
use crate::event::owned::OwnedEvent;
#[allow(unused_imports)]
use crate::laws::chains::{before, goes_through, has_required};
use crate::read::chain::{Chain, ChainEventIter};
#[allow(unused_imports)]
use crate::read::chain::{all_intact, at_file, files_stream, ChainView};
#[allow(unused_imports)]
use crate::read::inner::header_in;
#[allow(unused_imports)]
use crate::read::iter::{events_stream, lets_through, records_stream, visit, Item, Visit};
#[allow(unused_imports)]
use crate::read::skim::{copies_into, copy_finished, is_copy};
use crate::read::source::ReadAt;
#[allow(unused_imports)]
use crate::read::stored::StoredView;
#[allow(unused_imports)]
use crate::write::file::is_trailer;
#[allow(unused_imports)]
use crate::write::history::has_written;
use crate::write::record::Compression;
#[allow(unused_imports)]
use crate::write::writer::WriterView;
use crate::write::writer::WriteSummary;

verus! {

/// Record `r` of file `f` can be read, as far as a walk looks at it: its header where only certain
/// tags are wanted, and all of it where it is wanted.
pub open spec fn can_be_walked(c: ChainView, f: int, r: int) -> bool {
    &&& c.filter matches Some(x) ==> x.record_tags.len() > 0 ==> header_in(
        c.files[f].bytes,
        c.files[f].info.spans[r].file_offset as int,
    ) is Ok
    &&& c.wants(f, r) ==> c.stored(f, r) is Some
}

/// Every record can be read, as far as a walk looks at it.
pub open spec fn all_can_be_walked(c: ChainView) -> bool {
    forall|f: int, r: int|
        0 <= f < c.files.len() && 0 <= r < c.files[f].info.spans.len() ==> #[trigger] can_be_walked(
            c,
            f,
            r,
        )
}

/// What a walk hands out, `items`, is the events at the places `at`, in order.
pub open spec fn handed_from(c: ChainView, items: Seq<(int, Item)>, at: Seq<(int, int, int)>) -> bool {
    &&& at.len() == items.len()
    &&& forall|i: int|
        0 <= i < at.len() ==> {
            &&& goes_through(c, None, (#[trigger] at[i]).0, at[i].1, at[i].2)
            &&& items[i].0 == at[i].0
            &&& items[i].1 == Item::Event(c.stored(at[i].0, at[i].1)->0.event(at[i].2))
        }
    &&& forall|i: int, j: int|
        0 <= i < j < at.len() ==> before(#[trigger] at[i], #[trigger] at[j])
}

/// The record `a`, of file `a.0`, is `b` or comes before it.
spec fn not_after(a: (int, int), b: (int, int)) -> bool {
    a.0 < b.0 || (a.0 == b.0 && a.1 <= b.1)
}

/// The place is in a record from `lo` on and before `hi`.
spec fn within(p: (int, int, int), lo: (int, int), hi: (int, int)) -> bool {
    not_after(lo, (p.0, p.1)) && !not_after(hi, (p.0, p.1))
}

/// The event at the place is one that a walk goes through.
#[verifier::opaque]
spec fn is_place(c: ChainView, p: (int, int, int)) -> bool {
    goes_through(c, None, p.0, p.1, p.2)
}

/// What a walk hands out for the place.
#[verifier::opaque]
spec fn item_at(c: ChainView, p: (int, int, int)) -> (int, Item) {
    (p.0, Item::Event(c.stored(p.0, p.1)->0.event(p.2)))
}

/// The items are those of the records from `lo` on and before `hi`.
spec fn covers_records(
    c: ChainView,
    items: Seq<(int, Item)>,
    at: Seq<(int, int, int)>,
    lo: (int, int),
    hi: (int, int),
) -> bool {
    &&& at.len() == items.len()
    &&& forall|i: int|
        0 <= i < at.len() ==> is_place(c, #[trigger] at[i]) && items[i] == item_at(c, at[i])
            && within(at[i], lo, hi)
    &&& forall|i: int, j: int|
        0 <= i < j < at.len() ==> before(#[trigger] at[i], #[trigger] at[j])
    &&& forall|p: (int, int, int)| #[trigger]
        is_place(c, p) && within(p, lo, hi) ==> at.contains(p)
}

proof fn lemma_join(
    c: ChainView,
    x: Seq<(int, Item)>,
    a: Seq<(int, int, int)>,
    y: Seq<(int, Item)>,
    b: Seq<(int, int, int)>,
    lo: (int, int),
    mid: (int, int),
    hi: (int, int),
)
    requires
        covers_records(c, x, a, lo, mid),
        covers_records(c, y, b, mid, hi),
        not_after(lo, mid),
        not_after(mid, hi),
    ensures
        covers_records(c, x + y, a + b, lo, hi),
{
    let at = a + b;
    let items = x + y;
    assert forall|i: int| 0 <= i < at.len() implies is_place(c, #[trigger] at[i]) && items[i]
        == item_at(c, at[i]) && within(at[i], lo, hi) by {
        if i < a.len() {
            assert(at[i] == a[i]);
        } else {
            assert(at[i] == b[i - a.len()]);
        }
    }
    assert forall|i: int, j: int| 0 <= i < j < at.len() implies before(
        #[trigger] at[i],
        #[trigger] at[j],
    ) by {
        if j < a.len() {
            assert(at[i] == a[i] && at[j] == a[j]);
        } else if i >= a.len() {
            assert(at[i] == b[i - a.len()] && at[j] == b[j - a.len()]);
        } else {
            assert(at[i] == a[i] && at[j] == b[j - a.len()]);
        }
    }
    assert forall|p: (int, int, int)| #[trigger]
        is_place(c, p) && within(p, lo, hi) implies at.contains(p) by {
        if within(p, lo, mid) {
            assert(a.contains(p));
            let i = choose|i: int| 0 <= i < a.len() && a[i] == p;
            assert(at[i] == p);
        } else {
            assert(within(p, mid, hi));
            assert(b.contains(p));
            let i = choose|i: int| 0 <= i < b.len() && b[i] == p;
            assert(at[a.len() + i] == p);
        }
    }
}

/// The events of a record from event `e` on.
proof fn lemma_record_events(c: ChainView, f: int, r: int, v: StoredView, e: int) -> (at: Seq<
    (int, int, int),
>)
    requires
        0 <= f < c.files.len(),
        0 <= r < c.files[f].info.spans.len(),
        c.wants(f, r),
        c.stored(f, r) == Some(v),
        0 <= e,
    ensures
        at.len() == events_stream(v, c.filter, e).len(),
        forall|i: int|
            0 <= i < at.len() ==> {
                &&& is_place(c, #[trigger] at[i])
                &&& at_file(f, events_stream(v, c.filter, e))[i] == item_at(c, at[i])
                &&& at[i].0 == f && at[i].1 == r && at[i].2 >= e
            },
        forall|i: int, j: int|
            0 <= i < j < at.len() ==> before(#[trigger] at[i], #[trigger] at[j]),
        forall|p: (int, int, int)| #[trigger]
            is_place(c, p) && p.0 == f && p.1 == r && p.2 >= e ==> at.contains(p),
    decreases v.events() - e,
{
    if e >= v.events() {
        assert forall|p: (int, int, int)| #[trigger]
            is_place(c, p) && p.0 == f && p.1 == r && p.2 >= e implies false by {
            reveal(is_place);
        }
        Seq::empty()
    } else {
        let rest = lemma_record_events(c, f, r, v, e + 1);
        let here = (f, r, e);
        assert(lets_through(c.filter, v.event(e)) == has_required(c, v.event(e)));
        assert(is_place(c, here) == lets_through(c.filter, v.event(e)) && item_at(c, here) == (
            f,
            Item::Event(v.event(e)),
        )) by {
            reveal(is_place);
            reveal(item_at);
        }
        if lets_through(c.filter, v.event(e)) {
            let at = seq![here] + rest;
            let items = at_file(f, events_stream(v, c.filter, e));
            let old_items = at_file(f, events_stream(v, c.filter, e + 1));
            assert forall|i: int| 0 <= i < at.len() implies {
                &&& is_place(c, #[trigger] at[i])
                &&& items[i] == item_at(c, at[i])
                &&& at[i].0 == f && at[i].1 == r && at[i].2 >= e
            } by {
                if i > 0 {
                    assert(at[i] == rest[i - 1]);
                    assert(items[i] == old_items[i - 1]);
                }
            }
            assert forall|i: int, j: int| 0 <= i < j < at.len() implies before(
                #[trigger] at[i],
                #[trigger] at[j],
            ) by {
                assert(at[j] == rest[j - 1]);
                if i > 0 {
                    assert(at[i] == rest[i - 1]);
                }
            }
            assert forall|p: (int, int, int)| #[trigger]
                is_place(c, p) && p.0 == f && p.1 == r && p.2 >= e implies at.contains(p) by {
                if p.2 == e {
                    assert(at[0] == p);
                } else {
                    assert(rest.contains(p));
                    let i = choose|i: int| 0 <= i < rest.len() && rest[i] == p;
                    assert(at[i + 1] == p);
                }
            }
            at
        } else {
            assert forall|p: (int, int, int)| #[trigger]
                is_place(c, p) && p.0 == f && p.1 == r && p.2 >= e implies rest.contains(p) by {
                if p.2 == e {
                    assert(p == here);
                }
            }
            rest
        }
    }
}

/// The events of a file from record `r` on.
proof fn lemma_file_walk(c: ChainView, f: int, r: int) -> (at: Seq<(int, int, int)>)
    requires
        all_can_be_walked(c),
        0 <= f < c.files.len(),
        0 <= r <= c.files[f].info.spans.len(),
    ensures
        covers_records(
            c,
            at_file(f, records_stream(c.files[f], c.filter, r)),
            at,
            (f, r),
            (f + 1, 0),
        ),
    decreases c.files[f].info.spans.len() - r,
{
    let file = c.files[f];
    if r >= file.info.spans.len() {
        assert forall|p: (int, int, int)| #[trigger]
            is_place(c, p) && within(p, (f, r), (f + 1, 0)) implies false by {
            reveal(is_place);
        }
        Seq::empty()
    } else {
        let b = lemma_file_walk(c, f, r + 1);
        let rest = records_stream(file, c.filter, r + 1);
        assert(can_be_walked(c, f, r));
        if c.wants(f, r) {
            let v = c.stored(f, r)->0;
            assert(visit(file, c.filter, r) == Visit::Read(v));
            let a = lemma_record_events(c, f, r, v, 0);
            let x = events_stream(v, c.filter, 0);
            assert(covers_records(c, at_file(f, x), a, (f, r), (f, r + 1))) by {
                assert forall|p: (int, int, int)| #[trigger]
                    is_place(c, p) && within(p, (f, r), (f, r + 1)) implies a.contains(p) by {
                    assert(p.2 >= 0) by {
                        reveal(is_place);
                    }
                }
            }
            lemma_join(c, at_file(f, x), a, at_file(f, rest), b, (f, r), (f, r + 1), (f + 1, 0));
            assert(at_file(f, x + rest) =~= at_file(f, x) + at_file(f, rest));
            a + b
        } else {
            assert(visit(file, c.filter, r) is Skip);
            assert forall|p: (int, int, int)| #[trigger]
                is_place(c, p) && within(p, (f, r), (f + 1, 0)) implies b.contains(p) by {
                assert(!(p.0 == f && p.1 == r)) by {
                    reveal(is_place);
                }
                assert(within(p, (f, r + 1), (f + 1, 0)));
            }
            b
        }
    }
}

/// The events of a chain from file `f` on.
proof fn lemma_chain_walk(c: ChainView, f: int) -> (at: Seq<(int, int, int)>)
    requires
        all_can_be_walked(c),
        0 <= f <= c.files.len(),
    ensures
        covers_records(
            c,
            files_stream(c.files, c.filter, f),
            at,
            (f, 0),
            (c.files.len() as int, 0),
        ),
    decreases c.files.len() - f,
{
    if f >= c.files.len() {
        Seq::empty()
    } else {
        let a = lemma_file_walk(c, f, 0);
        let b = lemma_chain_walk(c, f + 1);
        let x = at_file(f, records_stream(c.files[f], c.filter, 0));
        let y = files_stream(c.files, c.filter, f + 1);
        if x.len() > 0 {
            assert(x.last() == item_at(c, a.last()));
            assert(x.last().1 is Event) by {
                reveal(item_at);
            }
        }
        lemma_join(c, x, a, y, b, (f, 0), (f + 1, 0), (c.files.len() as int, 0));
        assert(files_stream(c.files, c.filter, f) == x + y);
        a + b
    }
}

/// A walk over a chain hands out, in order and each once, the events whose record is wanted and that
/// have every bank that the filter asks for. Every record must be readable, as far as the walk looks
/// at it.
pub proof fn law_walk_is_complete<S: ReadAt>(chain: &Chain<S>, it: ChainEventIter<S>) -> (at: Seq<
    (int, int, int),
>)
    requires
        call_ensures(Chain::<S>::events, (chain,), it),
        all_can_be_walked(chain@),
    ensures
        it.files() == chain@.files,
        handed_from(chain@, it.rest(), at),
        forall|f: int, r: int, e: int| #[trigger]
            goes_through(chain@, None, f, r, e) ==> at.contains((f, r, e)),
{
    let c = chain@;
    let at = lemma_chain_walk(c, 0);
    reveal(is_place);
    reveal(item_at);
    assert forall|f: int, r: int, e: int| #[trigger]
        goes_through(c, None, f, r, e) implies at.contains((f, r, e)) by {
        assert(is_place(c, (f, r, e)));
        assert(within((f, r, e), (0, 0), (c.files.len() as int, 0)));
    }
    at
}

/// Every step of a walk hands out the first of the events that are still to come, with the
/// dictionary of its file, and the others are to come after it. Where none is to come the walk is at
/// its end, and stays there.
pub proof fn law_walk_goes_on<'b, S: ReadAt>(
    it: &'b mut ChainEventIter<S>,
    r: Option<Result<OwnedEvent, HipoError>>,
)
    requires
        call_ensures(ChainEventIter::<S>::next, (it,), r),
        all_intact(old(it).files()),
    ensures
        final(it).files() == old(it).files(),
        (r is None) == (old(it).rest().len() == 0),
        r is None ==> final(it).rest().len() == 0,
        r matches Some(Ok(ev)) ==> {
            let (f, item) = old(it).rest()[0];
            &&& item == Item::Event(ev@.event)
            &&& ev@.dict == old(it).files()[f].info.dictionary.dict
            &&& final(it).rest().len() == old(it).rest().len() - 1
            &&& final(it).rest() == old(it).rest().subrange(1, old(it).rest().len() as int)
        },
        r matches Some(Err(e)) ==> old(it).rest()[0].1 is Fault && final(it).rest().len() == 0,
{
}

/// A copy of a chain holds, in order and each once, the events whose record is wanted and that have
/// every bank that the filter asks for, byte for byte; they are what the writer of the copy was
/// given, and its summary counts them. The copy has the dictionary and the tag names of the chain,
/// and the compression that was asked for.
pub proof fn law_copy_holds_the_events<S: ReadAt>(
    chain: &Chain<S>,
    compression: Compression,
    bytes: Vec<u8>,
    s: WriteSummary,
) -> (r: (Seq<(int, int, int)>, Seq<Seq<u8>>, WriterView, Seq<u8>))
    requires
        call_ensures(
            Chain::<S>::skim,
            (chain, compression),
            Ok::<(Vec<u8>, WriteSummary), HipoError>((bytes, s)),
        ),
        all_can_be_walked(chain@),
    ensures
        ({
            let (at, events, w, trailer) = r;
            &&& s.events == at.len() == events.len()
            &&& s.bytes == bytes@.len()
            &&& forall|i: int|
                0 <= i < at.len() ==> {
                    &&& goes_through(chain@, None, (#[trigger] at[i]).0, at[i].1, at[i].2)
                    &&& events[i] == chain@.stored(at[i].0, at[i].1)->0.event(at[i].2).bytes(
                        chain@.files[at[i].0].info.dictionary.dict,
                    )
                }
            &&& forall|i: int, j: int|
                0 <= i < j < at.len() ==> before(#[trigger] at[i], #[trigger] at[j])
            &&& forall|f: int, r: int, e: int| #[trigger]
                goes_through(chain@, None, f, r, e) ==> at.contains((f, r, e))
            &&& has_written(w, events)
            &&& w.pending.events.len() == 0
            &&& w.dict == chain@.dict && w.tags == chain@.tags
            &&& w.options.compression == compression
            &&& s.records == w.records.len()
            &&& bytes@ == w.closed(trailer)
        }),
{
    let c = chain@;
    let at = lemma_chain_walk(c, 0);
    let events = choose|events: Seq<Seq<u8>>| #[trigger]
        copy_finished(c, compression, events, bytes@, s) && events.len() == c.stream().len();
    let (w, trailer) = choose|w: WriterView, trailer: Seq<u8>| #[trigger]
        is_trailer(trailer, w.index()) && {
            &&& copies_into(c, compression, w, events)
            &&& w.pending.events.len() == 0
            &&& bytes@ == w.closed(trailer)
            &&& s.events == events.len()
            &&& s.records == w.records.len()
            &&& s.bytes == bytes@.len()
        };
    assert forall|i: int| 0 <= i < at.len() implies {
        &&& goes_through(c, None, (#[trigger] at[i]).0, at[i].1, at[i].2)
        &&& events[i] == c.stored(at[i].0, at[i].1)->0.event(at[i].2).bytes(
            c.files[at[i].0].info.dictionary.dict,
        )
    } by {
        reveal(is_place);
        reveal(item_at);
        assert(c.stream()[i] == item_at(c, at[i]));
        assert(is_copy(c.files, c.stream()[i], events[i]));
    }
    assert forall|f: int, r: int, e: int| #[trigger]
        goes_through(c, None, f, r, e) implies at.contains((f, r, e)) by {
        reveal(is_place);
        assert(is_place(c, (f, r, e)));
        assert(within((f, r, e), (0, 0), (c.files.len() as int, 0)));
    }
    (at, events, w, trailer)
}

} // verus!
