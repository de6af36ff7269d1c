//! Owned events and events with their dictionary: what they are made of, and composites in them.

use std::sync::Arc;

use vstd::prelude::*;
#[allow(unused_imports)]
use crate::event::composite::{composite_decoded, CompositeFault, CompositeView};
use crate::event::composite::Composite;
use crate::event::ctx::EventCtx;
#[allow(unused_imports)]
use crate::event::event::{
    event_end, event_structures, header_at, next_structure, structure_fits, structures, StructView,
};
use crate::event::event::{Event, StructureHeader};
use crate::event::owned::OwnedEvent;
#[allow(unused_imports)]
use crate::event::view::{composite_at, EventView};
#[allow(unused_imports)]
use crate::laws::events::{length_at, lemma_header, stands_at};
use crate::schema::dict::Dict;

verus! {

/// An owned event is the bytes that it is made of, all of them or a part of a payload, with its
/// dictionary. Its bytes, its size and its structures are those.
pub proof fn law_owned_event_of_bytes(
    bytes: Vec<u8>,
    dict: Arc<Dict>,
    whole: OwnedEvent,
    payload: Arc<Vec<u8>>,
    start: u32,
    end: u32,
    part: OwnedEvent,
    from: usize,
    to: usize,
    far: OwnedEvent,
    back: Vec<u8>,
    size: u32,
    body: Vec<u8>,
)
    requires
        bytes@.len() <= u32::MAX,
        start <= end <= payload@.len(),
        from <= to <= payload@.len(),
        to - from <= u32::MAX,
        call_ensures(OwnedEvent::new, (bytes, dict), whole),
        call_ensures(OwnedEvent::slice, (payload, start, end, dict), part),
        call_ensures(OwnedEvent::within, (payload, from, to, dict), far),
        call_ensures(OwnedEvent::bytes, (&whole,), back),
        call_ensures(OwnedEvent::size, (&whole,), size),
        bytes@.len() >= 16 ==> call_ensures(OwnedEvent::structures_bytes, (&whole,), body),
    ensures
        whole@.dict == dict@ && part@.dict == dict@ && far@.dict == dict@,
        back@ == bytes@,
        size == bytes@.len(),
        bytes@.len() >= 16 ==> body@ == bytes@.subrange(16, bytes@.len() as int),
        part@.event == EventView::Bytes(payload@.subrange(start as int, end as int)),
        far@.event == EventView::Bytes(payload@.subrange(from as int, to as int)),
{
}

/// An event with its dictionary gives back what it is made of, and keeps it when it is owned.
pub proof fn law_ctx_parts<'a>(
    e: Event<'a>,
    dict: &'a Dict,
    x: EventCtx<'a>,
    event: Event<'a>,
    d: &'a Dict,
    raw: &'a [u8],
    shared: Arc<Dict>,
    owned: OwnedEvent,
)
    requires
        e@.len() <= u32::MAX,
        call_ensures(EventCtx::<'a>::new, (e, dict), x),
        call_ensures(EventCtx::<'a>::event, (&x,), event),
        call_ensures(EventCtx::<'a>::dict, (&x,), d),
        call_ensures(EventCtx::<'a>::raw, (&x,), raw),
        call_ensures(EventCtx::<'a>::to_owned_with, (&x, shared), owned),
    ensures
        event@ == e@,
        raw@ == e@,
        d@ == dict@,
        owned@.event == EventView::Bytes(e@),
        owned@.dict == shared@,
{
}

/// The structure is a composite with the id.
pub open spec fn is_composite(h: StructureHeader, group: u16, item: u8) -> bool {
    h.group == group && h.item == item && h.header_size > 0
}

proof fn lemma_composite_at(s: Seq<u8>, pos: int, end: int, group: u16, item: u8) -> (r: (int, int))
    requires
        0 <= pos,
        end <= s.len(),
    ensures
        ({
            let st = structures(s, pos, end);
            let (k, p) = r;
            match composite_at(s, pos, end, group, item) {
                Some(b) => {
                    &&& 0 <= k < st.len()
                    &&& is_composite(st[k].header, group, item)
                    &&& stands_at(s, p, st[k])
                    &&& b == s.subrange(p, p + 8 + length_at(s, p))
                    &&& forall|j: int|
                        0 <= j < k ==> !is_composite((#[trigger] st[j]).header, group, item)
                },
                None => forall|j: int|
                    0 <= j < st.len() ==> !is_composite((#[trigger] st[j]).header, group, item),
            }
        }),
    decreases end - pos,
{
    if pos + 8 <= end {
        lemma_header(s, pos);
    }
    if structure_fits(s, pos, end) {
        let next = next_structure(s, pos);
        let st = structures(s, pos, end);
        let tail = structures(s, next, end);
        if is_composite(header_at(s, pos), group, item) {
            (0, pos)
        } else {
            let (k, p) = lemma_composite_at(s, next, end, group, item);
            assert forall|j: int| 0 < j < st.len() implies #[trigger] st[j] == tail[j - 1] by {}
            if composite_at(s, next, end, group, item) is Some {
                assert(st[k + 1] == tail[k]);
                assert forall|j: int| 0 <= j < k + 1 implies !is_composite(
                    (#[trigger] st[j]).header,
                    group,
                    item,
                ) by {
                    if j > 0 {
                        assert(st[j] == tail[j - 1]);
                    }
                }
            }
            (k + 1, p)
        }
    } else {
        (0, 0)
    }
}

/// The composite of an id is read from the first structure of the event that has the id and a
/// format; there is none where no structure has both.
pub proof fn law_composite_is_found<'a>(
    e: Event<'a>,
    dict: &'a Dict,
    x: EventCtx<'a>,
    all: Vec<(StructureHeader, &'a [u8])>,
    group: u16,
    item: u8,
    r: Option<Composite<'a>>,
) -> (k: int)
    requires
        call_ensures(EventCtx::<'a>::new, (e, dict), x),
        call_ensures(Event::<'a>::structures, (&e,), all),
        call_ensures(EventCtx::<'a>::composite_by_id, (&x, group, item), r),
    ensures
        r matches Some(c) ==> {
            &&& 0 <= k < all@.len()
            &&& is_composite(all@[k].0, group, item)
            &&& forall|j: int|
                0 <= j < k ==> !is_composite((#[trigger] all@[j]).0, group, item)
            &&& exists|p: int|
                stands_at(e@, p, StructView { header: all@[k].0, data: all@[k].1@ })
                    && #[trigger] composite_decoded(e@.subrange(p, p + 8 + length_at(e@, p)))
                    == Ok::<CompositeView, CompositeFault>(c@)
        },
        (forall|j: int| 0 <= j < all@.len() ==> !is_composite((#[trigger] all@[j]).0, group, item))
            ==> r is None,
{
    let s = e@;
    let st = event_structures(s);
    let (k, p) = lemma_composite_at(s, 16, event_end(s), group, item);
    assert forall|i: int| 0 <= i < all@.len() implies (#[trigger] all@[i]).0 == st[i].header
        && all@[i].1@ == st[i].data by {}
    if let Some(c) = r {
        assert(stands_at(s, p, StructView { header: all@[k].0, data: all@[k].1@ }));
        assert(composite_decoded(s.subrange(p, p + 8 + length_at(s, p))) == Ok::<
            CompositeView,
            CompositeFault,
        >(c@));
        assert forall|j: int| 0 <= j < k implies !is_composite((#[trigger] all@[j]).0, group, item) by {
            assert(st[j].header == all@[j].0);
        }
    }
    k
}

} // verus!
