//! Events: a header of sixteen bytes, then structures, one after the other.

use vstd::prelude::*;
use crate::error::HipoError;
use crate::event::bank::Bank;
use crate::event::ctx::EventCtx;
use crate::event::event::{Event, StructureHeader};
#[allow(unused_imports)]
use crate::event::event::{
    event_structures, found, header_at, next_structure, structure_fits, structures, StructView,
};
use crate::event::owned::OwnedEvent;
#[allow(unused_imports)]
use crate::event::view::EventView;
#[allow(unused_imports)]
use crate::laws::banks::zeros;
#[allow(unused_imports)]
use crate::laws::bytes::{law_u16_at_bytes, law_u32_at_bytes};
use crate::schema::dict::Dict;
use crate::schema::handle::BankColumnType;
use crate::schema::types::Schema;
#[allow(unused_imports)]
use crate::schema::types::SchemaView;

verus! {

/// The number that four bytes from `i` on stand for, the least significant first.
pub open spec fn word(s: Seq<u8>, i: int) -> int {
    s[i] + s[i + 1] * 0x100 + s[i + 2] * 0x1_0000 + s[i + 3] * 0x100_0000
}

/// The tag of an event is the word at byte 8 of it, and its size the word at byte 4. An event
/// shorter than its header has neither.
pub proof fn law_event_header<'a>(e: Event<'a>, tag: u32, size: u32)
    requires
        call_ensures(Event::<'a>::tag, (&e,), tag),
        call_ensures(Event::<'a>::size, (&e,), size),
    ensures
        tag == (if e@.len() >= 16 {
            word(e@, 8)
        } else {
            0
        }),
        size == (if e@.len() >= 16 {
            word(e@, 4)
        } else {
            0
        }),
{
    law_u32_at_bytes(e@, 4);
    law_u32_at_bytes(e@, 8);
}

/// How many bytes the structure at byte `p` has after its header: its length word has 24 bits.
pub open spec fn length_at(s: Seq<u8>, p: int) -> int {
    s[p + 4] + s[p + 5] * 0x100 + s[p + 6] * 0x1_0000
}

/// The structure `st` stands at byte `p`: group, item, type, length, inline header size, data.
pub open spec fn stands_at(s: Seq<u8>, p: int, st: StructView) -> bool {
    &&& st.header.group == s[p] + s[p + 1] * 0x100
    &&& st.header.item == s[p + 2]
    &&& st.header.ty == s[p + 3]
    &&& st.header.data_size == length_at(s, p)
    &&& st.header.header_size == s[p + 7]
    &&& st.data == s.subrange(p + 8, p + 8 + length_at(s, p))
}

/// The structures `sts` stand at the bytes `at` of `s`, one right after the other from `pos` on; all
/// end by `end`, and after them there is none more that does.
pub open spec fn stand_in(s: Seq<u8>, pos: int, end: int, sts: Seq<StructView>, at: Seq<int>) -> bool {
    &&& at.len() == sts.len() + 1
    &&& at[0] == pos
    &&& forall|i: int|
        0 <= i < sts.len() ==> {
            &&& stands_at(s, at[i], #[trigger] sts[i])
            &&& at[i] + 8 + length_at(s, at[i]) <= end
            &&& at[i + 1] == at[i] + 8 + length_at(s, at[i])
        }
    &&& at[sts.len() as int] + 8 > end || at[sts.len() as int] + 8 + length_at(
        s,
        at[sts.len() as int],
    ) > end
}

pub(crate) proof fn lemma_header(s: Seq<u8>, p: int)
    requires
        0 <= p,
        p + 8 <= s.len(),
    ensures
        ({
            let h = header_at(s, p);
            &&& h.group == s[p] + s[p + 1] * 0x100
            &&& h.item == s[p + 2]
            &&& h.ty == s[p + 3]
            &&& h.data_size == length_at(s, p)
            &&& h.header_size == s[p + 7]
        }),
{
    law_u16_at_bytes(s, p);
    law_u32_at_bytes(s, p + 4);
}

proof fn lemma_stand_in(s: Seq<u8>, pos: int, end: int) -> (at: Seq<int>)
    requires
        0 <= pos,
        end <= s.len(),
    ensures
        stand_in(s, pos, end, structures(s, pos, end), at),
    decreases end - pos,
{
    if pos + 8 <= end {
        lemma_header(s, pos);
    }
    if structure_fits(s, pos, end) {
        let next = next_structure(s, pos);
        let rest = lemma_stand_in(s, next, end);
        let at = seq![pos] + rest;
        let sts = structures(s, pos, end);
        let tail = structures(s, next, end);
        assert forall|i: int| 0 <= i < sts.len() implies {
            &&& stands_at(s, at[i], #[trigger] sts[i])
            &&& at[i] + 8 + length_at(s, at[i]) <= end
            &&& at[i + 1] == at[i] + 8 + length_at(s, at[i])
        } by {
            if i > 0 {
                assert(sts[i] == tail[i - 1]);
                assert(stands_at(s, rest[i - 1], tail[i - 1]));
            }
        }
        assert(at[sts.len() as int] == rest[tail.len() as int]);
        at
    } else {
        seq![pos]
    }
}

/// Where the structures of an event end: at its size, or at its last byte if that comes first.
pub open spec fn last_byte(s: Seq<u8>) -> int {
    if s.len() < 16 {
        0
    } else if word(s, 4) < s.len() {
        word(s, 4)
    } else {
        s.len() as int
    }
}

/// The structures of an event stand one right after the other from byte 16 on, up to the first
/// that does not end by the event's size and its last byte.
pub proof fn law_event_structures<'a>(e: Event<'a>, r: Vec<(StructureHeader, &'a [u8])>) -> (at: Seq<
    int,
>)
    requires
        call_ensures(Event::<'a>::structures, (&e,), r),
    ensures
        stand_in(
            e@,
            16,
            last_byte(e@),
            r@.map_values(
                |p: (StructureHeader, &'a [u8])| StructView { header: p.0, data: p.1@ },
            ),
            at,
        ),
{
    law_u32_at_bytes(e@, 4);
    let sts = r@.map_values(
        |p: (StructureHeader, &'a [u8])| StructView { header: p.0, data: p.1@ },
    );
    assert forall|i: int| 0 <= i < sts.len() implies sts[i] == event_structures(e@)[i] by {
        assert(r@[i].0 == event_structures(e@)[i].header);
    }
    assert(sts =~= event_structures(e@));
    lemma_stand_in(e@, 16, last_byte(e@))
}

proof fn lemma_found(st: Seq<StructView>, group: u16, item: u8) -> (k: int)
    ensures
        found(st, group, item) is None ==> forall|i: int|
            0 <= i < st.len() ==> !((#[trigger] st[i]).header.group == group && st[i].header.item
                == item),
        found(st, group, item) matches Some(f) ==> 0 <= k < st.len() && f == st[k]
            && st[k].header.group == group && st[k].header.item == item && forall|i: int|
            0 <= i < k ==> !((#[trigger] st[i]).header.group == group && st[i].header.item == item),
    decreases st.len(),
{
    if st.len() == 0 {
        0
    } else if st[0].header.group == group && st[0].header.item == item {
        0
    } else {
        let k = lemma_found(st.drop_first(), group, item);
        assert forall|i: int| 0 < i < st.len() implies st[i] == st.drop_first()[i - 1] by {}
        if found(st, group, item) is Some {
            assert forall|i: int| 0 <= i < k + 1 implies !((#[trigger] st[i]).header.group == group
                && st[i].header.item == item) by {
                if i > 0 {
                    assert(st.drop_first()[i - 1] == st[i]);
                }
            }
        } else {
            assert forall|i: int| 0 <= i < st.len() implies !((#[trigger] st[i]).header.group
                == group && st[i].header.item == item) by {
                if i > 0 {
                    assert(st.drop_first()[i - 1] == st[i]);
                }
            }
        }
        k + 1
    }
}

/// A search of an event returns the first of its structures that has the id; nothing where none
/// has.
pub proof fn law_first_structure_is_found<'a>(
    e: Event<'a>,
    all: Vec<(StructureHeader, &'a [u8])>,
    group: u16,
    item: u8,
    r: Option<(StructureHeader, &'a [u8])>,
    has: bool,
) -> (k: int)
    requires
        call_ensures(Event::<'a>::structures, (&e,), all),
        call_ensures(Event::<'a>::find, (&e, group, item), r),
        call_ensures(Event::<'a>::has, (&e, group, item), has),
    ensures
        has == (r is Some),
        r is None ==> forall|i: int|
            0 <= i < all@.len() ==> !((#[trigger] all@[i]).0.group == group && all@[i].0.item
                == item),
        r matches Some((h, d)) ==> 0 <= k < all@.len() && h == all@[k].0 && d@ == all@[k].1@
            && h.group == group && h.item == item && forall|i: int|
            0 <= i < k ==> !((#[trigger] all@[i]).0.group == group && all@[i].0.item == item),
{
    let st = event_structures(e@);
    let k = lemma_found(st, group, item);
    assert forall|i: int| 0 <= i < all@.len() implies (#[trigger] all@[i]).0 == st[i].header
        && all@[i].1@ == st[i].data by {}
    k
}

/// A walk over the structures of an event hands them out in order: the next one is the first of
/// those still to come.
pub proof fn law_structures_come_in_order<'a, 'b>(
    it: &'b mut crate::event::event::StructureIter<'a>,
    r: Option<(StructureHeader, &'a [u8])>,
)
    requires
        call_ensures(crate::event::event::StructureIter::<'a>::next, (it,), r),
    ensures
        (r is Some) == (old(it)@.len() > 0),
        r matches Some((h, d)) ==> old(it)@
            == seq![StructView { header: h, data: d@ }] + final(it)@,
        r is None ==> final(it)@ == old(it)@,
{
    if let Some((h, d)) = r {
        assert(old(it)@ =~= seq![StructView { header: h, data: d@ }] + final(it)@);
    }
}

/// The bank of an event that is bytes is over the data of the first structure with the schema's id;
/// there is none where no structure has it, or where its data is not a whole number of rows.
pub proof fn law_bank_is_the_structures_data<'a>(
    e: Event<'a>,
    dict: &'a Dict,
    x: EventCtx<'a>,
    schema: &'a Schema,
    f: Option<(StructureHeader, &'a [u8])>,
    b: Option<Bank<'a>>,
)
    requires
        call_ensures(EventCtx::<'a>::new, (e, dict), x),
        call_ensures(Event::<'a>::find, (&e, schema@.group, schema@.item), f),
        call_ensures(EventCtx::<'a>::bank_for, (&x, schema), b),
    ensures
        f is None ==> b is None,
        f matches Some((h, d)) ==> (b is Some) == (schema@.row_size == 0 || d@.len() % (
        schema@.row_size as nat) == 0),
        b matches Some(bank) ==> bank@.schema == schema@ && bank@.lost.len() == 0 && (f matches Some(
            (h, d),
        ) && bank@.data == d@ && bank@.rows == (if schema@.row_size == 0 {
            0
        } else {
            d@.len() / (schema@.row_size as nat)
        })),
{
}

/// A bank is asked for by name: it is the bank of the schema that the dictionary has under the
/// name, and the event has it where it has a structure of that schema's id. Single cells and
/// columns of it are those of the bank; without the bank, cells are zero and columns empty.
pub proof fn law_event_reads_through_its_bank<'a, T: BankColumnType>(
    x: EventCtx<'a>,
    name: &str,
    col: &str,
    row: u32,
    bank: Option<Bank<'a>>,
    cell: T,
    column: Result<Vec<T>, HipoError>,
    of_bank: T,
)
    requires
        call_ensures(EventCtx::<'a>::bank, (&x, name), bank),
        call_ensures(EventCtx::<'a>::get::<T>, (&x, name, col, row), cell),
        call_ensures(EventCtx::<'a>::col::<T>, (&x, name, col), column),
        bank matches Some(b) ==> call_ensures(Bank::<'a>::get::<T>, (&b, col, row), of_bank),
    ensures
        x@.dict.named(name@) is None ==> bank is None,
        bank is Some ==> cell.elems() == of_bank.elems(),
        bank is None ==> zeros::<T>(cell) && column is Ok && column->Ok_0@.len() == 0,
        bank matches Some(b) ==> (column matches Ok(v) ==> v@.len() == b@.rows && (row < b@.rows
            ==> v@[row as int].elems() == cell.elems())),
{
    if let Some(b) = bank {
        let s = b@.schema;
        if s.has_column(col@) {
            let p = choose|p: int| #[trigger]
                s.is_column(col@, p) && crate::event::bank::is_cell_or_zero::<T>(
                    b@,
                    p,
                    row as int,
                    cell,
                );
            let q = choose|q: int| #[trigger]
                s.is_column(col@, q) && crate::event::bank::is_cell_or_zero::<T>(
                    b@,
                    q,
                    row as int,
                    of_bank,
                );
            lemma_one_column(s, col@, p, q);
            if let Ok(v) = column {
                let c = choose|c: int| #[trigger]
                    s.is_column(col@, c) && crate::schema::handle::fits::<T>(s, c)
                        && !b@.lost.contains(c as usize) && crate::event::bank::is_column_of::<T>(
                        b@,
                        c,
                        v@,
                    );
                lemma_one_column(s, col@, p, c);
            }
        } else if let Ok(v) = column {
            let c = choose|c: int| #[trigger]
                s.is_column(col@, c) && crate::schema::handle::fits::<T>(s, c)
                    && !b@.lost.contains(c as usize) && crate::event::bank::is_column_of::<T>(
                    b@,
                    c,
                    v@,
                );
            assert(s.entries[c].name == col@);
        }
    }
}

/// A name leads to one column.
proof fn lemma_one_column(s: SchemaView, name: Seq<char>, a: int, b: int)
    requires
        s.is_column(name, a),
        s.is_column(name, b),
    ensures
        a == b,
{
    if a < b {
        assert(s.entries[b].name != name);
    } else if b < a {
        assert(s.entries[a].name != name);
    }
}

/// An event knows what it has by name and by id: the id is that of the dictionary's schema with
/// the name.
pub proof fn law_event_has_by_name<'a>(
    x: EventCtx<'a>,
    name: &str,
    s: SchemaView,
    by_name: bool,
    by_id: bool,
)
    requires
        call_ensures(EventCtx::<'a>::has, (&x, name), by_name),
        x@.dict.named(name@) == Some(s),
        call_ensures(EventCtx::<'a>::has_id, (&x, s.group, s.item), by_id),
    ensures
        by_name == by_id,
{
}

/// An event that is bytes has a bank where a structure of its id is found, and its tag is the one
/// of its header.
pub proof fn law_ctx_of_bytes<'a>(
    e: Event<'a>,
    dict: &'a Dict,
    x: EventCtx<'a>,
    group: u16,
    item: u8,
    has: bool,
    f: Option<(StructureHeader, &'a [u8])>,
    tag: u32,
    of_event: u32,
)
    requires
        call_ensures(EventCtx::<'a>::new, (e, dict), x),
        call_ensures(EventCtx::<'a>::has_id, (&x, group, item), has),
        call_ensures(Event::<'a>::find, (&e, group, item), f),
        call_ensures(EventCtx::<'a>::tag, (&x,), tag),
        call_ensures(Event::<'a>::tag, (&e,), of_event),
    ensures
        has == (f is Some),
        tag == of_event,
        x@.event == EventView::Bytes(e@),
        x@.dict == dict@,
{
}

/// An owned event says what the borrowed one says: tag, banks, cells, columns.
pub proof fn law_owned_event_reads_alike<'a, T: BankColumnType>(
    o: &'a OwnedEvent,
    x: EventCtx<'a>,
    name: &str,
    col: &str,
    row: u32,
    tag: u32,
    ctx_tag: u32,
    bank: Option<Bank<'a>>,
    ctx_bank: Option<Bank<'a>>,
    has: bool,
    ctx_has: bool,
    cell: T,
    ctx_cell: T,
)
    requires
        call_ensures(OwnedEvent::ctx, (o,), x),
        call_ensures(OwnedEvent::tag, (o,), tag),
        call_ensures(EventCtx::<'a>::tag, (&x,), ctx_tag),
        call_ensures(OwnedEvent::bank, (o, name), bank),
        call_ensures(EventCtx::<'a>::bank, (&x, name), ctx_bank),
        call_ensures(OwnedEvent::has, (o, name), has),
        call_ensures(EventCtx::<'a>::has, (&x, name), ctx_has),
        call_ensures(OwnedEvent::get::<T>, (o, name, col, row), cell),
        call_ensures(EventCtx::<'a>::get::<T>, (&x, name, col, row), ctx_cell),
    ensures
        tag == ctx_tag,
        has == ctx_has,
        (bank is Some) == (ctx_bank is Some),
        bank matches Some(b) ==> b@ == ctx_bank->0@,
        cell.elems() == ctx_cell.elems(),
{
    if let Some(b) = bank {
        let s = b@.schema;
        if s.has_column(col@) {
            let p = choose|p: int| #[trigger]
                s.is_column(col@, p) && crate::event::bank::is_cell_or_zero::<T>(
                    b@,
                    p,
                    row as int,
                    cell,
                );
            let q = choose|q: int| #[trigger]
                s.is_column(col@, q) && crate::event::bank::is_cell_or_zero::<T>(
                    b@,
                    q,
                    row as int,
                    ctx_cell,
                );
            lemma_one_column(s, col@, p, q);
        }
    }
}

/// A dictionary finds a schema by its name, and by its id the one that the id leads to.
pub proof fn law_schema_lookup<'a>(
    d: &'a Dict,
    name: &str,
    group: u16,
    item: u8,
    a: Option<&'a Schema>,
    b: Option<&'a Schema>,
)
    requires
        call_ensures(Dict::get, (d, name), a),
        call_ensures(Dict::get_by_id, (d, group, item), b),
    ensures
        a is None ==> forall|i: int|
            0 <= i < d@.schemas.len() ==> (#[trigger] d@.schemas[i]).name != name@,
        a matches Some(s) ==> s@.name == name@ && exists|i: int|
            0 <= i < d@.schemas.len() && (#[trigger] d@.schemas[i]) == s@,
        b matches Some(s) ==> s@.group == group && s@.item == item,
{
    match a {
        Some(s) => {
            assert(d@.names(d@.position(name@), name@));
            assert(d@.schemas[d@.position(name@)] == s@);
        },
        None => {
            assert forall|i: int| 0 <= i < d@.schemas.len() implies (#[trigger] d@.schemas[i]).name
                != name@ by {
                assert(!d@.names(i, name@));
            }
        },
    }
}

} // verus!
