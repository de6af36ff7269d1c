//! Events of records that keep their banks apart.

use vstd::prelude::*;
use std::sync::Arc;
use crate::event::bank::Bank;
use crate::event::column_bank::ColumnBank;
use crate::event::ctx::EventCtx;
#[allow(unused_imports)]
use crate::event::view::framed_bank;
#[allow(unused_imports)]
use crate::laws::builders::lemma_event_bytes;
#[allow(unused_imports)]
use crate::laws::headers::four;
#[allow(unused_imports)]
use crate::laws::records::at_most_32;
use crate::schema::dict::Dict;
use crate::schema::handle::BankColumnType;
use crate::schema::types::Schema;
use crate::wire::by_bank::ByBankRecord;
#[allow(unused_imports)]
use crate::wire::by_bank::ByBankView;
#[allow(unused_imports)]
use crate::wire::bytes::{le16, le32};
use crate::wire::per_column::PerColumnRecord;
#[allow(unused_imports)]
use crate::wire::per_column::PerColumnView;

verus! {

/// An event of a per-bank record has the tag that the record has for it. It has the bank with an id
/// where the record lists a bank with that id, and the event's bit of the first of them is set.
pub proof fn law_by_bank_event<'a>(
    record: &'a Arc<ByBankRecord>,
    i: u32,
    dict: &'a Dict,
    x: EventCtx<'a>,
    tag: u32,
    group: u16,
    item: u8,
    index: Option<u32>,
    has: bool,
)
    requires
        call_ensures(EventCtx::<'a>::new_by_bank, (record, i, dict), x),
        call_ensures(EventCtx::<'a>::tag, (&x,), tag),
        call_ensures(ByBankRecord::bank_index, (&**record, group, item), index),
        call_ensures(EventCtx::<'a>::has_id, (&x, group, item), has),
    ensures
        tag == record@.tags[i as int],
        x@.dict == dict@,
        has == (index matches Some(b) && record@.has(i as int, b as int)),
{
}

/// The bank of an event of a per-bank record is over the bytes that the record has for the event in
/// that bank's stream; there is none where the event's bit is not set, where the stream cannot be
/// read, or where the bytes are not a whole number of rows.
pub proof fn law_by_bank_event_bank<'a>(
    record: &'a Arc<ByBankRecord>,
    i: u32,
    dict: &'a Dict,
    x: EventCtx<'a>,
    schema: &'a Schema,
    index: Option<u32>,
    data: Option<Vec<u8>>,
    bank: Option<Bank<'a>>,
)
    requires
        call_ensures(EventCtx::<'a>::new_by_bank, (record, i, dict), x),
        call_ensures(
            ByBankRecord::bank_index,
            (&**record, schema@.group, schema@.item),
            index,
        ),
        call_ensures(EventCtx::<'a>::bank_for, (&x, schema), bank),
        index matches Some(b) ==> call_ensures(ByBankRecord::bank_data, (&**record, i, b), data),
        data matches Some(d) ==> d@.len() < u32::MAX,
    ensures
        (bank is Some) == (index matches Some(b) && record@.has(i as int, b as int)
            && (data matches Some(d) && (schema@.row_size == 0 || d@.len() % (
        schema@.row_size as nat) == 0))),
        bank matches Some(x) ==> x@.schema == schema@ && x@.lost.len() == 0 && (data matches Some(d)
            && x@.data == d@),
{
}

/// An event of a per-column record has the tag that the record has for it, and the bank with an id
/// where the record finds a bank with that id and the event's bit of it is set.
pub proof fn law_per_column_event<'a>(
    record: &'a Arc<PerColumnRecord>,
    i: u32,
    dict: &'a Dict,
    x: EventCtx<'a>,
    tag: u32,
    group: u16,
    item: u8,
    index: Option<u32>,
    has: bool,
)
    requires
        call_ensures(EventCtx::<'a>::new_per_column, (record, i, dict), x),
        call_ensures(EventCtx::<'a>::tag, (&x,), tag),
        call_ensures(PerColumnRecord::bank_index, (&**record, group, item), index),
        call_ensures(EventCtx::<'a>::has_id, (&x, group, item), has),
    ensures
        tag == record@.tags[i as int],
        x@.dict == dict@,
        has == (index matches Some(b) && record@.has(i as int, b as int)),
{
}

/// The bank of an event of a per-column record is over the bytes that the record puts together for
/// it under the schema.
pub proof fn law_per_column_event_bank<'a>(
    record: &'a Arc<PerColumnRecord>,
    i: u32,
    dict: &'a Dict,
    x: EventCtx<'a>,
    schema: &'a Schema,
    index: Option<u32>,
    data: Option<(Vec<u8>, Vec<usize>)>,
    bank: Option<Bank<'a>>,
)
    requires
        call_ensures(EventCtx::<'a>::new_per_column, (record, i, dict), x),
        call_ensures(
            PerColumnRecord::bank_index,
            (&**record, schema@.group, schema@.item),
            index,
        ),
        call_ensures(EventCtx::<'a>::bank_for, (&x, schema), bank),
        index matches Some(b) ==> call_ensures(
            PerColumnRecord::bank_data,
            (&**record, i, b, schema),
            data,
        ),
        data matches Some((d, lost)) ==> d@.len() < u32::MAX,
    ensures
        (bank is Some) == (index matches Some(b) && record@.has(i as int, b as int)
            && (data matches Some((d, lost)) && (schema@.row_size == 0 || d@.len() % (
        schema@.row_size as nat) == 0))),
        bank matches Some(x) ==> x@.schema == schema@ && (data matches Some((d, lost)) && x@.data
            == d@ && x@.lost == lost@),
{
}

/// What the first `n` banks of event `e` take up: eight bytes for each that the event has, and its
/// data.
pub open spec fn taken_up(v: ByBankView, e: int, n: int) -> int
    decreases n,
{
    if n <= 0 {
        0
    } else {
        taken_up(v, e, n - 1) + if v.has(e, n - 1) {
            8 + v.offsets[n - 1][e + 1] - v.offsets[n - 1][e]
        } else {
            0
        }
    }
}

proof fn lemma_taken_up(v: ByBankView, e: int, n: nat)
    requires
        v.wf(),
        0 <= e < v.events(),
        n <= v.banks(),
    ensures
        v.span(e, n) == taken_up(v, e, n as int),
    decreases n,
{
    if n > 0 {
        lemma_taken_up(v, e, (n - 1) as nat);
        assert(crate::wire::by_bank::offsets_ok(
            v.offsets[n - 1],
            v.events(),
            v.sizes[n - 1],
        ));
        assert(v.offsets[n - 1][e] <= v.offsets[n - 1][e + 1]);
    }
}

/// [`taken_up`], for a per-column record.
pub open spec fn taken_up_in_columns(v: PerColumnView, e: int, n: int) -> int
    decreases n,
{
    if n <= 0 {
        0
    } else {
        taken_up_in_columns(v, e, n - 1) + if v.has(e, n - 1) {
            8 + v.offsets[n - 1][e + 1] - v.offsets[n - 1][e]
        } else {
            0
        }
    }
}

proof fn lemma_taken_up_in_columns(v: PerColumnView, e: int, n: nat)
    requires
        v.wf(),
        0 <= e < v.events(),
        n <= v.banks(),
    ensures
        v.span(e, n) == taken_up_in_columns(v, e, n as int),
    decreases n,
{
    if n > 0 {
        lemma_taken_up_in_columns(v, e, (n - 1) as nat);
        assert(crate::wire::per_column::offsets_grow(v.offsets[n - 1], v.events()));
        assert(v.offsets[n - 1][e] <= v.offsets[n - 1][e + 1]);
    }
}

/// The size of an event of a split record: 16 bytes, and what its banks take up, or the largest
/// number that 32 bits hold.
pub proof fn law_split_event_size<'a>(
    record: &'a Arc<ByBankRecord>,
    columns: &'a Arc<PerColumnRecord>,
    i: u32,
    dict: &'a Dict,
    x: EventCtx<'a>,
    y: EventCtx<'a>,
    size: u32,
    column_size: u32,
)
    requires
        call_ensures(EventCtx::<'a>::new_by_bank, (record, i, dict), x),
        call_ensures(EventCtx::<'a>::size, (&x,), size),
        call_ensures(EventCtx::<'a>::new_per_column, (columns, i, dict), y),
        call_ensures(EventCtx::<'a>::size, (&y,), column_size),
        record@.wf(),
        columns@.wf(),
        i < record@.header.event_count,
        i < columns@.header.event_count,
    ensures
        size == at_most_32(16 + taken_up(record@, i as int, record@.descriptors.len() as int)),
        column_size == at_most_32(
            16 + taken_up_in_columns(columns@, i as int, columns@.descriptors.len() as int),
        ),
{
    lemma_taken_up(record@, i as int, record@.banks());
    lemma_taken_up_in_columns(columns@, i as int, columns@.banks());
}

/// The first `n` banks that event `e` has, put together one after the other: each is its group,
/// item, type and length in eight bytes, and its data.
pub open spec fn put_together(v: ByBankView, e: int, n: int, data: spec_fn(int) -> Seq<u8>) -> Seq<u8>
    decreases n,
{
    if n <= 0 {
        Seq::empty()
    } else if v.has(e, n - 1) {
        put_together(v, e, n - 1, data) + eight_bytes(
            v.descriptors[n - 1].group,
            v.descriptors[n - 1].item,
            v.descriptors[n - 1].data_type,
            data(n - 1).len() as u32,
        ) + data(n - 1)
    } else {
        put_together(v, e, n - 1, data)
    }
}

/// The eight bytes before the data of a structure.
pub open spec fn eight_bytes(group: u16, item: u8, ty: u8, len: u32) -> Seq<u8> {
    seq![
        (group % 0x100) as u8,
        (group / 0x100) as u8,
        item,
        ty,
        (len % 0x100) as u8,
        (len / 0x100 % 0x100) as u8,
        (len / 0x1_0000 % 0x100) as u8,
        (len / 0x100_0000) as u8,
    ]
}

proof fn lemma_framed(d: crate::wire::split::BankDescriptor, data: Seq<u8>)
    ensures
        framed_bank(d, data) == eight_bytes(d.group, d.item, d.data_type, data.len() as u32) + data,
{
    reveal(le16);
    reveal(le32);
    assert(framed_bank(d, data) =~= eight_bytes(
        d.group,
        d.item,
        d.data_type,
        data.len() as u32,
    ) + data);
}

proof fn lemma_put_together(v: ByBankView, e: int, n: nat, data: spec_fn(int) -> Seq<u8>)
    requires
        forall|b: int| 0 <= b < n && v.has(e, b) ==> #[trigger] v.datum(e, b) == Some(data(b)),
    ensures
        v.blob(e, n) == put_together(v, e, n as int, data),
    decreases n,
{
    if n > 0 {
        lemma_put_together(v, e, (n - 1) as nat, data);
        if v.has(e, n - 1) {
            assert(v.datum(e, n - 1) == Some(data(n - 1)));
            lemma_framed(v.descriptors[n - 1], data(n - 1));
            assert(v.blob(e, n) =~= put_together(v, e, n as int, data));
        }
    }
}

/// An event of a per-bank record as bytes: the letters `EVNT`, its length, its tag, four bytes of
/// zero, and the banks that it has, put together in the order of the record's directory.
pub proof fn law_by_bank_event_bytes<'a>(
    record: &'a Arc<ByBankRecord>,
    i: u32,
    dict: &'a Dict,
    x: EventCtx<'a>,
    bytes: Vec<u8>,
    data: spec_fn(int) -> Seq<u8>,
)
    requires
        call_ensures(EventCtx::<'a>::new_by_bank, (record, i, dict), x),
        call_ensures(EventCtx::<'a>::try_bytes, (&x,), Some(bytes)),
        record@.wf(),
        i < record@.header.event_count,
        forall|b: int|
            0 <= b < record@.descriptors.len() && #[trigger] record@.has(i as int, b)
                ==> record@.offsets[b][i as int] == record@.offsets[b][i + 1] && data(b).len() == 0
                || record@.bank_data(i as int, b) == Some(data(b)),
    ensures
        ({
            let s = bytes@;
            &&& s[0] == 0x45 && s[1] == 0x56 && s[2] == 0x4e && s[3] == 0x54
            &&& four(s, 4, false) == s.len()
            &&& four(s, 8, false) == record@.tags[i as int]
            &&& s.subrange(16, s.len() as int) == put_together(
                record@,
                i as int,
                record@.descriptors.len() as int,
                data,
            )
        }),
{
    let v = record@;
    assert forall|b: int| 0 <= b < v.banks() && v.has(i as int, b) implies #[trigger] v.datum(
        i as int,
        b,
    ) == Some(data(b)) by {
        assert(v.has(i as int, b));
        assert(crate::wire::by_bank::offsets_ok(v.offsets[b], v.events(), v.sizes[b]));
        if v.size(i as int, b) == 0 {
            assert(data(b).len() == 0);
            assert(data(b) =~= Seq::<u8>::empty());
        }
    }
    lemma_put_together(v, i as int, v.banks(), data);
    lemma_event_bytes(v.blob(i as int, v.banks()), v.tags[i as int]);
}

/// A bank that is read column by column is the bank that the record puts together: the same rows,
/// the same bytes and the same lost columns. It can be had where the bank is kept in columns, its
/// rows have a length, and it is shorter than 4 GiB.
pub proof fn law_column_bank_is_the_bank<'a, T: BankColumnType>(
    record: &'a PerColumnRecord,
    schema: &'a Schema,
    i: u32,
    b: u32,
    r: Option<ColumnBank<'a>>,
    data: Option<(Vec<u8>, Vec<usize>)>,
    bank: Bank<'a>,
    name: &str,
    row: u32,
    cell: T,
    same: T,
    rows: u32,
)
    requires
        record@.wf(),
        schema@.laid_out(),
        i < record@.header.event_count,
        b < record@.descriptors.len(),
        call_ensures(ColumnBank::<'a>::new, (record, schema, i, b), r),
        call_ensures(PerColumnRecord::bank_data, (record, i, b, schema), data),
        r matches Some(c) ==> call_ensures(ColumnBank::<'a>::get::<T>, (&c, name, row), cell)
            && call_ensures(ColumnBank::<'a>::rows, (&c,), rows) && bank@ == c@,
        call_ensures(Bank::<'a>::get::<T>, (&bank, name, row), same),
    ensures
        record@.offsets[b as int][i + 1] - record@.offsets[b as int][i as int] < u32::MAX ==> (r
            is Some) == (record@.cols[b as int] != 0 && schema@.row_size > 0),
        r matches Some(c) ==> {
            &&& c@.schema == schema@
            &&& rows == c@.rows
            &&& c@.rows == (record@.offsets[b as int][i + 1] - record@.offsets[b as int][i as int])
                / schema@.row_size as int
            &&& data matches Some((d, lost)) ==> c@.data == d@ && c@.lost == lost@
            &&& cell.elems() == same.elems()
        },
{
    let v = record@;
    assert(crate::wire::per_column::offsets_grow(v.offsets[b as int], v.events()));
    assert(v.offsets[b as int][i as int] <= v.offsets[b as int][i + 1]);
    if let Some(c) = r {
        let len = v.size(i as int, b as int);
        let w = schema@.row_size as int;
        assert(len / w >= 0) by (nonlinear_arith)
            requires
                len >= 0,
                w > 0,
        ;
        if c@.schema.has_column(name@) {
            let x = choose|x: int| #[trigger]
                c@.schema.is_column(name@, x) && crate::event::bank::is_cell_or_zero::<T>(
                    c@,
                    x,
                    row as int,
                    cell,
                );
            let y = choose|y: int| #[trigger]
                c@.schema.is_column(name@, y) && crate::event::bank::is_cell_or_zero::<T>(
                    c@,
                    y,
                    row as int,
                    same,
                );
            crate::event::builders::lemma_the_column(c@.schema, name@, x);
            crate::event::builders::lemma_the_column(c@.schema, name@, y);
        }
    }
}

} // verus!
