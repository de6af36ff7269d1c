//! `EventCtx<'a>`: a borrowed event, paired with the dictionary that names its banks.
//!
//! Scans hand this out. An event of a record that keeps its banks apart is read bank by bank:
//! a bank that is not asked for stays compressed.

use std::sync::Arc;

use vstd::prelude::*;
use vstd::slice::slice_subrange;
use crate::error::Result;
use crate::event::bank::{may_hold, zero_cell, Bank, BankBytes};
#[allow(unused_imports)]
use crate::event::bank::{is_named_cell, is_named_column, is_zero_cell, BankState};
use crate::event::column_bank::ColumnBank;
#[allow(unused_imports)]
use crate::event::column_bank::{in_columns, law_columnar_bank};
use crate::event::composite::Composite;
#[allow(unused_imports)]
use crate::event::composite::{composite_decoded, CompositeView};
use crate::event::event::{Event, StructureHeader};
#[allow(unused_imports)]
use crate::event::event::{event_end, event_structures, StructView};
#[allow(unused_imports)]
use crate::event::builders::EventBuilderView;
use crate::event::builders::EventBuilder;
use crate::event::owned::{share, OwnedEvent};
use crate::event::view::EventView;
#[allow(unused_imports)]
use crate::event::view::{blank, composite_at, framed_bank};
use crate::event::row_typed::{BankRow, BankView, RowsForKeyIter, RowsIter};
#[allow(unused_imports)]
use crate::event::row_typed::{found_rows, view_state, KeyedState, RowsState};
use crate::schema::dict::Dict;
#[allow(unused_imports)]
use crate::schema::dict::DictView;
use crate::schema::handle::BankColumnType;
use crate::schema::types::Schema;
#[allow(unused_imports)]
use crate::schema::types::cap32;
use crate::wire::by_bank::ByBankRecord;
use crate::wire::bytes::{push_bytes, push_u16_le, push_u32_le, push_zeros, write_bytes};
use crate::wire::per_column::PerColumnRecord;
use crate::wire::split::BankDescriptor;

verus! {

/// Where an event's banks come from.
#[derive(Debug, Clone, Copy)]
enum Backend<'a> {
    Bytes(Event<'a>),
    ByBank { record: &'a Arc<ByBankRecord>, event_idx: u32 },
    PerColumn { record: &'a Arc<PerColumnRecord>, event_idx: u32 },
}

/// A borrowed event and the dictionary of its file.
#[derive(Debug)]
pub struct EventCtx<'a> {
    backend: Backend<'a>,
    dict: &'a Dict,
}

/// What an event with its dictionary says.
pub struct CtxView {
    pub event: EventView,
    pub dict: DictView,
}

impl CtxView {
    /// The bank with this id in the dictionary.
    pub open spec fn id_bank(self, group: u16, item: u8) -> Option<BankState> {
        match self.dict.by_id(group, item) {
            Some(s) => self.event.bank(s),
            None => None,
        }
    }
}

impl<'a> View for EventCtx<'a> {
    type V = CtxView;

    closed spec fn view(&self) -> CtxView {
        CtxView {
            event: match self.backend {
                Backend::Bytes(e) => EventView::Bytes(e@),
                Backend::ByBank { record, event_idx } => EventView::ByBank(
                    record@,
                    event_idx as int,
                ),
                Backend::PerColumn { record, event_idx } => EventView::PerColumn(
                    record@,
                    event_idx as int,
                ),
            },
            dict: self.dict@,
        }
    }
}

/// The event has the bank named `name`, and keeps it in columns.
pub open spec fn keeps_columns(x: CtxView, name: Seq<char>) -> bool {
    match (x.event, x.dict.named(name)) {
        (EventView::PerColumn(v, e), Some(s)) => match v.bank_at(s.group, s.item) {
            Some(b) => v.has(e, b as int) && in_columns(v, e, b as int, s),
            None => false,
        },
        _ => false,
    }
}

/// The composite structure with this id, decoded.
pub open spec fn composite_in(event: EventView, group: u16, item: u8) -> Option<CompositeView> {
    match event {
        EventView::Bytes(s) => match composite_at(s, 16, event_end(s), group, item) {
            Some(b) => match composite_decoded(b) {
                Ok(v) => Some(v),
                Err(_) => None,
            },
            None => None,
        },
        _ => None,
    }
}

/// Append a bank as a structure.
fn push_framed(out: &mut Vec<u8>, d: BankDescriptor, data: &[u8])
    requires
        data.len() <= u32::MAX,
    ensures
        final(out)@ == old(out)@ + framed_bank(d, data@),
{
    push_u16_le(out, d.group);
    out.push(d.item);
    out.push(d.data_type);
    push_u32_le(out, data.len() as u32);
    push_bytes(out, data);
    assert(out@ =~= old(out)@ + framed_bank(d, data@));
}

/// The event that `structures` and `tag` make, where its size fits.
fn finish_event(structures: Vec<u8>, tag: u32) -> (r: Option<Vec<u8>>)
    ensures
        match r {
            Some(b) => 16 + structures.len() <= u32::MAX && b@ == (EventBuilderView {
                structures: structures@,
                tag,
            }).event(),
            None => 16 + structures.len() > u32::MAX,
        },
{
    if structures.len() > (u32::MAX - 16) as usize {
        return None;
    }
    let mut b = EventBuilder::new();
    b.add_bank_bytes(structures.as_slice());
    b.set_tag(tag);
    assert(b@ =~= (EventBuilderView { structures: structures@, tag }));
    Some(b.finish())
}

/// The data of bank `b` in event `e` of a per-bank record.
fn by_bank_datum(record: &ByBankRecord, e: u32, b: u32) -> (r: Option<Vec<u8>>)
    requires
        e < record@.events(),
        b < record@.banks(),
    ensures
        match r {
            Some(d) => record@.datum(e as int, b as int) == Some(d@) && d.len() <= u32::MAX,
            None => record@.datum(e as int, b as int) is None,
        },
{
    if record.bank_size(e, b) == 0 {
        let empty: Vec<u8> = Vec::new();
        assert(empty@ =~= Seq::<u8>::empty());
        return Some(empty);
    }
    record.bank_data(e, b)
}

/// Put together event `event_idx` of a per-bank record.
fn synthesize_event_bytes(record: &ByBankRecord, event_idx: u32) -> (r: Option<Vec<u8>>)
    requires
        event_idx < record@.events(),
    ensures
        match r {
            Some(b) => record@.all_read(event_idx as int, record@.banks()) && 16 + record@.blob(
                event_idx as int,
                record@.banks(),
            ).len() <= u32::MAX && b@ == (EventBuilderView {
                structures: record@.blob(event_idx as int, record@.banks()),
                tag: record@.tags[event_idx as int],
            }).event(),
            None => !record@.all_read(event_idx as int, record@.banks()) || 16 + record@.blob(
                event_idx as int,
                record@.banks(),
            ).len() > u32::MAX,
        },
{
    let n: usize = record.num_banks();
    let ghost e = event_idx as int;
    let mut out: Vec<u8> = Vec::new();
    let mut b: usize = 0;
    assert(out@ =~= record@.blob(e, 0));
    while b < n
        invariant
            b <= n,
            n == record@.banks(),
            n <= u32::MAX,
            e == event_idx,
            event_idx < record@.events(),
            out@ == record@.blob(e, b as nat),
            record@.all_read(e, b as nat),
        decreases n - b,
    {
        if record.has(event_idx, b as u32) {
            let (group, item, data_type) = record.descriptor(b as u32);
            match by_bank_datum(record, event_idx, b as u32) {
                Some(data) => {
                    let d = BankDescriptor { group, item, data_type };
                    assert(d == record@.descriptors[b as int]);
                    push_framed(&mut out, d, data.as_slice());
                },
                None => {
                    assert(record@.datum(e, b as int) is None);
                    return None;
                },
            }
        }
        b = b + 1;
    }
    finish_event(out, record.event_tag(event_idx))
}

/// Lay out the cells of bank `b` in event `e` of a per-column record under a schema.
fn fill_columns(record: &PerColumnRecord, e: u32, b: u32, schema: &Schema) -> (r: Vec<u8>)
    requires
        e < record@.events(),
        b < record@.banks(),
        schema@.row_size > 0,
    ensures
        r@ == record@.columns_filled(e as int, b as int, schema@, schema@.entries.len()),
        r.len() == record@.size(e as int, b as int),
{
    let size: u32 = record.bank_size(e, b);
    let rows: u32 = size / schema.row_size();
    let mut out: Vec<u8> = Vec::new();
    push_zeros(&mut out, size as usize);
    let ghost (ei, bi) = (e as int, b as int);
    assert(out@ =~= blank(size as nat));
    let entries = schema.entries();
    let mut c: usize = 0;
    while c < entries.len()
        invariant
            c <= entries.len(),
            entries.len() == schema@.entries.len(),
            forall|k: int|
                0 <= k < entries.len() ==> (#[trigger] entries@[k])@ == schema@.entries[k],
            ei == e,
            bi == b,
            e < record@.events(),
            b < record@.banks(),
            schema@.row_size > 0,
            size == record@.size(ei, bi),
            rows == record@.rows_in(ei, bi, schema@.row_size as nat),
            out@ == record@.columns_filled(ei, bi, schema@, c as nat),
            out.len() == size,
        decreases entries.len() - c,
    {
        let offset: u32 = entries[c].row_offset;
        assert(rows as u64 * offset as u64 <= 0xffff_ffff * 0xffff_ffff && rows * offset >= 0)
            by (nonlinear_arith)
            requires
                0 <= rows <= 0xffff_ffff,
                0 <= offset <= 0xffff_ffff,
        ;
        let at: u64 = rows as u64 * offset as u64;
        if let Some(d) = record.column_data(e, b, c, schema) {
            if at <= size as u64 && d.len() <= (size as u64 - at) as usize {
                write_bytes(&mut out, at as usize, d.as_slice());
            }
        }
        c = c + 1;
    }
    out
}

/// The data of bank `b` in event `e` of a per-column record, with zeros where it cannot be
/// read.
fn fill_bank(record: &PerColumnRecord, e: u32, b: u32, dict: &Dict) -> (r: Vec<u8>)
    requires
        e < record@.events(),
        b < record@.banks(),
    ensures
        r@ == record@.bank_filled(e as int, b as int, dict@),
        r.len() == record@.size(e as int, b as int),
{
    let size: u32 = record.bank_size(e, b);
    let mut zero: Vec<u8> = Vec::new();
    push_zeros(&mut zero, size as usize);
    assert(zero@ =~= blank(size as nat));
    if record.is_opaque(b) {
        return match record.opaque_data(e, b) {
            Some(d) => d,
            None => zero,
        };
    }
    let (group, item, _) = record.descriptor(b);
    match dict.get_by_id(group, item) {
        Some(s) => {
            if s.row_size() == 0 {
                return zero;
            }
            fill_columns(record, e, b, s)
        },
        None => zero,
    }
}

/// Put together event `event_idx` of a per-column record: every bank laid out column by column
/// under its schema.
fn synthesize_per_column_event_bytes(record: &PerColumnRecord, event_idx: u32, dict: &Dict) -> (r:
    Option<Vec<u8>>)
    requires
        event_idx < record@.events(),
    ensures
        match r {
            Some(b) => 16 + record@.blob(event_idx as int, dict@, record@.banks()).len()
                <= u32::MAX && b@ == (EventBuilderView {
                structures: record@.blob(event_idx as int, dict@, record@.banks()),
                tag: record@.tags[event_idx as int],
            }).event(),
            None => 16 + record@.blob(event_idx as int, dict@, record@.banks()).len() > u32::MAX,
        },
{
    let n: usize = record.num_banks();
    let ghost e = event_idx as int;
    let mut out: Vec<u8> = Vec::new();
    let mut b: usize = 0;
    assert(out@ =~= record@.blob(e, dict@, 0));
    while b < n
        invariant
            b <= n,
            n == record@.banks(),
            n <= u32::MAX,
            e == event_idx,
            event_idx < record@.events(),
            out@ == record@.blob(e, dict@, b as nat),
        decreases n - b,
    {
        if record.has(event_idx, b as u32) {
            let (group, item, data_type) = record.descriptor(b as u32);
            let d = BankDescriptor { group, item, data_type };
            assert(d == record@.descriptors[b as int]);
            let data = fill_bank(record, event_idx, b as u32, dict);
            push_framed(&mut out, d, data.as_slice());
        }
        b = b + 1;
    }
    finish_event(out, record.event_tag(event_idx))
}

impl<'a> EventCtx<'a> {
    /// The event is one that its record has.
    #[verifier::type_invariant]
    pub closed spec fn inv(self) -> bool {
        match self.backend {
            Backend::Bytes(_) => true,
            Backend::ByBank { record, event_idx } => event_idx < record@.events(),
            Backend::PerColumn { record, event_idx } => event_idx < record@.events(),
        }
    }

    /// An event over its bytes.
    pub fn new(event: Event<'a>, dict: &'a Dict) -> (r: Self)
        ensures
            r@.event == EventView::Bytes(event@),
            r@.dict == dict@,
    {
        EventCtx { backend: Backend::Bytes(event), dict }
    }

    /// An event of a per-bank record. Streams stay compressed until a bank is asked for.
    pub fn new_by_bank(record: &'a Arc<ByBankRecord>, event_idx: u32, dict: &'a Dict) -> (r: Self)
        requires
            event_idx < record@.events(),
        ensures
            r@.event == EventView::ByBank(record@, event_idx as int),
            r@.dict == dict@,
    {
        EventCtx { backend: Backend::ByBank { record, event_idx }, dict }
    }

    /// An event of a per-column record. Streams stay compressed until a bank is asked for.
    pub fn new_per_column(record: &'a Arc<PerColumnRecord>, event_idx: u32, dict: &'a Dict) -> (r:
        Self)
        requires
            event_idx < record@.events(),
        ensures
            r@.event == EventView::PerColumn(record@, event_idx as int),
            r@.dict == dict@,
    {
        EventCtx { backend: Backend::PerColumn { record, event_idx }, dict }
    }

    /// The event's bytes, where it has them; the empty event otherwise.
    pub fn event(&self) -> (r: Event<'a>)
        ensures
            r@ == (match self@.event {
                EventView::Bytes(s) => s,
                _ => Seq::empty(),
            }),
    {
        Event::new(self.raw())
    }

    /// The dictionary.
    pub fn dict(&self) -> (r: &'a Dict)
        ensures
            r@ == self@.dict,
    {
        self.dict
    }

    /// The event's bytes, where it has them; none otherwise.
    pub fn raw(&self) -> (r: &'a [u8])
        ensures
            r@ == (match self@.event {
                EventView::Bytes(s) => s,
                _ => Seq::empty(),
            }),
    {
        match &self.backend {
            Backend::Bytes(e) => e.raw(),
            _ => {
                let none: &'a [u8] = &[];
                assert(none@ =~= Seq::<u8>::empty());
                none
            },
        }
    }

    pub fn tag(&self) -> (r: u32)
        ensures
            r == self@.event.tag(),
    {
        proof {
            use_type_invariant(self);
        }
        match &self.backend {
            Backend::Bytes(e) => e.tag(),
            Backend::ByBank { record, event_idx } => record.event_tag(*event_idx),
            Backend::PerColumn { record, event_idx } => record.event_tag(*event_idx),
        }
    }

    /// The size of the event in bytes: what its header says, or what its banks take up,
    /// saturating.
    pub fn size(&self) -> (r: u32)
        ensures
            r == self@.event.size(),
    {
        proof {
            use_type_invariant(self);
        }
        match &self.backend {
            Backend::Bytes(e) => e.size(),
            Backend::ByBank { record, event_idx } => {
                let n: usize = record.num_banks();
                let mut total: u32 = 16;
                let mut b: usize = 0;
                while b < n
                    invariant
                        b <= n,
                        n == record@.banks(),
                        n <= u32::MAX,
                        event_idx < record@.events(),
                        total == cap32(16 + record@.span(*event_idx as int, b as nat)),
                    decreases n - b,
                {
                    if record.has(*event_idx, b as u32) {
                        let size: u32 = record.bank_size(*event_idx, b as u32);
                        total = total.saturating_add(8).saturating_add(size);
                    }
                    b = b + 1;
                }
                total
            },
            Backend::PerColumn { record, event_idx } => {
                let n: usize = record.num_banks();
                let mut total: u32 = 16;
                let mut b: usize = 0;
                while b < n
                    invariant
                        b <= n,
                        n == record@.banks(),
                        n <= u32::MAX,
                        event_idx < record@.events(),
                        total == cap32(16 + record@.span(*event_idx as int, b as nat)),
                    decreases n - b,
                {
                    if record.has(*event_idx, b as u32) {
                        let size: u32 = record.bank_size(*event_idx, b as u32);
                        total = total.saturating_add(8).saturating_add(size);
                    }
                    b = b + 1;
                }
                total
            },
        }
    }

    /// The bank with this name. `None` if the dictionary lacks the schema, the event lacks the
    /// bank, or the bank's data cannot be read or is not a whole number of rows.
    pub fn bank(&self, name: &str) -> (r: Option<Bank<'a>>)
        ensures
            match r {
                Some(b) => self@.event.named_bank(self@.dict, name@) == Some(b@),
                None => self@.event.named_bank(self@.dict, name@) is None,
            },
    {
        match self.dict.get(name) {
            Some(schema) => self.bank_for(schema),
            None => None,
        }
    }

    /// The bank with this id in the dictionary.
    fn bank_by_id_raw(&self, group: u16, item: u8) -> (r: Option<Bank<'a>>)
        ensures
            match r {
                Some(b) => self@.id_bank(group, item) == Some(b@),
                None => self@.id_bank(group, item) is None,
            },
    {
        match self.dict.get_by_id(group, item) {
            Some(schema) => self.bank_for(schema),
            None => None,
        }
    }

    /// The bank of `T`, read as rows.
    pub(crate) fn bank_view<T: BankRow>(&self) -> (r: Option<BankView<'a, T>>)
        ensures
            view_state(r) == self@.id_bank(T::GROUP, T::ITEM),
    {
        match self.bank_by_id_raw(T::GROUP, T::ITEM) {
            Some(bank) => Some(BankView::new(bank)),
            None => None,
        }
    }

    /// The rows of the bank of `T`. There are none where the event lacks the bank.
    pub fn rows<T: BankRow>(&self) -> (r: RowsIter<'a, T>)
        ensures
            r@ == (RowsState { bank: self@.id_bank(T::GROUP, T::ITEM), next: 0 }),
    {
        RowsIter::new(self.bank_view::<T>())
    }

    /// The rows of the bank of `T` whose `pindex` is `pindex`.
    pub fn rows_for_pindex<T: BankRow>(&self, pindex: i16) -> (r: RowsForKeyIter<'a, T>)
        ensures
            r@ == (KeyedState {
                bank: self@.id_bank(T::GROUP, T::ITEM),
                rows: found_rows(self@.id_bank(T::GROUP, T::ITEM), "pindex"@, pindex),
                next: 0,
            }),
    {
        RowsForKeyIter::new_pindex(self.bank_view::<T>(), pindex)
    }

    /// The rows of the bank of `T` whose `index` is `key`.
    pub fn rows_for_index<T: BankRow>(&self, key: i16) -> (r: RowsForKeyIter<'a, T>)
        ensures
            r@ == (KeyedState {
                bank: self@.id_bank(T::GROUP, T::ITEM),
                rows: found_rows(self@.id_bank(T::GROUP, T::ITEM), "index"@, key),
                next: 0,
            }),
    {
        RowsForKeyIter::new_index(self.bank_view::<T>(), key)
    }

    /// The bank that a schema describes.
    pub fn bank_for(&self, schema: &'a Schema) -> (r: Option<Bank<'a>>)
        ensures
            match r {
                Some(b) => self@.event.bank(schema@) == Some(b@),
                None => self@.event.bank(schema@) is None,
            },
    {
        proof {
            use_type_invariant(self);
        }
        let data: Option<(Vec<u8>, Vec<usize>)> = match &self.backend {
            Backend::Bytes(e) => {
                return match e.find(schema.group(), schema.item()) {
                    Some((_, data)) => match Bank::new(schema, data) {
                        Ok(b) => Some(b),
                        Err(_) => None,
                    },
                    None => None,
                };
            },
            Backend::ByBank { record, event_idx } => match record.bank_index(
                schema.group(),
                schema.item(),
            ) {
                Some(b) => if record.has(*event_idx, b) {
                    match record.bank_data(*event_idx, b) {
                        Some(d) => Some((d, Vec::new())),
                        None => None,
                    }
                } else {
                    None
                },
                None => None,
            },
            Backend::PerColumn { record, event_idx } => match record.bank_index(
                schema.group(),
                schema.item(),
            ) {
                Some(b) => if record.has(*event_idx, b) {
                    record.bank_data(*event_idx, b, schema)
                } else {
                    None
                },
                None => None,
            },
        };
        match data {
            Some((d, lost)) => {
                if !may_hold(schema, d.len()) {
                    return None;
                }
                match Bank::from_columns(schema, d, lost) {
                    Ok(b) => Some(b),
                    Err(_) => None,
                }
            },
            None => None,
        }
    }

    /// The bank with this name where the event keeps it in columns: reading a column of it leaves
    /// the others compressed.
    pub fn column_bank(&self, name: &str) -> (r: Option<ColumnBank<'a>>)
        ensures
            r matches Some(b) ==> self@.event.named_bank(self@.dict, name@) == Some(b@),
            r is Some == keeps_columns(self@, name@),
    {
        proof {
            use_type_invariant(self);
        }
        let schema = match self.dict.get(name) {
            Some(s) => s,
            None => {
                return None;
            },
        };
        match &self.backend {
            Backend::PerColumn { record, event_idx } => match record.bank_index(
                schema.group(),
                schema.item(),
            ) {
                Some(b) => if record.has(*event_idx, b) {
                    let r = ColumnBank::new(record, schema, *event_idx, b);
                    proof {
                        if r is Some {
                            law_columnar_bank(record@, *event_idx as int, b as int, schema@);
                        }
                    }
                    r
                } else {
                    None
                },
                None => None,
            },
            _ => None,
        }
    }

    /// One cell of a bank. Zero where the bank or the column is missing, the column cannot be
    /// read as `T`, or the row is not there.
    pub fn get<T: BankColumnType>(&self, bank: &str, col: &str, row: u32) -> (r: T)
        ensures
            match self@.event.named_bank(self@.dict, bank@) {
                Some(b) => is_named_cell::<T>(b, col@, row as int, r),
                None => is_zero_cell::<T>(r),
            },
    {
        if let Some(b) = self.column_bank(bank) {
            return b.get::<T>(col, row);
        }
        match self.bank(bank) {
            Some(b) => b.get::<T>(col, row),
            None => zero_cell::<T>(),
        }
    }

    /// A column of a bank, one cell per row. A missing bank has no rows.
    pub fn col<T: BankColumnType>(&self, bank: &str, col: &str) -> (r: Result<Vec<T>>)
        ensures
            match self@.event.named_bank(self@.dict, bank@) {
                Some(b) => is_named_column::<T>(b, col@, r),
                None => r is Ok && r->Ok_0@ == Seq::<T>::empty(),
            },
    {
        if let Some(b) = self.column_bank(bank) {
            return b.col::<T>(col);
        }
        match self.bank(bank) {
            Some(b) => b.col::<T>(col),
            None => Ok(Vec::new()),
        }
    }

    /// True if the event has a bank with this name.
    pub fn has(&self, name: &str) -> (r: bool)
        ensures
            r == self@.event.has_named(self@.dict, name@),
    {
        match self.dict.get(name) {
            Some(schema) => self.has_id(schema.group(), schema.item()),
            None => false,
        }
    }

    /// True if the event has a bank with this id.
    pub fn has_id(&self, group: u16, item: u8) -> (r: bool)
        ensures
            r == self@.event.has(group, item),
    {
        proof {
            use_type_invariant(self);
        }
        match &self.backend {
            Backend::Bytes(e) => e.has(group, item),
            Backend::ByBank { record, event_idx } => match record.bank_index(group, item) {
                Some(b) => record.has(*event_idx, b),
                None => false,
            },
            Backend::PerColumn { record, event_idx } => match record.bank_index(group, item) {
                Some(b) => record.has(*event_idx, b),
                None => false,
            },
        }
    }

    /// The structures of the event: headers, and data. None for an event of a per-column
    /// record, whose banks are in pieces: put it together with
    /// [`OwnedEvent::structures`](crate::event::owned::OwnedEvent::structures).
    pub fn structures(&self) -> (r: Vec<(StructureHeader, BankBytes<'a>)>)
        ensures
            r.len() == self@.event.structs().len(),
            forall|i: int|
                0 <= i < r.len() ==> (#[trigger] r@[i]).0 == self@.event.structs()[i].header
                    && r@[i].1@ == self@.event.structs()[i].data,
    {
        proof {
            use_type_invariant(self);
        }
        let mut out: Vec<(StructureHeader, BankBytes<'a>)> = Vec::new();
        match &self.backend {
            Backend::Bytes(ev) => {
                let all = ev.structures();
                let ghost sts = event_structures(ev@);
                let mut i: usize = 0;
                while i < all.len()
                    invariant
                        i <= all.len(),
                        out.len() == i,
                        all.len() == sts.len(),
                        forall|k: int|
                            0 <= k < all.len() ==> (#[trigger] all@[k]).0 == sts[k].header
                                && all@[k].1@ == sts[k].data,
                        forall|k: int|
                            0 <= k < i ==> (#[trigger] out@[k]).0 == sts[k].header && out@[k].1@
                                == sts[k].data,
                    decreases all.len() - i,
                {
                    let (h, d) = all[i];
                    out.push((h, BankBytes::Borrowed(d)));
                    i = i + 1;
                }
                out
            },
            Backend::ByBank { record, event_idx } => {
                let n: usize = record.num_banks();
                let e: u32 = *event_idx;
                let ghost sts = record@.structs(e as int, 0);
                let mut b: usize = 0;
                assert(sts =~= sts.subrange(0, 0) + record@.structs(e as int, 0));
                while b < n
                    invariant
                        b <= n,
                        n == record@.banks(),
                        n <= u32::MAX,
                        e < record@.events(),
                        out.len() <= sts.len(),
                        sts == sts.subrange(0, out.len() as int) + record@.structs(
                            e as int,
                            b as int,
                        ),
                        forall|k: int|
                            0 <= k < out.len() ==> (#[trigger] out@[k]).0 == sts[k].header
                                && out@[k].1@ == sts[k].data,
                        self@.event == EventView::ByBank(record@, e as int),
                        sts == record@.structs(e as int, 0),
                    decreases n - b,
                {
                    if record.has(e, b as u32) {
                        let (group, item, ty) = record.descriptor(b as u32);
                        let data_size: u32 = record.bank_size(e, b as u32);
                        match by_bank_datum(record, e, b as u32) {
                            Some(data) => {
                                let ghost tail = record@.structs(e as int, b as int);
                                let ghost k = out.len() as int;
                                let header = StructureHeader {
                                    group,
                                    item,
                                    ty,
                                    data_size,
                                    header_size: 0,
                                };
                                assert(tail[0] == (StructView { header, data: data@ }));
                                assert(sts[k] == tail[0]);
                                out.push((header, BankBytes::Owned(data)));
                                assert(record@.structs(e as int, b + 1) =~= tail.subrange(
                                    1,
                                    tail.len() as int,
                                ));
                                assert(sts =~= sts.subrange(0, k + 1) + record@.structs(
                                    e as int,
                                    b + 1,
                                ));
                            },
                            None => {
                                assert(record@.structs(e as int, b as int) =~= Seq::empty());
                                return out;
                            },
                        }
                    }
                    b = b + 1;
                }
                assert(record@.structs(e as int, b as int) =~= Seq::empty());
                out
            },
            Backend::PerColumn { .. } => out,
        }
    }

    /// The composite structure with this name, decoded. None for an event of a record that
    /// keeps its banks apart: that layout stores no length of an inline format, so a composite
    /// cannot be told from other data there.
    pub fn composite(&self, name: &str) -> (r: Option<Composite<'a>>)
        ensures
            match r {
                Some(c) => self@.dict.named(name@) is Some && composite_in(
                    self@.event,
                    self@.dict.named(name@)->0.group,
                    self@.dict.named(name@)->0.item,
                ) == Some(c@),
                None => self@.dict.named(name@) is Some ==> composite_in(
                    self@.event,
                    self@.dict.named(name@)->0.group,
                    self@.dict.named(name@)->0.item,
                ) is None,
            },
    {
        match self.dict.get(name) {
            Some(schema) => self.composite_by_id(schema.group(), schema.item()),
            None => None,
        }
    }

    /// The composite structure with this id, decoded. See [`Self::composite`].
    pub fn composite_by_id(&self, group: u16, item: u8) -> (r: Option<Composite<'a>>)
        ensures
            match r {
                Some(c) => composite_in(self@.event, group, item) == Some(c@),
                None => composite_in(self@.event, group, item) is None,
            },
    {
        let buf: &'a [u8] = match &self.backend {
            Backend::Bytes(e) => e.raw(),
            _ => {
                return None;
            },
        };
        let size: usize = Event::new(buf).size() as usize;
        let end: usize = if size < buf.len() {
            size
        } else {
            buf.len()
        };
        let mut pos: usize = 16;
        let ghost goal = composite_at(buf@, 16, end as int, group, item);
        while pos <= end && end - pos >= 8
            invariant
                end <= buf.len(),
                end == event_end(buf@),
                self@.event == EventView::Bytes(buf@),
                goal == composite_at(buf@, 16, end as int, group, item),
                goal == composite_at(buf@, pos as int, end as int, group, item),
            decreases end + 0x100_0008 - pos,
        {
            let h = StructureHeader::parse_at(buf, pos);
            let start: usize = pos + 8;
            if h.data_size as usize > end - start {
                return None;
            }
            let next: usize = start + h.data_size as usize;
            if h.group == group && h.item == item && h.header_size > 0 {
                let bytes = slice_subrange(buf, pos, next);
                return match Composite::from_structure(bytes) {
                    Ok(c) => Some(c),
                    Err(_) => None,
                };
            }
            pos = next;
        }
        None
    }

    /// The event detached from what it borrows: its bytes are copied, a record that keeps its
    /// banks apart is shared.
    pub fn to_owned_with(&self, dict: Arc<Dict>) -> (r: OwnedEvent)
        requires
            self@.event matches EventView::Bytes(s) ==> s.len() <= u32::MAX,
        ensures
            r@.event == self@.event,
            r@.dict == dict@,
    {
        proof {
            use_type_invariant(self);
        }
        match &self.backend {
            Backend::Bytes(e) => OwnedEvent::new(vstd::slice::slice_to_vec(e.raw()), dict),
            Backend::ByBank { record, event_idx } => OwnedEvent::by_bank(
                share(record),
                *event_idx,
                dict,
            ),
            Backend::PerColumn { record, event_idx } => OwnedEvent::per_column(
                share(record),
                *event_idx,
                dict,
            ),
        }
    }

    /// The event as bytes, put together where it has to be. `None` where it cannot be.
    pub fn try_bytes(&self) -> (r: Option<Vec<u8>>)
        ensures
            match r {
                Some(b) => self@.event.readable(self@.dict) && b@ == self@.event.bytes(self@.dict),
                None => !self@.event.readable(self@.dict),
            },
    {
        proof {
            use_type_invariant(self);
        }
        match &self.backend {
            Backend::Bytes(e) => Some(vstd::slice::slice_to_vec(e.raw())),
            Backend::ByBank { record, event_idx } => synthesize_event_bytes(record, *event_idx),
            Backend::PerColumn { record, event_idx } => synthesize_per_column_event_bytes(
                record,
                *event_idx,
                self.dict,
            ),
        }
    }
}

} // verus!
