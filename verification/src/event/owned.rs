//! `OwnedEvent`: an event that shares the storage of its record.
//!
//! It holds a slice of a decompressed payload, or one event of a record that keeps its banks
//! apart. Cloning it shares the storage.

use std::sync::Arc;

use vstd::prelude::*;
use vstd::slice::{slice_subrange, slice_to_vec};
use crate::error::Result;
use crate::event::bank::{Bank, BankBytes};
#[allow(unused_imports)]
use crate::event::bank::{is_named_cell, is_named_column, is_zero_cell};
use crate::event::composite::Composite;
use crate::event::ctx::EventCtx;
#[allow(unused_imports)]
use crate::event::ctx::{composite_in, CtxView};
use crate::event::event::{Event, StructureHeader};
#[allow(unused_imports)]
use crate::event::event::{event_structures, StructView};
#[allow(unused_imports)]
use crate::event::view::EventView;
use crate::event::row_typed::{BankRow, RowsForKeyIter, RowsIter};
#[allow(unused_imports)]
use crate::event::row_typed::{found_rows, KeyedState, RowsState};
use crate::schema::dict::Dict;
use crate::schema::handle::BankColumnType;
use crate::schema::types::Schema;
use crate::wire::by_bank::ByBankRecord;
use crate::wire::per_column::PerColumnRecord;

verus! {

/// `Arc::clone`: another handle to the same value.
#[verifier::external_body]
pub(crate) fn share<T>(a: &Arc<T>) -> (r: Arc<T>)
    ensures
        r == *a,
{
    Arc::clone(a)
}

/// Where an event's bytes or banks are.
#[derive(Debug)]
enum Inner {
    Bytes { payload: Arc<Vec<u8>>, start: usize, end: usize },
    ByBank { record: Arc<ByBankRecord>, event_idx: u32 },
    PerColumn { record: Arc<PerColumnRecord>, event_idx: u32 },
}

/// An event that owns its storage together with others.
#[derive(Debug)]
pub struct OwnedEvent {
    inner: Inner,
    dict: Arc<Dict>,
}

impl View for OwnedEvent {
    type V = CtxView;

    closed spec fn view(&self) -> CtxView {
        CtxView {
            event: match self.inner {
                Inner::Bytes { payload, start, end } => EventView::Bytes(
                    payload@.subrange(start as int, end as int),
                ),
                Inner::ByBank { record, event_idx } => EventView::ByBank(record@, event_idx as int),
                Inner::PerColumn { record, event_idx } => EventView::PerColumn(
                    record@,
                    event_idx as int,
                ),
            },
            dict: self.dict@,
        }
    }
}

impl Clone for OwnedEvent {
    fn clone(&self) -> (r: Self)
        ensures
            r@ == self@,
    {
        proof {
            use_type_invariant(self);
        }
        let inner = match &self.inner {
            Inner::Bytes { payload, start, end } => Inner::Bytes {
                payload: share(payload),
                start: *start,
                end: *end,
            },
            Inner::ByBank { record, event_idx } => Inner::ByBank {
                record: share(record),
                event_idx: *event_idx,
            },
            Inner::PerColumn { record, event_idx } => Inner::PerColumn {
                record: share(record),
                event_idx: *event_idx,
            },
        };
        OwnedEvent { inner, dict: share(&self.dict) }
    }
}

impl CtxView {
    /// The structures of the event. One of a per-column record is put together first.
    pub open spec fn all_structs(self) -> Seq<StructView> {
        match self.event {
            EventView::PerColumn(_, _) => event_structures(self.event.bytes(self.dict)),
            _ => self.event.structs(),
        }
    }
}

impl OwnedEvent {
    /// The event lies within its payload, or is one that its record has.
    #[verifier::type_invariant]
    pub closed spec fn inv(self) -> bool {
        match self.inner {
            Inner::Bytes { payload, start, end } => start <= end <= payload@.len() && end
                - start <= u32::MAX,
            Inner::ByBank { record, event_idx } => event_idx < record@.events(),
            Inner::PerColumn { record, event_idx } => event_idx < record@.events(),
        }
    }

    /// An event over bytes of its own.
    pub fn new(bytes: Vec<u8>, dict: Arc<Dict>) -> (r: Self)
        requires
            bytes.len() <= u32::MAX,
        ensures
            r@.event == EventView::Bytes(bytes@),
            r@.dict == dict@,
    {
        let end: usize = bytes.len();
        assert(bytes@.subrange(0, end as int) =~= bytes@);
        OwnedEvent { inner: Inner::Bytes { payload: Arc::new(bytes), start: 0, end }, dict }
    }

    /// An event that is a slice of a shared payload.
    pub fn slice(payload: Arc<Vec<u8>>, start: u32, end: u32, dict: Arc<Dict>) -> (r: Self)
        requires
            start <= end <= payload@.len(),
        ensures
            r@.event == EventView::Bytes(payload@.subrange(start as int, end as int)),
            r@.dict == dict@,
    {
        OwnedEvent::within(payload, start as usize, end as usize, dict)
    }

    /// [`Self::slice`] for a payload of any size.
    pub fn within(payload: Arc<Vec<u8>>, start: usize, end: usize, dict: Arc<Dict>) -> (r: Self)
        requires
            start <= end <= payload@.len(),
            end - start <= u32::MAX,
        ensures
            r@.event == EventView::Bytes(payload@.subrange(start as int, end as int)),
            r@.dict == dict@,
    {
        OwnedEvent { inner: Inner::Bytes { payload, start, end }, dict }
    }

    /// An event of a shared per-bank record.
    pub fn by_bank(record: Arc<ByBankRecord>, event_idx: u32, dict: Arc<Dict>) -> (r: Self)
        requires
            event_idx < record@.events(),
        ensures
            r@.event == EventView::ByBank(record@, event_idx as int),
            r@.dict == dict@,
    {
        OwnedEvent { inner: Inner::ByBank { record, event_idx }, dict }
    }

    /// An event of a shared per-column record.
    pub fn per_column(record: Arc<PerColumnRecord>, event_idx: u32, dict: Arc<Dict>) -> (r: Self)
        requires
            event_idx < record@.events(),
        ensures
            r@.event == EventView::PerColumn(record@, event_idx as int),
            r@.dict == dict@,
    {
        OwnedEvent { inner: Inner::PerColumn { record, event_idx }, dict }
    }

    /// Borrow as an [`EventCtx`].
    pub fn ctx(&self) -> (r: EventCtx<'_>)
        ensures
            r@ == self@,
    {
        proof {
            use_type_invariant(self);
        }
        match &self.inner {
            Inner::Bytes { payload, start, end } => EventCtx::new(
                Event::new(slice_subrange(payload.as_slice(), *start, *end)),
                &self.dict,
            ),
            Inner::ByBank { record, event_idx } => EventCtx::new_by_bank(
                record,
                *event_idx,
                &self.dict,
            ),
            Inner::PerColumn { record, event_idx } => EventCtx::new_per_column(
                record,
                *event_idx,
                &self.dict,
            ),
        }
    }

    /// The event as bytes, header and structures, put together where it has to be. `None` where
    /// it cannot be.
    pub fn try_bytes(&self) -> (r: Option<Vec<u8>>)
        ensures
            match r {
                Some(b) => self@.event.readable(self@.dict) && b@ == self@.event.bytes(self@.dict),
                None => !self@.event.readable(self@.dict),
            },
    {
        self.ctx().try_bytes()
    }

    /// [`Self::try_bytes`] for an event that can be put together.
    pub fn bytes(&self) -> (r: Vec<u8>)
        requires
            self@.event.readable(self@.dict),
        ensures
            r@ == self@.event.bytes(self@.dict),
    {
        match self.try_bytes() {
            Some(b) => b,
            None => vstd::pervasive::unreached(),
        }
    }

    /// The bytes of the structures: every byte after the 16-byte event header.
    pub fn structures_bytes(&self) -> (r: Vec<u8>)
        requires
            self@.event.readable(self@.dict),
            self@.event.bytes(self@.dict).len() >= 16,
        ensures
            r@ == self@.event.bytes(self@.dict).subrange(
                16,
                self@.event.bytes(self@.dict).len() as int,
            ),
    {
        let b = self.bytes();
        slice_to_vec(slice_subrange(b.as_slice(), 16, b.len()))
    }

    /// The dictionary.
    pub fn dict(&self) -> (r: &Arc<Dict>)
        ensures
            r@ == self@.dict,
    {
        &self.dict
    }

    pub fn tag(&self) -> (r: u32)
        ensures
            r == self@.event.tag(),
    {
        self.ctx().tag()
    }

    /// The size of the event in bytes: how many bytes it has, or how many its banks take up.
    pub fn size(&self) -> (r: u32)
        ensures
            match self@.event {
                EventView::Bytes(s) => r == s.len(),
                _ => r == self@.event.size(),
            },
    {
        proof {
            use_type_invariant(self);
        }
        match &self.inner {
            Inner::Bytes { payload: _, start, end } => (*end - *start) as u32,
            _ => self.ctx().size(),
        }
    }

    /// The bank with this name. See [`EventCtx::bank`].
    pub fn bank(&self, name: &str) -> (r: Option<Bank<'_>>)
        ensures
            match r {
                Some(b) => self@.event.named_bank(self@.dict, name@) == Some(b@),
                None => self@.event.named_bank(self@.dict, name@) is None,
            },
    {
        self.ctx().bank(name)
    }

    /// The bank that a schema describes.
    pub fn bank_for<'a>(&'a self, schema: &'a Schema) -> (r: Option<Bank<'a>>)
        ensures
            match r {
                Some(b) => self@.event.bank(schema@) == Some(b@),
                None => self@.event.bank(schema@) is None,
            },
    {
        self.ctx().bank_for(schema)
    }

    /// The rows of the bank of `T`. See [`EventCtx::rows`].
    pub fn rows<T: BankRow>(&self) -> (r: RowsIter<'_, T>)
        ensures
            r@ == (RowsState { bank: self@.id_bank(T::GROUP, T::ITEM), next: 0 }),
    {
        self.ctx().rows::<T>()
    }

    /// The rows of the bank of `T` whose `pindex` is `pindex`.
    pub fn rows_for_pindex<T: BankRow>(&self, pindex: i16) -> (r: RowsForKeyIter<'_, T>)
        ensures
            r@ == (KeyedState {
                bank: self@.id_bank(T::GROUP, T::ITEM),
                rows: found_rows(self@.id_bank(T::GROUP, T::ITEM), "pindex"@, pindex),
                next: 0,
            }),
    {
        self.ctx().rows_for_pindex::<T>(pindex)
    }

    /// The rows of the bank of `T` whose `index` is `key`.
    pub fn rows_for_index<T: BankRow>(&self, key: i16) -> (r: RowsForKeyIter<'_, T>)
        ensures
            r@ == (KeyedState {
                bank: self@.id_bank(T::GROUP, T::ITEM),
                rows: found_rows(self@.id_bank(T::GROUP, T::ITEM), "index"@, key),
                next: 0,
            }),
    {
        self.ctx().rows_for_index::<T>(key)
    }

    /// One cell of a bank. See [`EventCtx::get`].
    pub fn get<T: BankColumnType>(&self, bank: &str, col: &str, row: u32) -> (r: T)
        ensures
            match self@.event.named_bank(self@.dict, bank@) {
                Some(b) => is_named_cell::<T>(b, col@, row as int, r),
                None => is_zero_cell::<T>(r),
            },
    {
        self.ctx().get::<T>(bank, col, row)
    }

    /// A column of a bank. See [`EventCtx::col`].
    pub fn col<T: BankColumnType>(&self, bank: &str, col: &str) -> (r: Result<Vec<T>>)
        ensures
            match self@.event.named_bank(self@.dict, bank@) {
                Some(b) => is_named_column::<T>(b, col@, r),
                None => r is Ok && r->Ok_0@ == Seq::<T>::empty(),
            },
    {
        self.ctx().col::<T>(bank, col)
    }

    /// True if the event has a bank with this name.
    pub fn has(&self, name: &str) -> (r: bool)
        ensures
            r == self@.event.has_named(self@.dict, name@),
    {
        self.ctx().has(name)
    }

    /// The structures of the event: headers, and data. An event of a per-column record is put
    /// together first.
    pub fn structures(&self) -> (r: Vec<(StructureHeader, BankBytes<'_>)>)
        requires
            self@.event is PerColumn ==> self@.event.readable(self@.dict),
        ensures
            r.len() == self@.all_structs().len(),
            forall|i: int|
                0 <= i < r.len() ==> (#[trigger] r@[i]).0 == self@.all_structs()[i].header
                    && r@[i].1@ == self@.all_structs()[i].data,
    {
        match &self.inner {
            Inner::PerColumn { .. } => {
                let bytes = self.bytes();
                let all = Event::new(bytes.as_slice()).structures();
                let ghost sts = event_structures(bytes@);
                let mut out: Vec<(StructureHeader, BankBytes<'_>)> = Vec::new();
                let mut i: usize = 0;
                while i < all.len()
                    invariant
                        i <= all.len(),
                        out.len() == i,
                        all.len() == sts.len(),
                        forall|k: int|
                            0 <= k < all.len() ==> (#[trigger] all@[k]).0 == sts[k].header
                                && all@[k].1@ == sts[k].data,
                        forall|k: int|
                            0 <= k < i ==> (#[trigger] out@[k]).0 == sts[k].header && out@[k].1@
                                == sts[k].data,
                    decreases all.len() - i,
                {
                    let (h, d) = all[i];
                    out.push((h, BankBytes::Owned(slice_to_vec(d))));
                    i = i + 1;
                }
                out
            },
            _ => self.ctx().structures(),
        }
    }

    /// The composite structure with this name, decoded. None for an event of a record that keeps
    /// its banks apart: that layout stores no length of an inline format, so a composite cannot
    /// be told from other data there.
    pub fn composite(&self, name: &str) -> (r: Option<Composite<'_>>)
        ensures
            match r {
                Some(c) => self@.dict.named(name@) is Some && composite_in(
                    self@.event,
                    self@.dict.named(name@)->0.group,
                    self@.dict.named(name@)->0.item,
                ) == Some(c@),
                None => self@.dict.named(name@) is Some ==> composite_in(
                    self@.event,
                    self@.dict.named(name@)->0.group,
                    self@.dict.named(name@)->0.item,
                ) is None,
            },
    {
        self.ctx().composite(name)
    }
}

} // verus!
