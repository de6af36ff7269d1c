//! `StoredRecord`: one decoded record, in whichever layout it is stored.

use std::sync::Arc;

use vstd::prelude::*;
use vstd::slice::slice_subrange;
use crate::error::{HipoError, Result};
use crate::event::ctx::EventCtx;
use crate::event::event::Event;
use crate::event::owned::{share, OwnedEvent};
#[allow(unused_imports)]
use crate::event::view::EventView;
use crate::read::filter::Filter;
use crate::schema::dict::Dict;
#[allow(unused_imports)]
use crate::schema::dict::DictView;
use crate::wire::by_bank::ByBankRecord;
#[allow(unused_imports)]
use crate::wire::by_bank::{by_bank_decoded, by_bank_error, ByBankView};
use crate::wire::constants::Layout;
#[allow(unused_imports)]
use crate::wire::endian::dict_view;
use crate::wire::per_column::PerColumnRecord;
#[allow(unused_imports)]
use crate::wire::per_column::{per_column_decoded, per_column_error, PerColumnView};
use crate::wire::record::decode_record_into;
#[allow(unused_imports)]
use crate::wire::record::{record_decoded, record_error, RecordView};
use crate::wire::record_header::RecordHeader;
#[allow(unused_imports)]
use crate::wire::split::Outcome;

verus! {

/// What a decoded record says.
pub enum StoredView {
    Chunk(RecordView),
    ByBank(ByBankView),
    PerColumn(PerColumnView),
}

impl StoredView {
    /// The record's header.
    pub open spec fn header(self) -> RecordHeader {
        match self {
            StoredView::Chunk(v) => v.header,
            StoredView::ByBank(v) => v.header,
            StoredView::PerColumn(v) => v.header,
        }
    }

    /// How many events the record has.
    pub open spec fn events(self) -> nat {
        self.header().event_count as nat
    }

    /// Event `e` of the record.
    pub open spec fn event(self, e: int) -> EventView {
        match self {
            StoredView::Chunk(v) => EventView::Bytes(v.event(e)),
            StoredView::ByBank(v) => EventView::ByBank(v, e),
            StoredView::PerColumn(v) => EventView::PerColumn(v, e),
        }
    }
}

/// What the bytes of a record say; nothing where they cannot be read. A big-endian payload is
/// normalised with the dictionary.
pub open spec fn stored_decoded(src: Seq<u8>, dict: Option<DictView>) -> Option<StoredView> {
    match RecordHeader::decoded(src) {
        Err(_) => None,
        Ok(h) => match h.compression.spec_layout() {
            Layout::PerBank => match by_bank_decoded(src) {
                Outcome::Done(v) => Some(StoredView::ByBank(v)),
                _ => None,
            },
            Layout::PerColumn => match per_column_decoded(src) {
                Outcome::Done(v) => Some(StoredView::PerColumn(v)),
                _ => None,
            },
            Layout::PerChunk => match record_decoded(src, dict) {
                Outcome::Done(v) => Some(StoredView::Chunk(v)),
                _ => None,
            },
        },
    }
}

/// `e` is the error that reading the record `src` ends with.
pub open spec fn stored_error(src: Seq<u8>, dict: Option<DictView>, e: HipoError) -> bool {
    match RecordHeader::decoded(src) {
        Err(err) => e == err,
        Ok(h) => match h.compression.spec_layout() {
            Layout::PerBank => by_bank_error(src, e),
            Layout::PerColumn => per_column_error(src, e),
            Layout::PerChunk => record_error(src, dict, e),
        },
    }
}

/// A single-block record with a payload that its events share.
#[derive(Debug)]
pub struct Chunk {
    header: RecordHeader,
    payload: Arc<Vec<u8>>,
    offsets: Vec<u32>,
}

impl View for Chunk {
    type V = RecordView;

    closed spec fn view(&self) -> RecordView {
        RecordView { header: self.header, payload: self.payload@, offsets: self.offsets@ }
    }
}

impl Chunk {
    /// Every chunk is a well-formed record.
    #[verifier::type_invariant]
    pub open spec fn inv(self) -> bool {
        self@.wf()
    }

    /// Where event `e` starts and ends in the payload.
    fn range(&self, e: u32) -> (r: (usize, usize))
        requires
            e < self@.header.event_count,
        ensures
            r.0 <= r.1 <= self@.payload.len(),
            r.1 - r.0 <= u32::MAX,
            self@.payload.subrange(r.0 as int, r.1 as int) == self@.event(e as int),
    {
        proof {
            use_type_invariant(self);
        }
        let bytes = self.payload.as_slice();
        let start: usize = self.header.index_array_length as usize
            + self.header.user_header_length as usize + self.header.user_header_padding as usize;
        let k: usize = e as usize;
        let lo: usize = self.offsets[k] as usize;
        let hi: usize = self.offsets[k + 1] as usize;
        assert(self@.offsets[k as int] <= self@.offsets[k + 1]);
        assert(self@.offsets[k + 1] <= self@.offsets[self@.offsets.len() - 1]);
        assert(start + hi <= bytes.len());
        (start + lo, start + hi)
    }

    pub fn event_count(&self) -> (r: u32)
        ensures
            r == self@.header.event_count,
    {
        self.header.event_count
    }

    /// The bytes of event `e`.
    pub fn event(&self, e: u32) -> (r: &[u8])
        requires
            e < self@.header.event_count,
        ensures
            r@ == self@.event(e as int),
            r.len() <= u32::MAX,
    {
        let (lo, hi) = self.range(e);
        slice_subrange(self.payload.as_slice(), lo, hi)
    }
}

/// One decoded record.
#[derive(Debug)]
pub enum StoredRecord {
    Chunk(Chunk),
    ByBank(Arc<ByBankRecord>),
    PerColumn(Arc<PerColumnRecord>),
}

impl View for StoredRecord {
    type V = StoredView;

    open spec fn view(&self) -> StoredView {
        match *self {
            StoredRecord::Chunk(c) => StoredView::Chunk(c@),
            StoredRecord::ByBank(r) => StoredView::ByBank(r@),
            StoredRecord::PerColumn(r) => StoredView::PerColumn(r@),
        }
    }
}

impl StoredRecord {
    /// Decode the bytes of a record, in the layout that its header names.
    pub fn decode(src: &[u8], dict: Option<&Dict>) -> (r: Result<Self>)
        ensures
            match stored_decoded(src@, dict_view(dict)) {
                Some(v) => r is Ok && r->Ok_0@ == v,
                None => r is Err && stored_error(src@, dict_view(dict), r->Err_0),
            },
    {
        let header = RecordHeader::parse(src)?;
        match header.compression.layout() {
            Layout::PerBank => Ok(StoredRecord::ByBank(Arc::new(ByBankRecord::parse(src)?))),
            Layout::PerColumn => Ok(
                StoredRecord::PerColumn(Arc::new(PerColumnRecord::parse(src)?)),
            ),
            Layout::PerChunk => {
                let mut payload: Vec<u8> = Vec::new();
                let mut offsets: Vec<u32> = Vec::new();
                let d = decode_record_into(src, &mut payload, &mut offsets, dict)?;
                let chunk = Chunk { header: d.header, payload: Arc::new(payload), offsets };
                assert(chunk@ =~= record_decoded(src@, dict_view(dict))->Done_0);
                Ok(StoredRecord::Chunk(chunk))
            },
        }
    }

    /// How many events the record has. Each of them is one that the record can show.
    pub fn event_count(&self) -> (r: u32)
        ensures
            r == self@.events(),
            forall|e: int| 0 <= e < r ==> (#[trigger] self@.event(e)).wf(),
    {
        match self {
            StoredRecord::Chunk(c) => c.event_count(),
            StoredRecord::ByBank(rec) => rec.event_count(),
            StoredRecord::PerColumn(rec) => rec.event_count(),
        }
    }

    /// Event `e`, borrowed.
    pub fn ctx<'a>(&'a self, e: u32, dict: &'a Dict) -> (r: EventCtx<'a>)
        requires
            e < self@.events(),
        ensures
            r@.event == self@.event(e as int),
            r@.dict == dict@,
    {
        match self {
            StoredRecord::Chunk(c) => EventCtx::new(Event::new(c.event(e)), dict),
            StoredRecord::ByBank(rec) => EventCtx::new_by_bank(rec, e, dict),
            StoredRecord::PerColumn(rec) => EventCtx::new_per_column(rec, e, dict),
        }
    }

    /// Event `e`, sharing the record's storage.
    pub fn owned(&self, e: u32, dict: &Arc<Dict>) -> (r: OwnedEvent)
        requires
            e < self@.events(),
        ensures
            r@.event == self@.event(e as int),
            r@.dict == dict@,
    {
        match self {
            StoredRecord::Chunk(c) => {
                let (lo, hi) = c.range(e);
                OwnedEvent::within(share(&c.payload), lo, hi, share(dict))
            },
            StoredRecord::ByBank(rec) => OwnedEvent::by_bank(share(rec), e, share(dict)),
            StoredRecord::PerColumn(rec) => OwnedEvent::per_column(share(rec), e, share(dict)),
        }
    }

    /// The tag of event `e`.
    pub fn event_tag(&self, e: u32) -> (r: u32)
        requires
            e < self@.events(),
        ensures
            r == self@.event(e as int).tag(),
    {
        match self {
            StoredRecord::Chunk(c) => Event::new(c.event(e)).tag(),
            StoredRecord::ByBank(rec) => rec.event_tag(e),
            StoredRecord::PerColumn(rec) => rec.event_tag(e),
        }
    }

    /// Does event `e` have every bank that a filter asks for?
    pub fn passes(&self, filter: &Filter, e: u32) -> (r: bool)
        requires
            e < self@.events(),
        ensures
            r == filter@.passes(self@.event(e as int)),
    {
        match self {
            StoredRecord::Chunk(c) => filter.check(&Event::new(c.event(e))),
            StoredRecord::ByBank(rec) => filter.check_by_bank(rec, e),
            StoredRecord::PerColumn(rec) => filter.check_per_column(rec, e),
        }
    }
}

} // verus!
