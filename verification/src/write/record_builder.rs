//! Accumulating events, and turning them into a record of any layout.

use vstd::prelude::*;
#[allow(unused_imports)]
use crate::compress::capped;
use crate::error::Result;
use crate::schema::dict::Dict;
#[allow(unused_imports)]
use crate::schema::dict::DictView;
#[allow(unused_imports)]
use crate::seqs::concat;
use crate::write::columns::build_per_column_record_bytes;
#[allow(unused_imports)]
use crate::write::columns::{is_per_column_record, per_column_fits};
#[allow(unused_imports)]
use crate::write::gather::{bytes_of, gathered, pieces_of, TableView};
use crate::write::record::{
    build_by_bank_record_bytes, build_single_block_record_bytes, Compression, RecordIdent,
};
#[allow(unused_imports)]
use crate::write::record::{
    block_overflows, by_bank_fits, is_block_record, is_by_bank_record, payload_of,
};

verus! {

/// `out` is a record of these events in this mode.
pub open spec fn is_record(
    out: Seq<u8>,
    events: Seq<Seq<u8>>,
    dict: DictView,
    compression: Compression,
    id: RecordIdent,
) -> bool {
    match compression {
        Compression::Lz4PerBank => is_by_bank_record(out, events, id),
        Compression::Lz4PerColumn => is_per_column_record(out, events, dict, id),
        _ => is_block_record(out, events, compression.kind(), id),
    }
}

/// A record of these events may be too large for its header.
pub open spec fn may_not_fit(
    events: Seq<Seq<u8>>,
    dict: DictView,
    compression: Compression,
) -> bool {
    match compression {
        Compression::Lz4PerBank => exists|ts: Seq<TableView>| #[trigger]
            gathered(ts, pieces_of(events), events.len()) && !by_bank_fits(ts, events.len()),
        Compression::Lz4PerColumn => exists|ts: Seq<TableView>| #[trigger]
            gathered(ts, pieces_of(events), events.len()) && !per_column_fits(
                ts,
                events.len(),
                dict,
            ),
        _ => block_overflows(compression.kind().spec_codec(), payload_of(events)),
    }
}

/// Build a complete record, header and compressed payload, from the bytes of events. It fails
/// where the record does not fit its header.
pub fn build_record_bytes(
    events: &[Vec<u8>],
    dict: &Dict,
    compression: Compression,
    id: RecordIdent,
) -> (r: Result<Vec<u8>>)
    ensures
        match r {
            Ok(out) => is_record(out@, bytes_of(events@), dict@, compression, id),
            Err(e) => e is Compression && may_not_fit(bytes_of(events@), dict@, compression),
        },
{
    match compression {
        Compression::Lz4PerBank => build_by_bank_record_bytes(events, id),
        Compression::Lz4PerColumn => build_per_column_record_bytes(events, dict, id),
        _ => build_single_block_record_bytes(events, compression.wire_tag(), id),
    }
}

/// What a record builder holds.
#[verifier::ext_equal]
pub struct RecordBuilderView {
    pub events: Seq<Seq<u8>>,
    pub user_word_1: u64,
    pub user_word_2: u64,
}

/// Accumulates the events of one record.
#[derive(Debug)]
pub struct RecordBuilder {
    events: Vec<Vec<u8>>,
    bytes: usize,
    user_word_1: u64,
    user_word_2: u64,
}

impl View for RecordBuilder {
    type V = RecordBuilderView;

    closed spec fn view(&self) -> RecordBuilderView {
        RecordBuilderView {
            events: bytes_of(self.events@),
            user_word_1: self.user_word_1,
            user_word_2: self.user_word_2,
        }
    }
}

impl Default for RecordBuilder {
    fn default() -> (r: Self)
        ensures
            r@.events.len() == 0,
            r@.user_word_1 == 0 && r@.user_word_2 == 0,
    {
        RecordBuilder::new()
    }
}

impl RecordBuilder {
    /// The byte count is that of the events.
    #[verifier::type_invariant]
    pub closed spec fn inv(self) -> bool {
        self.bytes == capped(concat(self@.events).len())
    }

    pub fn new() -> (r: Self)
        ensures
            r@ == (RecordBuilderView { events: Seq::empty(), user_word_1: 0, user_word_2: 0 }),
    {
        let events: Vec<Vec<u8>> = Vec::new();
        assert(bytes_of(events@) =~= Seq::<Seq<u8>>::empty());
        RecordBuilder { events, bytes: 0, user_word_1: 0, user_word_2: 0 }
    }

    pub fn event_count(&self) -> (r: usize)
        ensures
            r == self@.events.len(),
    {
        self.events.len()
    }

    pub fn is_empty(&self) -> (r: bool)
        ensures
            r == (self@.events.len() == 0),
    {
        self.events.len() == 0
    }

    pub fn user_word_1(&self) -> (r: u64)
        ensures
            r == self@.user_word_1,
    {
        self.user_word_1
    }

    pub fn user_word_2(&self) -> (r: u64)
        ensures
            r == self@.user_word_2,
    {
        self.user_word_2
    }

    pub fn set_user_word_1(&mut self, v: u64)
        ensures
            final(self)@ == (RecordBuilderView { user_word_1: v, ..old(self)@ }),
    {
        proof {
            use_type_invariant(&*self);
        }
        self.user_word_1 = v;
    }

    pub fn set_user_word_2(&mut self, v: u64)
        ensures
            final(self)@ == (RecordBuilderView { user_word_2: v, ..old(self)@ }),
    {
        proof {
            use_type_invariant(&*self);
        }
        self.user_word_2 = v;
    }

    /// Append one event's bytes. Returns the new event count.
    pub fn add_event(&mut self, event_bytes: &[u8]) -> (r: usize)
        ensures
            final(self)@ == (RecordBuilderView {
                events: old(self)@.events.push(event_bytes@),
                ..old(self)@
            }),
            r == old(self)@.events.len() + 1,
    {
        proof {
            use_type_invariant(&*self);
        }
        let ghost before = self@.events;
        let mut work = RecordBuilder::new();
        core::mem::swap(&mut work, self);
        let RecordBuilder { mut events, bytes, user_word_1, user_word_2 } = work;
        events.push(vstd::slice::slice_to_vec(event_bytes));
        proof {
            let after = bytes_of(events@);
            assert(after =~= before.push(event_bytes@));
            assert(after.drop_last() =~= before);
        }
        let bytes: usize = bytes.saturating_add(event_bytes.len());
        *self = RecordBuilder { events, bytes, user_word_1, user_word_2 };
        self.events.len()
    }

    /// Drop the events; the user words stay.
    pub fn reset(&mut self)
        ensures
            final(self)@ == (RecordBuilderView { events: Seq::empty(), ..old(self)@ }),
    {
        let (a, b): (u64, u64) = (self.user_word_1, self.user_word_2);
        let events: Vec<Vec<u8>> = Vec::new();
        assert(bytes_of(events@) =~= Seq::<Seq<u8>>::empty());
        *self = RecordBuilder { events, bytes: 0, user_word_1: a, user_word_2: b };
    }

    /// The bytes of the payload before compression: four per event, and the events.
    pub fn estimated_payload_size(&self) -> (r: usize)
        ensures
            r == capped(4 * self@.events.len() + concat(self@.events).len()),
    {
        proof {
            use_type_invariant(self);
        }
        let n: usize = self.events.len();
        let index: usize = if n > usize::MAX / 4 {
            usize::MAX
        } else {
            4 * n
        };
        index.saturating_add(self.bytes)
    }

    /// The events so far, in order.
    pub fn event_slices(&self) -> (r: &[Vec<u8>])
        ensures
            bytes_of(r@) == self@.events,
    {
        self.events.as_slice()
    }
}

} // verus!
