//! Entry points below the file header: a record, or an event, straight from its bytes.

use vstd::prelude::*;
#[allow(unused_imports)]
use crate::error::HipoError;
use crate::error::Result;
use crate::event::event::Event;
#[allow(unused_imports)]
use crate::event::event::event_structures;
use crate::wire::record::Record;
#[allow(unused_imports)]
use crate::wire::record::{loaded, RecordView};
#[allow(unused_imports)]
use crate::wire::record_header::RecordHeader;

verus! {

/// A decoded record.
#[derive(Debug)]
pub struct FuzzRecord(Record);

impl View for FuzzRecord {
    type V = RecordView;

    closed spec fn view(&self) -> RecordView {
        self.0@
    }
}

impl FuzzRecord {
    pub fn event_count(&self) -> (r: u32)
        ensures
            r == self@.header.event_count,
    {
        self.0.event_count()
    }

    /// The bytes of event `i`.
    pub fn event(&self, i: u32) -> (r: Option<&[u8]>)
        ensures
            match r {
                Some(e) => i < self@.header.event_count && e@ == self@.event(i as int),
                None => i >= self@.header.event_count,
            },
    {
        self.0.event(i)
    }
}

/// Decode bytes that begin with a record header.
pub fn decode_record(bytes: &[u8]) -> (r: Result<FuzzRecord>)
    ensures
        match RecordHeader::decoded(bytes@) {
            Err(e) => r == Err::<FuzzRecord, HipoError>(e),
            Ok(h) => match r {
                Ok(v) => loaded(bytes@, h, None, v@, Ok(())),
                Err(e) => exists|after: RecordView| #[trigger]
                    loaded(bytes@, h, None, after, Err(e)),
            },
        },
{
    let mut rec = Record::new();
    match rec.load(bytes) {
        Ok(_) => Ok(FuzzRecord(rec)),
        Err(e) => Err(e),
    }
}

/// Walk every structure of an event. Returns how many there are.
pub fn walk_structures(event_bytes: &[u8]) -> (r: usize)
    ensures
        r == event_structures(event_bytes@).len(),
{
    let ev = Event::new(event_bytes);
    ev.structures().len()
}

} // verus!
