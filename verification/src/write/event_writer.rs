//! Putting one event together out of banks of a dictionary.

use vstd::prelude::*;
use crate::error::{HipoError, Result};
use crate::event::builders::{BankBuilder, EventBuilder};
#[allow(unused_imports)]
use crate::event::builders::{finish_outcome, BuilderView, EventBuilderView};
use crate::schema::dict::Dict;
#[allow(unused_imports)]
use crate::schema::dict::DictView;
use crate::write::row::BankWriter;

verus! {

/// What an event writer holds.
#[verifier::ext_equal]
pub struct EventWriterView {
    pub dict: DictView,
    pub event: EventBuilderView,
}

impl EventWriterView {
    /// No banks yet.
    pub open spec fn fresh(dict: DictView) -> EventWriterView {
        EventWriterView {
            dict,
            event: EventBuilderView { structures: Seq::empty(), tag: 0 },
        }
    }

    /// With the bytes of one more structure.
    pub open spec fn with_structure(self, bytes: Seq<u8>) -> EventWriterView {
        EventWriterView {
            event: EventBuilderView { structures: self.event.structures + bytes, ..self.event },
            ..self
        }
    }
}

/// An event under construction.
#[derive(Debug)]
pub struct EventWriter<'a> {
    dict: &'a Dict,
    builder: EventBuilder,
}

impl<'a> View for EventWriter<'a> {
    type V = EventWriterView;

    closed spec fn view(&self) -> EventWriterView {
        EventWriterView { dict: self.dict@, event: self.builder@ }
    }
}

impl<'a> EventWriter<'a> {
    pub fn new(dict: &'a Dict) -> (r: Self)
        ensures
            r@ == EventWriterView::fresh(dict@),
    {
        EventWriter { dict, builder: EventBuilder::new() }
    }

    /// Set the event's tag.
    pub fn with_tag(&mut self, tag: u32) -> (r: &mut Self)
        ensures
            r@ == (EventWriterView {
                event: EventBuilderView { tag, ..old(self)@.event },
                ..old(self)@
            }),
            *final(self) == *final(r),
    {
        self.builder.set_tag(tag);
        self
    }

    pub fn tag(&self) -> (r: u32)
        ensures
            r == self@.event.tag,
    {
        self.builder.tag()
    }

    /// Add the bank `name`, with the rows that `f` gives it. The bank must be in the dictionary,
    /// and small enough for a structure.
    pub fn bank<F: FnOnce(&mut BankWriter<'a>) -> Result<()>>(&mut self, name: &str, f: F) -> (r:
        Result<&mut Self>)
        requires
            forall|w: &mut BankWriter<'a>| w@.wf() ==> f.requires((w,)),
        ensures
            match old(self)@.dict.named(name@) {
                None => (r matches Err(HipoError::UnknownSchema { name: n }) && n@ == name@)
                    && final(self)@ == old(self)@,
                Some(s) => exists|w: &mut BankWriter<'a>, out: Result<()>| #[trigger]
                    f.ensures((w,), out) && w@ == BuilderView::fresh(s) && match r {
                        Ok(x) => out is Ok && finish_outcome(final(w)@, Ok(())) && x@ == old(
                            self,
                        )@.with_structure(final(w)@.structure()) && *final(self) == *final(x),
                        Err(e) => final(self)@ == old(self)@ && (out == Err::<(), HipoError>(e)
                            || out is Ok && finish_outcome(final(w)@, Err(e))),
                    },
            },
    {
        let schema = match self.dict.require(name) {
            Ok(schema) => schema,
            Err(e) => {
                return Err(e);
            },
        };
        proof {
            use_type_invariant(schema);
        }
        let mut w = BankWriter::new(BankBuilder::new(schema));
        let out = f(&mut w);
        match out {
            Ok(_) => {},
            Err(e) => {
                return Err(e);
            },
        }
        match w.into_inner().finish() {
            Ok(bytes) => {
                self.builder.add_bank_bytes(bytes.as_slice());
            },
            Err(e) => {
                return Err(e);
            },
        }
        Ok(self)
    }

    /// Add a structure that is already serialised.
    pub fn add_bank_bytes(&mut self, bytes: &[u8]) -> (r: &mut Self)
        ensures
            r@ == old(self)@.with_structure(bytes@),
            *final(self) == *final(r),
    {
        self.builder.add_bank_bytes(bytes);
        self
    }

    /// The event's bytes, where its size fits its header.
    pub fn finish(self) -> (r: Result<Vec<u8>>)
        ensures
            match r {
                Ok(v) => 16 + self@.event.structures.len() <= u32::MAX && v@ == self@.event.event(),
                Err(e) => 16 + self@.event.structures.len() > u32::MAX && e is InvalidUsage,
            },
    {
        if self.builder.len() > u32::MAX as usize - 16 {
            return Err(
                HipoError::InvalidUsage { what: "EventWriter: event too large for its header" },
            );
        }
        Ok(self.builder.finish())
    }
}

} // verus!
