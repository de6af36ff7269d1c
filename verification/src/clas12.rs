//! Row types for two banks of the CLAS12 reconstruction: particles and the event summary.

use vstd::prelude::*;
use crate::event::bank::Bank;
#[allow(unused_imports)]
use crate::event::bank::BankState;
use crate::event::row_typed::{field, field_handle, BankRow};
#[allow(unused_imports)]
use crate::event::row_typed::{handle_for, is_field};
use crate::schema::handle::{ColumnHandle, Float32, Float64};
use crate::schema::types::Schema;
#[allow(unused_imports)]
use crate::schema::types::SchemaView;

verus! {

/// One row of `REC::Particle`: a reconstructed particle.
#[derive(Clone, Copy, Debug, Default, PartialEq, Eq, Structural)]
pub struct RecParticle {
    pub pid: i32,
    pub px: Float32,
    pub py: Float32,
    pub pz: Float32,
    pub vx: Float32,
    pub vy: Float32,
    pub vz: Float32,
    pub vt: Float32,
    pub charge: i8,
    pub beta: Float32,
    pub chi2pid: Float32,
    pub status: i16,
}

/// Handles to the columns of [`RecParticle`].
#[derive(Clone, Copy, Debug)]
pub struct RecParticleHandles {
    pub pid: ColumnHandle<i32>,
    pub px: ColumnHandle<Float32>,
    pub py: ColumnHandle<Float32>,
    pub pz: ColumnHandle<Float32>,
    pub vx: ColumnHandle<Float32>,
    pub vy: ColumnHandle<Float32>,
    pub vz: ColumnHandle<Float32>,
    pub vt: ColumnHandle<Float32>,
    pub charge: ColumnHandle<i8>,
    pub beta: ColumnHandle<Float32>,
    pub chi2pid: ColumnHandle<Float32>,
    pub status: ColumnHandle<i16>,
}

impl BankRow for RecParticle {
    const NAME: &'static str = "REC::Particle";

    const GROUP: u16 = 300;

    const ITEM: u8 = 31;

    type Handles = RecParticleHandles;

    open spec fn handles_ok(s: SchemaView, h: RecParticleHandles) -> bool {
        &&& handle_for(s, "pid"@, h.pid)
        &&& handle_for(s, "px"@, h.px)
        &&& handle_for(s, "py"@, h.py)
        &&& handle_for(s, "pz"@, h.pz)
        &&& handle_for(s, "vx"@, h.vx)
        &&& handle_for(s, "vy"@, h.vy)
        &&& handle_for(s, "vz"@, h.vz)
        &&& handle_for(s, "vt"@, h.vt)
        &&& handle_for(s, "charge"@, h.charge)
        &&& handle_for(s, "beta"@, h.beta)
        &&& handle_for(s, "chi2pid"@, h.chi2pid)
        &&& handle_for(s, "status"@, h.status)
    }

    open spec fn is_row(b: BankState, row: int, r: RecParticle) -> bool {
        &&& is_field(b, "pid"@, row, r.pid)
        &&& is_field(b, "px"@, row, r.px)
        &&& is_field(b, "py"@, row, r.py)
        &&& is_field(b, "pz"@, row, r.pz)
        &&& is_field(b, "vx"@, row, r.vx)
        &&& is_field(b, "vy"@, row, r.vy)
        &&& is_field(b, "vz"@, row, r.vz)
        &&& is_field(b, "vt"@, row, r.vt)
        &&& is_field(b, "charge"@, row, r.charge)
        &&& is_field(b, "beta"@, row, r.beta)
        &&& is_field(b, "chi2pid"@, row, r.chi2pid)
        &&& is_field(b, "status"@, row, r.status)
    }

    fn resolve_handles(schema: &Schema) -> (r: RecParticleHandles) {
        let r = RecParticleHandles {
            pid: field_handle(schema, "pid"),
            px: field_handle(schema, "px"),
            py: field_handle(schema, "py"),
            pz: field_handle(schema, "pz"),
            vx: field_handle(schema, "vx"),
            vy: field_handle(schema, "vy"),
            vz: field_handle(schema, "vz"),
            vt: field_handle(schema, "vt"),
            charge: field_handle(schema, "charge"),
            beta: field_handle(schema, "beta"),
            chi2pid: field_handle(schema, "chi2pid"),
            status: field_handle(schema, "status"),
        };
        assert(<RecParticle as BankRow>::handles_ok(schema@, r));
        r
    }

    fn from_row_with_handles(bank: &Bank<'_>, row: u32, handles: &RecParticleHandles) -> (r: RecParticle) {
        assert(<RecParticle as BankRow>::handles_ok(bank@.schema, *handles));
        let r = RecParticle {
            pid: field(bank, handles.pid, row, Ghost("pid"@)),
            px: field(bank, handles.px, row, Ghost("px"@)),
            py: field(bank, handles.py, row, Ghost("py"@)),
            pz: field(bank, handles.pz, row, Ghost("pz"@)),
            vx: field(bank, handles.vx, row, Ghost("vx"@)),
            vy: field(bank, handles.vy, row, Ghost("vy"@)),
            vz: field(bank, handles.vz, row, Ghost("vz"@)),
            vt: field(bank, handles.vt, row, Ghost("vt"@)),
            charge: field(bank, handles.charge, row, Ghost("charge"@)),
            beta: field(bank, handles.beta, row, Ghost("beta"@)),
            chi2pid: field(bank, handles.chi2pid, row, Ghost("chi2pid"@)),
            status: field(bank, handles.status, row, Ghost("status"@)),
        };
        assert(<RecParticle as BankRow>::is_row(bank@, row as int, r));
        r
    }
}

/// The bank of a particle has id (300, 31).
pub proof fn law_rec_particle_id()
    ensures
        RecParticle::GROUP == 300,
        RecParticle::ITEM == 31,
        RecParticle::NAME@ == "REC::Particle"@,
{
}

/// One row of `REC::Event`: the summary of an event.
#[derive(Clone, Copy, Debug, Default, PartialEq, Eq, Structural)]
pub struct RecEvent {
    pub category: i64,
    pub topology: i64,
    pub beam_charge: Float32,
    pub live_time: Float64,
    pub start_time: Float32,
    pub rf_time: Float32,
    pub helicity: i8,
    pub helicity_raw: i8,
    pub proc_time: Float32,
}

/// Handles to the columns of [`RecEvent`].
#[derive(Clone, Copy, Debug)]
pub struct RecEventHandles {
    pub category: ColumnHandle<i64>,
    pub topology: ColumnHandle<i64>,
    pub beam_charge: ColumnHandle<Float32>,
    pub live_time: ColumnHandle<Float64>,
    pub start_time: ColumnHandle<Float32>,
    pub rf_time: ColumnHandle<Float32>,
    pub helicity: ColumnHandle<i8>,
    pub helicity_raw: ColumnHandle<i8>,
    pub proc_time: ColumnHandle<Float32>,
}

impl BankRow for RecEvent {
    const NAME: &'static str = "REC::Event";

    const GROUP: u16 = 300;

    const ITEM: u8 = 30;

    type Handles = RecEventHandles;

    open spec fn handles_ok(s: SchemaView, h: RecEventHandles) -> bool {
        &&& handle_for(s, "category"@, h.category)
        &&& handle_for(s, "topology"@, h.topology)
        &&& handle_for(s, "beamCharge"@, h.beam_charge)
        &&& handle_for(s, "liveTime"@, h.live_time)
        &&& handle_for(s, "startTime"@, h.start_time)
        &&& handle_for(s, "RFTime"@, h.rf_time)
        &&& handle_for(s, "helicity"@, h.helicity)
        &&& handle_for(s, "helicityRaw"@, h.helicity_raw)
        &&& handle_for(s, "procTime"@, h.proc_time)
    }

    open spec fn is_row(b: BankState, row: int, r: RecEvent) -> bool {
        &&& is_field(b, "category"@, row, r.category)
        &&& is_field(b, "topology"@, row, r.topology)
        &&& is_field(b, "beamCharge"@, row, r.beam_charge)
        &&& is_field(b, "liveTime"@, row, r.live_time)
        &&& is_field(b, "startTime"@, row, r.start_time)
        &&& is_field(b, "RFTime"@, row, r.rf_time)
        &&& is_field(b, "helicity"@, row, r.helicity)
        &&& is_field(b, "helicityRaw"@, row, r.helicity_raw)
        &&& is_field(b, "procTime"@, row, r.proc_time)
    }

    fn resolve_handles(schema: &Schema) -> (r: RecEventHandles) {
        let r = RecEventHandles {
            category: field_handle(schema, "category"),
            topology: field_handle(schema, "topology"),
            beam_charge: field_handle(schema, "beamCharge"),
            live_time: field_handle(schema, "liveTime"),
            start_time: field_handle(schema, "startTime"),
            rf_time: field_handle(schema, "RFTime"),
            helicity: field_handle(schema, "helicity"),
            helicity_raw: field_handle(schema, "helicityRaw"),
            proc_time: field_handle(schema, "procTime"),
        };
        assert(<RecEvent as BankRow>::handles_ok(schema@, r));
        r
    }

    fn from_row_with_handles(bank: &Bank<'_>, row: u32, handles: &RecEventHandles) -> (r: RecEvent) {
        assert(<RecEvent as BankRow>::handles_ok(bank@.schema, *handles));
        let r = RecEvent {
            category: field(bank, handles.category, row, Ghost("category"@)),
            topology: field(bank, handles.topology, row, Ghost("topology"@)),
            beam_charge: field(bank, handles.beam_charge, row, Ghost("beamCharge"@)),
            live_time: field(bank, handles.live_time, row, Ghost("liveTime"@)),
            start_time: field(bank, handles.start_time, row, Ghost("startTime"@)),
            rf_time: field(bank, handles.rf_time, row, Ghost("RFTime"@)),
            helicity: field(bank, handles.helicity, row, Ghost("helicity"@)),
            helicity_raw: field(bank, handles.helicity_raw, row, Ghost("helicityRaw"@)),
            proc_time: field(bank, handles.proc_time, row, Ghost("procTime"@)),
        };
        assert(<RecEvent as BankRow>::is_row(bank@, row as int, r));
        r
    }
}

/// The bank of an event summary has id (300, 30).
pub proof fn law_rec_event_id()
    ensures
        RecEvent::GROUP == 300,
        RecEvent::ITEM == 30,
        RecEvent::NAME@ == "REC::Event"@,
{
}

} // verus!
