//! Rows as values: each field is a cell of the column it is named after, and a lookup by number
//! finds the rows with that number.

use vstd::prelude::*;
use crate::clas12::{RecEvent, RecParticle};
use crate::event::bank::Bank;
#[allow(unused_imports)]
use crate::event::bank::{is_named_cell, BankState};
#[allow(unused_imports)]
use crate::event::builders::lemma_the_column;
use crate::event::ctx::EventCtx;
use crate::event::owned::OwnedEvent;
use crate::event::row_typed::{
    BankRow, BankView, PindexIndex, RowsForKeyIter, RowsIter,
};
#[allow(unused_imports)]
use crate::event::row_typed::{is_field, key_at, law_keyed_rows};
use crate::schema::handle::{BankColumnType, Float32, Float64};
#[allow(unused_imports)]
use crate::schema::types::SchemaView;
use crate::schema::types::Schema;

verus! {

/// A field of a row is what a lenient read of its column gives.
proof fn lemma_field_is_cell<T: BankColumnType>(
    b: BankState,
    name: Seq<char>,
    row: int,
    field: T,
    cell: T,
)
    requires
        is_field::<T>(b, name, row, field),
        is_named_cell::<T>(b, name, row, cell),
        b.schema.entries.len() <= 65535,
    ensures
        field.elems() == cell.elems(),
{
    let s = b.schema;
    if s.has_column(name) {
        let c = choose|c: int| #[trigger]
            s.is_column(name, c) && crate::event::bank::is_cell_or_zero::<T>(b, c, row, cell);
        lemma_the_column(s, name, c);
        if crate::schema::handle::fits::<T>(s, c) {
            assert(crate::event::row_typed::reads_as::<T>(s, name, c));
        } else {
            assert forall|d: int| !#[trigger] crate::event::row_typed::reads_as::<T>(
                s,
                name,
                d,
            ) by {
                if crate::event::row_typed::reads_as::<T>(s, name, d) {
                    lemma_the_column(s, name, d);
                }
            }
        }
    } else {
        assert forall|d: int| !#[trigger] crate::event::row_typed::reads_as::<T>(s, name, d) by {
            if crate::event::row_typed::reads_as::<T>(s, name, d) {
                assert(s.entries[d].name == name);
            }
        }
    }
}

/// Every field of a [`RecParticle`] is the cell of its own column: what reading that column of the
/// bank by its name gives for the row. (A bank of 65,536 columns has one more than handles can
/// tell apart.)
pub proof fn law_rec_particle_fields<'a>(
    bank: Bank<'a>,
    row: u32,
    r: RecParticle,
    pid: i32,
    px: Float32,
    py: Float32,
    pz: Float32,
    vx: Float32,
    vy: Float32,
    vz: Float32,
    vt: Float32,
    charge: i8,
    beta: Float32,
    chi2pid: Float32,
    status: i16,
)
    requires
        <RecParticle as BankRow>::is_row(bank@, row as int, r),
        bank@.schema.entries.len() <= 65535,
        call_ensures(Bank::<'a>::get::<i32>, (&bank, "pid", row), pid),
        call_ensures(Bank::<'a>::get::<Float32>, (&bank, "px", row), px),
        call_ensures(Bank::<'a>::get::<Float32>, (&bank, "py", row), py),
        call_ensures(Bank::<'a>::get::<Float32>, (&bank, "pz", row), pz),
        call_ensures(Bank::<'a>::get::<Float32>, (&bank, "vx", row), vx),
        call_ensures(Bank::<'a>::get::<Float32>, (&bank, "vy", row), vy),
        call_ensures(Bank::<'a>::get::<Float32>, (&bank, "vz", row), vz),
        call_ensures(Bank::<'a>::get::<Float32>, (&bank, "vt", row), vt),
        call_ensures(Bank::<'a>::get::<i8>, (&bank, "charge", row), charge),
        call_ensures(Bank::<'a>::get::<Float32>, (&bank, "beta", row), beta),
        call_ensures(Bank::<'a>::get::<Float32>, (&bank, "chi2pid", row), chi2pid),
        call_ensures(Bank::<'a>::get::<i16>, (&bank, "status", row), status),
    ensures
        r.pid == pid,
        r.px == px,
        r.py == py,
        r.pz == pz,
        r.vx == vx,
        r.vy == vy,
        r.vz == vz,
        r.vt == vt,
        r.charge == charge,
        r.beta == beta,
        r.chi2pid == chi2pid,
        r.status == status,
{
    lemma_field_is_cell::<i32>(bank@, "pid"@, row as int, r.pid, pid);
    assert(r.pid.elems()[0] == pid.elems()[0]);
    lemma_field_is_cell::<Float32>(bank@, "px"@, row as int, r.px, px);
    assert(r.px.elems()[0] == px.elems()[0]);
    lemma_field_is_cell::<Float32>(bank@, "py"@, row as int, r.py, py);
    assert(r.py.elems()[0] == py.elems()[0]);
    lemma_field_is_cell::<Float32>(bank@, "pz"@, row as int, r.pz, pz);
    assert(r.pz.elems()[0] == pz.elems()[0]);
    lemma_field_is_cell::<Float32>(bank@, "vx"@, row as int, r.vx, vx);
    assert(r.vx.elems()[0] == vx.elems()[0]);
    lemma_field_is_cell::<Float32>(bank@, "vy"@, row as int, r.vy, vy);
    assert(r.vy.elems()[0] == vy.elems()[0]);
    lemma_field_is_cell::<Float32>(bank@, "vz"@, row as int, r.vz, vz);
    assert(r.vz.elems()[0] == vz.elems()[0]);
    lemma_field_is_cell::<Float32>(bank@, "vt"@, row as int, r.vt, vt);
    assert(r.vt.elems()[0] == vt.elems()[0]);
    lemma_field_is_cell::<i8>(bank@, "charge"@, row as int, r.charge, charge);
    assert(r.charge.elems()[0] == charge.elems()[0]);
    lemma_field_is_cell::<Float32>(bank@, "beta"@, row as int, r.beta, beta);
    assert(r.beta.elems()[0] == beta.elems()[0]);
    lemma_field_is_cell::<Float32>(bank@, "chi2pid"@, row as int, r.chi2pid, chi2pid);
    assert(r.chi2pid.elems()[0] == chi2pid.elems()[0]);
    lemma_field_is_cell::<i16>(bank@, "status"@, row as int, r.status, status);
    assert(r.status.elems()[0] == status.elems()[0]);
}

/// All ways to read a [`RecParticle`] from row `row` of a bank of `REC::Particle` give its cells: from the bank, from
/// a view of the bank, and through handles.
pub proof fn law_rec_particle_is_read<'a>(
    bank: Bank<'a>,
    view: BankView<'a, RecParticle>,
    row: u32,
    a: RecParticle,
    b: RecParticle,
    pid: i32,
    px: Float32,
    py: Float32,
    pz: Float32,
    vx: Float32,
    vy: Float32,
    vz: Float32,
    vt: Float32,
    charge: i8,
    beta: Float32,
    chi2pid: Float32,
    status: i16,
)
    requires
        view@ == bank@,
        bank@.schema.entries.len() <= 65535,
        call_ensures(<RecParticle as BankRow>::from_row, (&bank, row), a),
        call_ensures(BankView::<'a, RecParticle>::row, (&view, row), b),
        call_ensures(Bank::<'a>::get::<i32>, (&bank, "pid", row), pid),
        call_ensures(Bank::<'a>::get::<Float32>, (&bank, "px", row), px),
        call_ensures(Bank::<'a>::get::<Float32>, (&bank, "py", row), py),
        call_ensures(Bank::<'a>::get::<Float32>, (&bank, "pz", row), pz),
        call_ensures(Bank::<'a>::get::<Float32>, (&bank, "vx", row), vx),
        call_ensures(Bank::<'a>::get::<Float32>, (&bank, "vy", row), vy),
        call_ensures(Bank::<'a>::get::<Float32>, (&bank, "vz", row), vz),
        call_ensures(Bank::<'a>::get::<Float32>, (&bank, "vt", row), vt),
        call_ensures(Bank::<'a>::get::<i8>, (&bank, "charge", row), charge),
        call_ensures(Bank::<'a>::get::<Float32>, (&bank, "beta", row), beta),
        call_ensures(Bank::<'a>::get::<Float32>, (&bank, "chi2pid", row), chi2pid),
        call_ensures(Bank::<'a>::get::<i16>, (&bank, "status", row), status),
    ensures
        a.pid == pid,
        a.px == px,
        a.py == py,
        a.pz == pz,
        a.vx == vx,
        a.vy == vy,
        a.vz == vz,
        a.vt == vt,
        a.charge == charge,
        a.beta == beta,
        a.chi2pid == chi2pid,
        a.status == status,
        b == a,
{
    law_rec_particle_fields(bank, row, a, pid, px, py, pz, vx, vy, vz, vt, charge, beta, chi2pid, status);
    law_rec_particle_fields(bank, row, b, pid, px, py, pz, vx, vy, vz, vt, charge, beta, chi2pid, status);
}

/// Every field of a [`RecEvent`] is the cell of its own column: what reading that column of the
/// bank by its name gives for the row. (A bank of 65,536 columns has one more than handles can
/// tell apart.)
pub proof fn law_rec_event_fields<'a>(
    bank: Bank<'a>,
    row: u32,
    r: RecEvent,
    category: i64,
    topology: i64,
    beam_charge: Float32,
    live_time: Float64,
    start_time: Float32,
    rf_time: Float32,
    helicity: i8,
    helicity_raw: i8,
    proc_time: Float32,
)
    requires
        <RecEvent as BankRow>::is_row(bank@, row as int, r),
        bank@.schema.entries.len() <= 65535,
        call_ensures(Bank::<'a>::get::<i64>, (&bank, "category", row), category),
        call_ensures(Bank::<'a>::get::<i64>, (&bank, "topology", row), topology),
        call_ensures(Bank::<'a>::get::<Float32>, (&bank, "beamCharge", row), beam_charge),
        call_ensures(Bank::<'a>::get::<Float64>, (&bank, "liveTime", row), live_time),
        call_ensures(Bank::<'a>::get::<Float32>, (&bank, "startTime", row), start_time),
        call_ensures(Bank::<'a>::get::<Float32>, (&bank, "RFTime", row), rf_time),
        call_ensures(Bank::<'a>::get::<i8>, (&bank, "helicity", row), helicity),
        call_ensures(Bank::<'a>::get::<i8>, (&bank, "helicityRaw", row), helicity_raw),
        call_ensures(Bank::<'a>::get::<Float32>, (&bank, "procTime", row), proc_time),
    ensures
        r.category == category,
        r.topology == topology,
        r.beam_charge == beam_charge,
        r.live_time == live_time,
        r.start_time == start_time,
        r.rf_time == rf_time,
        r.helicity == helicity,
        r.helicity_raw == helicity_raw,
        r.proc_time == proc_time,
{
    lemma_field_is_cell::<i64>(bank@, "category"@, row as int, r.category, category);
    assert(r.category.elems()[0] == category.elems()[0]);
    lemma_field_is_cell::<i64>(bank@, "topology"@, row as int, r.topology, topology);
    assert(r.topology.elems()[0] == topology.elems()[0]);
    lemma_field_is_cell::<Float32>(bank@, "beamCharge"@, row as int, r.beam_charge, beam_charge);
    assert(r.beam_charge.elems()[0] == beam_charge.elems()[0]);
    lemma_field_is_cell::<Float64>(bank@, "liveTime"@, row as int, r.live_time, live_time);
    assert(r.live_time.elems()[0] == live_time.elems()[0]);
    lemma_field_is_cell::<Float32>(bank@, "startTime"@, row as int, r.start_time, start_time);
    assert(r.start_time.elems()[0] == start_time.elems()[0]);
    lemma_field_is_cell::<Float32>(bank@, "RFTime"@, row as int, r.rf_time, rf_time);
    assert(r.rf_time.elems()[0] == rf_time.elems()[0]);
    lemma_field_is_cell::<i8>(bank@, "helicity"@, row as int, r.helicity, helicity);
    assert(r.helicity.elems()[0] == helicity.elems()[0]);
    lemma_field_is_cell::<i8>(bank@, "helicityRaw"@, row as int, r.helicity_raw, helicity_raw);
    assert(r.helicity_raw.elems()[0] == helicity_raw.elems()[0]);
    lemma_field_is_cell::<Float32>(bank@, "procTime"@, row as int, r.proc_time, proc_time);
    assert(r.proc_time.elems()[0] == proc_time.elems()[0]);
}

/// All ways to read a [`RecEvent`] from row `row` of a bank of `REC::Event` give its cells: from the bank, from
/// a view of the bank, and through handles.
pub proof fn law_rec_event_is_read<'a>(
    bank: Bank<'a>,
    view: BankView<'a, RecEvent>,
    row: u32,
    a: RecEvent,
    b: RecEvent,
    category: i64,
    topology: i64,
    beam_charge: Float32,
    live_time: Float64,
    start_time: Float32,
    rf_time: Float32,
    helicity: i8,
    helicity_raw: i8,
    proc_time: Float32,
)
    requires
        view@ == bank@,
        bank@.schema.entries.len() <= 65535,
        call_ensures(<RecEvent as BankRow>::from_row, (&bank, row), a),
        call_ensures(BankView::<'a, RecEvent>::row, (&view, row), b),
        call_ensures(Bank::<'a>::get::<i64>, (&bank, "category", row), category),
        call_ensures(Bank::<'a>::get::<i64>, (&bank, "topology", row), topology),
        call_ensures(Bank::<'a>::get::<Float32>, (&bank, "beamCharge", row), beam_charge),
        call_ensures(Bank::<'a>::get::<Float64>, (&bank, "liveTime", row), live_time),
        call_ensures(Bank::<'a>::get::<Float32>, (&bank, "startTime", row), start_time),
        call_ensures(Bank::<'a>::get::<Float32>, (&bank, "RFTime", row), rf_time),
        call_ensures(Bank::<'a>::get::<i8>, (&bank, "helicity", row), helicity),
        call_ensures(Bank::<'a>::get::<i8>, (&bank, "helicityRaw", row), helicity_raw),
        call_ensures(Bank::<'a>::get::<Float32>, (&bank, "procTime", row), proc_time),
    ensures
        a.category == category,
        a.topology == topology,
        a.beam_charge == beam_charge,
        a.live_time == live_time,
        a.start_time == start_time,
        a.rf_time == rf_time,
        a.helicity == helicity,
        a.helicity_raw == helicity_raw,
        a.proc_time == proc_time,
        b == a,
{
    law_rec_event_fields(bank, row, a, category, topology, beam_charge, live_time, start_time, rf_time, helicity, helicity_raw, proc_time);
    law_rec_event_fields(bank, row, b, category, topology, beam_charge, live_time, start_time, rf_time, helicity, helicity_raw, proc_time);
}

/// The number in a column, as a lenient read gives it, is the number that rows are looked up by.
proof fn lemma_key<'a>(bank: Bank<'a>, name: &str, row: u32, v: i16)
    requires
        call_ensures(Bank::<'a>::get::<i16>, (&bank, name, row), v),
    ensures
        key_at(bank@, name@, row as int) == v,
{
    let s = bank@.schema;
    assert(v.elems()[0] == v);
    if s.has_column(name@) {
        let c = choose|c: int| #[trigger]
            s.is_column(name@, c) && crate::event::bank::is_cell_or_zero::<i16>(
                bank@,
                c,
                row as int,
                v,
            );
        lemma_the_column(s, name@, c);
    }
}

/// `rows` are the rows of the bank, in ascending order, whose cell in the column `name` is `key`;
/// shown for row `row`, whose cell is `v`.
pub open spec fn picks_row(bank: BankState, rows: Seq<u32>, key: i16, row: u32, v: i16) -> bool {
    &&& (exists|i: int| 0 <= i < rows.len() && rows[i] == row) == (v == key)
    &&& forall|i: int| 0 <= i < rows.len() ==> #[trigger] rows[i] < bank.rows
    &&& forall|i: int, j: int|
        0 <= i < j < rows.len() ==> (#[trigger] rows[i]) < (#[trigger] rows[j])
}

proof fn lemma_picks<'a>(bank: Bank<'a>, name: &str, key: i16, rows: Seq<u32>, row: u32, v: i16)
    requires
        bank.inv(),
        bank@.schema.has_column(name@),
        row < bank@.rows,
        call_ensures(Bank::<'a>::get::<i16>, (&bank, name, row), v),
        rows == crate::event::row_typed::keyed_rows(bank@, name@, key, bank@.rows),
    ensures
        picks_row(bank@, rows, key, row, v),
{
    lemma_key(bank, name, row, v);
    law_keyed_rows(bank@, name@, key, bank@.rows);
    assert(rows.contains(row) == (v == key));
    assert(rows.contains(row) == (exists|i: int| 0 <= i < rows.len() && rows[i] == row));
    assert forall|i: int| 0 <= i < rows.len() implies #[trigger] rows[i] < bank@.rows by {
        assert(rows.contains(rows[i]));
    }
}

/// The bank has a column of this name.
pub open spec fn has_name(s: SchemaView, name: Seq<char>) -> bool {
    exists|k: int| 0 <= k < s.entries.len() && (#[trigger] s.entries[k]).name == name
}

/// The rows that [`EventCtx::rows_for_pindex`] is going to hand out are those of the bank of `T` whose
/// cell in the column `pindex` is the number that was asked for, in ascending order, and no others.
/// A bank without the column has none; nor has an event without the bank.
pub proof fn law_rows_for_pindex<'a, T: BankRow>(
    x: EventCtx<'a>,
    key: i16,
    r: RowsForKeyIter<'a, T>,
    bank: Bank<'a>,
    row: u32,
    v: i16,
)
    requires
        call_ensures(EventCtx::<'a>::rows_for_pindex::<T>, (&x, key), r),
    ensures
        r@.next == 0,
        r@.bank is None ==> r@.rows.len() == 0,
        bank.inv() && r@.bank == Some(bank@) && !has_name(bank@.schema, "pindex"@)
            ==> r@.rows.len() == 0,
        bank.inv() && r@.bank == Some(bank@) && has_name(bank@.schema, "pindex"@) && row < bank@.rows
            && call_ensures(Bank::<'a>::get::<i16>, (&bank, "pindex", row), v) ==> picks_row(
            bank@,
            r@.rows,
            key,
            row,
            v,
        ),
{
    if bank.inv() && r@.bank == Some(bank@) && has_name(bank@.schema, "pindex"@) && row < bank@.rows
        && call_ensures(Bank::<'a>::get::<i16>, (&bank, "pindex", row), v) {
        lemma_picks(bank, "pindex", key, r@.rows, row, v);
    }
}

/// The same of an owned event.
pub proof fn law_owned_rows_for_pindex<'a, T: BankRow>(
    x: &'a OwnedEvent,
    key: i16,
    r: RowsForKeyIter<'a, T>,
    bank: Bank<'a>,
    row: u32,
    v: i16,
)
    requires
        call_ensures(OwnedEvent::rows_for_pindex::<T>, (x, key), r),
    ensures
        r@.next == 0,
        r@.bank is None ==> r@.rows.len() == 0,
        bank.inv() && r@.bank == Some(bank@) && !has_name(bank@.schema, "pindex"@)
            ==> r@.rows.len() == 0,
        bank.inv() && r@.bank == Some(bank@) && has_name(bank@.schema, "pindex"@) && row < bank@.rows
            && call_ensures(Bank::<'a>::get::<i16>, (&bank, "pindex", row), v) ==> picks_row(
            bank@,
            r@.rows,
            key,
            row,
            v,
        ),
{
    if bank.inv() && r@.bank == Some(bank@) && has_name(bank@.schema, "pindex"@) && row < bank@.rows
        && call_ensures(Bank::<'a>::get::<i16>, (&bank, "pindex", row), v) {
        lemma_picks(bank, "pindex", key, r@.rows, row, v);
    }
}

/// The rows that a view and an iterator over it find by `pindex` are those whose cell in that column
/// is the number that was asked for, in ascending order, and no others.
pub proof fn law_pindex_rows<'a, T: BankRow>(
    view: BankView<'a, T>,
    bank: Bank<'a>,
    key: i16,
    found: Vec<u32>,
    it: RowsForKeyIter<'a, T>,
    row: u32,
    v: i16,
)
    requires
        bank.inv(),
        view@ == bank@,
        call_ensures(BankView::<'a, T>::pindex_rows, (&view, key), found),
        call_ensures(RowsForKeyIter::<'a, T>::new_pindex, (Some(view), key), it),
    ensures
        it@.rows == found@,
        it@.next == 0,
        it@.bank == Some(bank@),
        !has_name(bank@.schema, "pindex"@) ==> found@.len() == 0,
        has_name(bank@.schema, "pindex"@) && row < bank@.rows && call_ensures(
            Bank::<'a>::get::<i16>,
            (&bank, "pindex", row),
            v,
        ) ==> picks_row(bank@, found@, key, row, v),
{
    if has_name(bank@.schema, "pindex"@) && row < bank@.rows && call_ensures(
        Bank::<'a>::get::<i16>,
        (&bank, "pindex", row),
        v,
    ) {
        lemma_picks(bank, "pindex", key, found@, row, v);
    }
}

/// The rows that [`EventCtx::rows_for_index`] is going to hand out are those of the bank of `T` whose
/// cell in the column `index` is the number that was asked for, in ascending order, and no others.
/// A bank without the column has none; nor has an event without the bank.
pub proof fn law_rows_for_index<'a, T: BankRow>(
    x: EventCtx<'a>,
    key: i16,
    r: RowsForKeyIter<'a, T>,
    bank: Bank<'a>,
    row: u32,
    v: i16,
)
    requires
        call_ensures(EventCtx::<'a>::rows_for_index::<T>, (&x, key), r),
    ensures
        r@.next == 0,
        r@.bank is None ==> r@.rows.len() == 0,
        bank.inv() && r@.bank == Some(bank@) && !has_name(bank@.schema, "index"@)
            ==> r@.rows.len() == 0,
        bank.inv() && r@.bank == Some(bank@) && has_name(bank@.schema, "index"@) && row < bank@.rows
            && call_ensures(Bank::<'a>::get::<i16>, (&bank, "index", row), v) ==> picks_row(
            bank@,
            r@.rows,
            key,
            row,
            v,
        ),
{
    if bank.inv() && r@.bank == Some(bank@) && has_name(bank@.schema, "index"@) && row < bank@.rows
        && call_ensures(Bank::<'a>::get::<i16>, (&bank, "index", row), v) {
        lemma_picks(bank, "index", key, r@.rows, row, v);
    }
}

/// The same of an owned event.
pub proof fn law_owned_rows_for_index<'a, T: BankRow>(
    x: &'a OwnedEvent,
    key: i16,
    r: RowsForKeyIter<'a, T>,
    bank: Bank<'a>,
    row: u32,
    v: i16,
)
    requires
        call_ensures(OwnedEvent::rows_for_index::<T>, (x, key), r),
    ensures
        r@.next == 0,
        r@.bank is None ==> r@.rows.len() == 0,
        bank.inv() && r@.bank == Some(bank@) && !has_name(bank@.schema, "index"@)
            ==> r@.rows.len() == 0,
        bank.inv() && r@.bank == Some(bank@) && has_name(bank@.schema, "index"@) && row < bank@.rows
            && call_ensures(Bank::<'a>::get::<i16>, (&bank, "index", row), v) ==> picks_row(
            bank@,
            r@.rows,
            key,
            row,
            v,
        ),
{
    if bank.inv() && r@.bank == Some(bank@) && has_name(bank@.schema, "index"@) && row < bank@.rows
        && call_ensures(Bank::<'a>::get::<i16>, (&bank, "index", row), v) {
        lemma_picks(bank, "index", key, r@.rows, row, v);
    }
}

/// The rows that a view and an iterator over it find by `index` are those whose cell in that column
/// is the number that was asked for, in ascending order, and no others.
pub proof fn law_index_rows<'a, T: BankRow>(
    view: BankView<'a, T>,
    bank: Bank<'a>,
    key: i16,
    found: Vec<u32>,
    it: RowsForKeyIter<'a, T>,
    row: u32,
    v: i16,
)
    requires
        bank.inv(),
        view@ == bank@,
        call_ensures(BankView::<'a, T>::index_rows, (&view, key), found),
        call_ensures(RowsForKeyIter::<'a, T>::new_index, (Some(view), key), it),
    ensures
        it@.rows == found@,
        it@.next == 0,
        it@.bank == Some(bank@),
        !has_name(bank@.schema, "index"@) ==> found@.len() == 0,
        has_name(bank@.schema, "index"@) && row < bank@.rows && call_ensures(
            Bank::<'a>::get::<i16>,
            (&bank, "index", row),
            v,
        ) ==> picks_row(bank@, found@, key, row, v),
{
    if has_name(bank@.schema, "index"@) && row < bank@.rows && call_ensures(
        Bank::<'a>::get::<i16>,
        (&bank, "index", row),
        v,
    ) {
        lemma_picks(bank, "index", key, found@, row, v);
    }
}

/// An index of a column finds, for every number, the rows whose cell is that number, in ascending
/// order, and no others. There is an index where there is the column.
pub proof fn law_index_of_a_column<'a>(
    bank: Bank<'a>,
    name: &str,
    x: Option<PindexIndex>,
    key: i16,
    found: Vec<u32>,
    row: u32,
    v: i16,
)
    requires
        bank.inv(),
        call_ensures(PindexIndex::build_from_column, (&bank, name), x),
        x matches Some(y) ==> call_ensures(PindexIndex::rows_for, (&y, key), found),
        row < bank@.rows,
        call_ensures(Bank::<'a>::get::<i16>, (&bank, name, row), v),
    ensures
        (x is Some) == has_name(bank@.schema, name@),
        x is Some ==> picks_row(bank@, found@, key, row, v),
{
    if x is Some {
        lemma_picks(bank, name, key, found@, row, v);
    }
}

/// Rows and lookups are over the bank of the type's own id: the one that the dictionary's schema of
/// that id finds in the event. Rows come from the first on.
pub proof fn law_rows_are_of_the_types_bank<'a, T: BankRow>(
    x: EventCtx<'a>,
    schema: &'a Schema,
    bank: Option<Bank<'a>>,
    key: i16,
    rows: RowsIter<'a, T>,
    p: RowsForKeyIter<'a, T>,
    i: RowsForKeyIter<'a, T>,
)
    requires
        call_ensures(EventCtx::<'a>::rows::<T>, (&x,), rows),
        call_ensures(EventCtx::<'a>::rows_for_pindex::<T>, (&x, key), p),
        call_ensures(EventCtx::<'a>::rows_for_index::<T>, (&x, key), i),
    ensures
        rows@.next == 0 && p@.next == 0 && i@.next == 0,
        x@.dict.by_id(T::GROUP, T::ITEM) is None ==> rows@.bank is None && p@.bank is None && i@.bank
            is None,
        x@.dict.by_id(T::GROUP, T::ITEM) == Some(schema@) && call_ensures(
            EventCtx::<'a>::bank_for,
            (&x, schema),
            bank,
        ) ==> {
            &&& rows@.bank == (match bank {
                Some(b) => Some(b@),
                None => None,
            })
            &&& p@.bank == rows@.bank
            &&& i@.bank == rows@.bank
        },
{
}

/// A walk over rows hands them out from where it stands, one after the other, up to the bank's last,
/// and then nothing more; as many are left as lie between.
pub proof fn law_rows_come_in_order<'a, 'b, T: BankRow>(
    it: &'b mut RowsIter<'a, T>,
    r: Option<T>,
    walk: RowsIter<'a, T>,
    left: usize,
)
    requires
        call_ensures(RowsIter::<'a, T>::next, (it,), r),
        call_ensures(RowsIter::<'a, T>::len, (&walk,), left),
    ensures
        final(it)@.bank == old(it)@.bank,
        (r is Some) == (old(it)@.bank matches Some(b) && old(it)@.next < b.rows),
        r matches Some(t) ==> T::is_row(old(it)@.bank->0, old(it)@.next as int, t)
            && final(it)@.next == old(it)@.next + 1,
        r is None ==> final(it)@.next == old(it)@.next,
        walk@.bank matches Some(b) ==> left == (if walk@.next < b.rows {
            b.rows - walk@.next
        } else {
            0
        }),
        walk@.bank is None ==> left == 0,
{
}

/// A walk over the rows that a lookup found hands them out in the order in which they were found,
/// and then nothing more.
pub proof fn law_found_rows_come_in_order<'a, 'b, T: BankRow>(
    it: &'b mut RowsForKeyIter<'a, T>,
    r: Option<T>,
)
    requires
        call_ensures(RowsForKeyIter::<'a, T>::next, (it,), r),
    ensures
        final(it)@.bank == old(it)@.bank,
        final(it)@.rows == old(it)@.rows,
        (r is Some) == (old(it)@.next < old(it)@.rows.len()),
        r matches Some(t) ==> T::is_row(
            old(it)@.bank->0,
            old(it)@.rows[old(it)@.next as int] as int,
            t,
        ) && final(it)@.next == old(it)@.next + 1,
        r is None ==> final(it)@.next == old(it)@.next,
{
}

} // verus!
