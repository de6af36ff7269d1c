//! Sweeps: every value of one column, in whatever runs the records hold it.

use vstd::prelude::*;
use vstd::slice::slice_subrange;
#[allow(unused_imports)]
use crate::compress::decompress_error;
use crate::error::{HipoError, Result};
use crate::event::bank::{may_hold, Bank};
use crate::event::event::Event;
#[allow(unused_imports)]
use crate::event::event::{event_structures, found};
#[allow(unused_imports)]
use crate::event::view::EventView;
#[allow(unused_imports)]
use crate::read::cells::{cells_in, CellsView};
use crate::read::chain::Chain;
#[allow(unused_imports)]
use crate::read::chain::ChainView;
#[allow(unused_imports)]
use crate::read::columns::span_list;
#[allow(unused_imports)]
use crate::read::iter::record_fault;
#[allow(unused_imports)]
use crate::read::plan::has_cells;
use crate::read::source::ReadAt;
use crate::read::stored::{Chunk, StoredRecord};
#[allow(unused_imports)]
use crate::read::stored::StoredView;
use crate::read::typed::read_cells;
#[allow(unused_imports)]
use crate::read::typed::{cell_width, is_cells};
use crate::schema::handle::{BankColumnType, BankScalarType, ColumnHandle};
#[allow(unused_imports)]
use crate::schema::handle::{fits, resolved};
use crate::schema::types::Schema;
#[allow(unused_imports)]
use crate::schema::types::SchemaView;
use crate::wire::by_bank::ByBankRecord;
use crate::wire::per_column::PerColumnRecord;

verus! {

/// The bytes that an event holds of a bank, where they lie together.
pub open spec fn swept_data(ev: EventView, s: SchemaView) -> Option<Seq<u8>> {
    match ev {
        EventView::Bytes(x) => match found(event_structures(x), s.group, s.item) {
            Some(st) => Some(st.data),
            None => None,
        },
        EventView::ByBank(v, e) => match v.bank_at(s.group, s.item) {
            Some(b) => if v.has(e, b) {
                v.bank_data(e, b)
            } else {
                None
            },
            None => None,
        },
        EventView::PerColumn(v, e) => match v.bank_at(s.group, s.item) {
            Some(b) => if v.has(e, b as int) && v.cols[b as int] == 0 {
                v.opaque_data(e, b as int)
            } else {
                None
            },
            None => None,
        },
    }
}

/// The run that an event contributes: its cells of the column. An event without the bank, or
/// whose data is not a whole number of rows, contributes none.
pub open spec fn swept_event(ev: EventView, s: SchemaView, col: int) -> Seq<Seq<u8>> {
    match swept_data(ev, s) {
        Some(d) => match cells_in(s, d) {
            CellsView::Bank(b) => seq![b.col_data(col)],
            _ => Seq::empty(),
        },
        None => Seq::empty(),
    }
}

/// The runs that the first `n` events of a record contribute.
pub open spec fn swept_events(v: StoredView, s: SchemaView, col: int, n: nat) -> Seq<Seq<u8>>
    decreases n,
{
    if n == 0 {
        Seq::empty()
    } else {
        swept_events(v, s, col, (n - 1) as nat) + swept_event(v.event(n - 1), s, col)
    }
}

/// The runs in which a record holds the column: one per event, or, where the column is a stream
/// of its own, one for all events. Nothing where a stream cannot be decompressed.
pub open spec fn swept(v: StoredView, s: SchemaView, col: int) -> Option<Seq<Seq<u8>>> {
    let runs = swept_events(v, s, col, v.events());
    match v {
        StoredView::Chunk(_) => Some(runs),
        StoredView::ByBank(r) => match r.bank_at(s.group, s.item) {
            Some(b) => if r.stream(b) is Some {
                Some(runs)
            } else {
                None
            },
            None => Some(Seq::empty()),
        },
        StoredView::PerColumn(r) => match r.bank_at(s.group, s.item) {
            Some(b) => if r.cols[b as int] == 0 {
                if r.stream(b as int, 0) is Some {
                    Some(runs)
                } else {
                    None
                }
            } else if col < r.cols[b as int] {
                match r.stream(b as int, col) {
                    Some(x) => Some(swept_stream(x, s.entries[col].width())),
                    None => None,
                }
            } else {
                Some(Seq::empty())
            },
            None => Some(Seq::empty()),
        },
    }
}

/// The run that a column's own stream is: as many whole cells as it holds.
pub open spec fn swept_stream(x: Seq<u8>, w: nat) -> Seq<Seq<u8>> {
    if x.len() >= w {
        seq![x.subrange(0, ((x.len() / w) * w) as int)]
    } else {
        Seq::empty()
    }
}

/// `e` is the error that sweeping a record ends with.
pub open spec fn sweep_fault(v: StoredView, s: SchemaView, col: int, e: HipoError) -> bool {
    match v {
        StoredView::Chunk(_) => false,
        StoredView::ByBank(r) => match r.bank_at(s.group, s.item) {
            Some(b) => decompress_error(
                r.header.compression.spec_codec(),
                r.packed[b],
                r.sizes[b] as nat,
                e,
            ),
            None => false,
        },
        StoredView::PerColumn(r) => match r.bank_at(s.group, s.item) {
            Some(b) => r.stream_error(
                b as int,
                if r.cols[b as int] == 0 {
                    0
                } else {
                    col
                },
                e,
            ),
            None => false,
        },
    }
}

/// `out` holds the cells of the given runs.
pub open spec fn are_runs<T: BankColumnType>(out: Seq<Vec<T>>, runs: Seq<Seq<u8>>) -> bool {
    &&& out.len() == runs.len()
    &&& forall|i: int| 0 <= i < out.len() ==> is_cells::<T>((#[trigger] out[i])@, runs[i])
}

/// Add the run that data contributes, where it is a whole number of rows.
fn sweep_data<T: BankColumnType>(
    schema: &Schema,
    handle: ColumnHandle<T>,
    data: &[u8],
    out: &mut Vec<Vec<T>>,
)
    requires
        fits::<T>(schema@, handle@),
    ensures
        forall|runs: Seq<Seq<u8>>|
            #![trigger are_runs(old(out)@, runs)]
            are_runs(old(out)@, runs) ==> are_runs(
                final(out)@,
                runs + match cells_in(schema@, data@) {
                    CellsView::Bank(b) => seq![b.col_data(handle@)],
                    _ => Seq::empty(),
                },
            ),
{
    if !may_hold(schema, data.len()) {
        assert forall|runs: Seq<Seq<u8>>| #[trigger] are_runs(out@, runs) implies are_runs(
            out@,
            runs + Seq::<Seq<u8>>::empty(),
        ) by {
            assert(runs + Seq::<Seq<u8>>::empty() =~= runs);
        }
        return;
    }
    match Bank::new(schema, data) {
        Ok(bank) => {
            let ghost before = out@;
            let col: usize = handle.column_index();
            let bytes = bank.col_bytes(col);
            proof {
                assert(schema@.entries[col as int].width() == cell_width::<T>());
            }
            out.push(read_cells::<T>(bytes, bank.rows() as usize));
            assert forall|runs: Seq<Seq<u8>>| #[trigger] are_runs(before, runs) implies are_runs(
                out@,
                runs + seq![bank@.col_data(col as int)],
            ) by {
                let more = runs + seq![bank@.col_data(col as int)];
                assert forall|i: int| 0 <= i < out.len() implies is_cells::<T>(
                    (#[trigger] out@[i])@,
                    more[i],
                ) by {
                    if i < before.len() {
                        assert(out@[i] == before[i]);
                    }
                }
            }
        },
        Err(_) => {
            assert forall|runs: Seq<Seq<u8>>| #[trigger] are_runs(out@, runs) implies are_runs(
                out@,
                runs + Seq::<Seq<u8>>::empty(),
            ) by {
                assert(runs + Seq::<Seq<u8>>::empty() =~= runs);
            }
        },
    }
}

/// The runs of a single-block record.
fn sweep_chunk<T: BankColumnType>(rec: &Chunk, schema: &Schema, handle: ColumnHandle<T>) -> (r: Vec<
    Vec<T>,
>)
    requires
        fits::<T>(schema@, handle@),
    ensures
        are_runs(
            r@,
            swept_events(
                StoredView::Chunk(rec@),
                schema@,
                handle@,
                rec@.header.event_count as nat,
            ),
        ),
{
    let ghost v = StoredView::Chunk(rec@);
    let ghost s = schema@;
    let (group, item) = (schema.group(), schema.item());
    let n: u32 = rec.event_count();
    let mut out: Vec<Vec<T>> = Vec::new();
    let mut e: u32 = 0;
    while e < n
        invariant
            e <= n,
            n == rec@.header.event_count,
            v == StoredView::Chunk(rec@),
            s == schema@,
            group == s.group && item == s.item,
            fits::<T>(s, handle@),
            are_runs(out@, swept_events(v, s, handle@, e as nat)),
        decreases n - e,
    {
        let ghost runs = swept_events(v, s, handle@, e as nat);
        let event = Event::new(rec.event(e));
        assert(v.event(e as int) == EventView::Bytes(event@));
        match event.find(group, item) {
            Some((_, data)) => {
                sweep_data(schema, handle, data, &mut out);
            },
            None => {
                assert(runs + Seq::<Seq<u8>>::empty() =~= runs);
            },
        }
        e = e + 1;
    }
    out
}

/// The error, if there is one.
pub open spec fn failure(r: Result<()>) -> Option<HipoError> {
    match r {
        Ok(_) => None,
        Err(e) => Some(e),
    }
}

/// What sweeping a record ends with.
pub open spec fn is_swept<T: BankColumnType>(
    v: StoredView,
    s: SchemaView,
    col: int,
    r: Result<Vec<Vec<T>>>,
) -> bool {
    match swept(v, s, col) {
        Some(runs) => r is Ok && are_runs(r->Ok_0@, runs),
        None => r is Err && sweep_fault(v, s, col, r->Err_0),
    }
}

/// The runs of a per-bank record.
fn sweep_by_bank<T: BankColumnType>(
    rec: &ByBankRecord,
    schema: &Schema,
    handle: ColumnHandle<T>,
) -> (r: Result<Vec<Vec<T>>>)
    requires
        fits::<T>(schema@, handle@),
    ensures
        is_swept(StoredView::ByBank(rec@), schema@, handle@, r),
{
    let ghost v = StoredView::ByBank(rec@);
    let ghost s = schema@;
    let mut out: Vec<Vec<T>> = Vec::new();
    let b: u32 = match rec.bank_index(schema.group(), schema.item()) {
        Some(b) => b,
        None => {
            return Ok(out);
        },
    };
    let stream = match rec.inflate_bank(b) {
        Ok(x) => x,
        Err(e) => {
            return Err(e);
        },
    };
    let n: u32 = rec.event_count();
    let mut e: u32 = 0;
    while e < n
        invariant
            e <= n,
            n == rec@.events(),
            v == StoredView::ByBank(rec@),
            s == schema@,
            b < rec@.banks(),
            rec@.bank_at(s.group, s.item) == Some(b as int),
            rec@.stream(b as int) == Some(stream@),
            fits::<T>(s, handle@),
            are_runs(out@, swept_events(v, s, handle@, e as nat)),
        decreases n - e,
    {
        let ghost runs = swept_events(v, s, handle@, e as nat);
        let range = rec.bank_byte_range(e, b);
        if rec.has(e, b) && range.end <= stream.len() {
            let data = slice_subrange(stream.as_slice(), range.start, range.end);
            assert(swept_data(v.event(e as int), s) == Some(data@));
            sweep_data(schema, handle, data, &mut out);
        } else {
            assert(swept_data(v.event(e as int), s) is None);
            assert(runs + Seq::<Seq<u8>>::empty() =~= runs);
        }
        e = e + 1;
    }
    Ok(out)
}

/// The runs of a per-column record.
#[verifier::spinoff_prover]
#[verifier::rlimit(40)]
fn sweep_per_column<T: BankColumnType>(
    rec: &PerColumnRecord,
    schema: &Schema,
    handle: ColumnHandle<T>,
) -> (r: Result<Vec<Vec<T>>>)
    requires
        fits::<T>(schema@, handle@),
    ensures
        is_swept(StoredView::PerColumn(rec@), schema@, handle@, r),
{
    let ghost v = StoredView::PerColumn(rec@);
    let ghost s = schema@;
    let col: usize = handle.column_index();
    let mut out: Vec<Vec<T>> = Vec::new();
    let b: u32 = match rec.bank_index(schema.group(), schema.item()) {
        Some(b) => b,
        None => {
            return Ok(out);
        },
    };
    if !rec.is_opaque(b) {
        if col as u16 >= rec.num_columns(b) {
            return Ok(out);
        }
        let stream = match rec.inflate_column(b, col as u16) {
            Ok(x) => x,
            Err(e) => {
                return Err(e);
            },
        };
        proof {
            use_type_invariant(schema);
            assert(s.entries[col as int].length >= 1);
        }
        let size: usize = <T::Scalar as BankScalarType>::data_type().size();
        let length: usize = T::length();
        let ghost w = cell_width::<T>();
        proof {
            assert(w == s.entries[col as int].width());
            let (z, l) = (size as int, length as int);
            assert(z <= z * l && l <= z * l) by (nonlinear_arith)
                requires
                    z >= 1,
                    l >= 1,
            ;
            assert(z * l <= 8 * 0xffff_ffff) by (nonlinear_arith)
                requires
                    1 <= z <= 8,
                    1 <= l <= 0xffff_ffff,
            ;
        }
        let width: u64 = size as u64 * length as u64;
        if stream.len() as u64 >= width {
            let n: u64 = stream.len() as u64 / width;
            proof {
                let (x, y) = (stream.len() as int, w as int);
                assert((x / y) * y <= x && 0 <= (x / y) * y && x / y <= x) by (nonlinear_arith)
                    requires
                        x >= 0,
                        y >= 1,
                ;
            }
            let bytes = slice_subrange(stream.as_slice(), 0, (n * width) as usize);
            out.push(read_cells::<T>(bytes, n as usize));
        }
        return Ok(out);
    }
    let stream = match rec.inflate_column(b, 0) {
        Ok(x) => x,
        Err(e) => {
            return Err(e);
        },
    };
    let n: u32 = rec.event_count();
    let mut e: u32 = 0;
    while e < n
        invariant
            e <= n,
            n == rec@.events(),
            v == StoredView::PerColumn(rec@),
            s == schema@,
            b < rec@.banks(),
            rec@.cols[b as int] == 0,
            rec@.bank_at(s.group, s.item) == Some(b as nat),
            rec@.stream(b as int, 0) == Some(stream@),
            fits::<T>(s, handle@),
            are_runs(out@, swept_events(v, s, handle@, e as nat)),
        decreases n - e,
    {
        let ghost runs = swept_events(v, s, handle@, e as nat);
        let range = rec.bank_byte_range(e, b);
        if rec.has(e, b) && range.end <= stream.len() {
            let data = slice_subrange(stream.as_slice(), range.start, range.end);
            assert(swept_data(v.event(e as int), s) == Some(data@));
            sweep_data(schema, handle, data, &mut out);
        } else {
            assert(swept_data(v.event(e as int), s) is None);
            assert(runs + Seq::<Seq<u8>>::empty() =~= runs);
        }
        e = e + 1;
    }
    Ok(out)
}

/// The runs in which a record holds a column.
pub fn column_runs<T: BankColumnType>(
    rec: &StoredRecord,
    schema: &Schema,
    handle: ColumnHandle<T>,
) -> (r: Result<Vec<Vec<T>>>)
    requires
        fits::<T>(schema@, handle@),
    ensures
        is_swept(rec@, schema@, handle@, r),
{
    match rec {
        StoredRecord::Chunk(c) => Ok(sweep_chunk(c, schema, handle)),
        StoredRecord::ByBank(b) => sweep_by_bank(b, schema, handle),
        StoredRecord::PerColumn(p) => sweep_per_column(p, schema, handle),
    }
}

impl ChainView {
    /// Record `t`, decoded with the chain's dictionary.
    pub open spec fn record_decoded(self, t: (int, int)) -> Option<StoredView> {
        self.record_of(t.0, t.1)
    }

    /// The first `n` records can be read and swept.
    #[verifier::opaque]
    pub open spec fn all_swept(self, ts: Seq<(int, int)>, s: SchemaView, col: int, n: nat) -> bool {
        forall|k: int|
            0 <= k < n ==> self.record_decoded(#[trigger] ts[k]) is Some && swept(
                self.record_decoded(ts[k])->0,
                s,
                col,
            ) is Some
    }

    /// Record `k` is the first that cannot be read or swept, and `e` is the error.
    #[verifier::opaque]
    pub open spec fn sweep_fails_at(
        self,
        ts: Seq<(int, int)>,
        s: SchemaView,
        col: int,
        k: int,
        e: HipoError,
    ) -> bool {
        &&& 0 <= k < ts.len()
        &&& self.all_swept(ts, s, col, k as nat)
        &&& match self.record_decoded(ts[k]) {
            Some(v) => swept(v, s, col) is None && sweep_fault(v, s, col, e),
            None => record_fault(
                self.files[ts[k].0].bytes,
                self.files[ts[k].0].info.spans[ts[k].1],
                self.dict,
                e,
            ),
        }
    }

    /// Column `col` of `s` has the name `column`, and cells of `T`.
    pub open spec fn sweeps<T: BankColumnType>(
        self,
        s: SchemaView,
        column: Seq<char>,
        col: int,
    ) -> bool {
        s.is_column(column, col) && fits::<T>(s, col)
    }

    /// Every record was swept for the column.
    pub open spec fn sweep_done<T: BankColumnType>(self, s: SchemaView, column: Seq<char>) -> bool {
        let ts = self.records(self.files.len());
        exists|col: int| #[trigger]
            self.sweeps::<T>(s, column, col) && self.all_swept(ts, s, col, ts.len())
    }

    /// Some record cannot be swept for the column, and `e` is the error of the first.
    pub open spec fn sweep_failed<T: BankColumnType>(
        self,
        s: SchemaView,
        column: Seq<char>,
        e: HipoError,
    ) -> bool {
        let ts = self.records(self.files.len());
        exists|col: int, k: int| #[trigger]
            self.sweep_fails_at(ts, s, col, k, e) && self.sweeps::<T>(s, column, col)
    }

    /// How a sweep ends. The bank, the column and its type are checked first.
    pub open spec fn sweep_end<T: BankColumnType>(
        self,
        bank: Seq<char>,
        column: Seq<char>,
        failed: Option<HipoError>,
    ) -> bool {
        match (self.dict.named(bank), failed) {
            (None, Some(HipoError::UnknownSchema { name })) => name@ == bank,
            (None, _) => false,
            (Some(s), None) => self.sweep_done::<T>(s, column),
            (Some(s), Some(e)) => resolved::<T>(s, column, Err(e)) || self.sweep_failed::<T>(
                s,
                column,
                e,
            ),
        }
    }
}

/// One more record swept, or not.
proof fn lemma_swept_or_not<T: BankColumnType>(
    c: ChainView,
    ts: Seq<(int, int)>,
    s: SchemaView,
    col: int,
    k: int,
    r: Result<Vec<Vec<T>>>,
)
    requires
        0 <= k < ts.len(),
        c.intact() || r is Ok ==> match c.record_decoded(ts[k]) {
            Some(v) => is_swept(v, s, col, r),
            None => r is Err && record_fault(
                c.files[ts[k].0].bytes,
                c.files[ts[k].0].info.spans[ts[k].1],
                c.dict,
                r->Err_0,
            ),
        },
        c.all_swept(ts, s, col, k as nat),
    ensures
        r is Ok ==> c.all_swept(ts, s, col, (k + 1) as nat),
        c.intact() && r is Err ==> c.sweep_fails_at(ts, s, col, k, r->Err_0),
{
    reveal(ChainView::all_swept);
    reveal(ChainView::sweep_fails_at);
}

/// A sweep of a column that was found ends as a sweep does.
proof fn lemma_sweep_end<T: BankColumnType>(
    c: ChainView,
    bank: Seq<char>,
    column: Seq<char>,
    s: SchemaView,
    col: int,
    r: Result<()>,
)
    requires
        c.dict.named(bank) == Some(s),
        c.sweeps::<T>(s, column, col),
        ({
            let ts = c.records(c.files.len());
            match r {
                Ok(_) => c.all_swept(ts, s, col, ts.len()),
                Err(e) => exists|k: int| #[trigger] c.sweep_fails_at(ts, s, col, k, e),
            }
        }),
    ensures
        c.sweep_end::<T>(bank, column, failure(r)),
{
    let ts = c.records(c.files.len());
    if r is Err {
        let k = choose|k: int| #[trigger] c.sweep_fails_at(ts, s, col, k, r->Err_0);
        assert(c.sweep_fails_at(ts, s, col, k, r->Err_0) && c.sweeps::<T>(s, column, col));
        assert(c.sweep_failed::<T>(s, column, r->Err_0));
    } else {
        assert(c.sweep_done::<T>(s, column));
    }
}

impl ChainView {
    /// `vals` are the cells of run `i` in which record `r` of file `f` holds column `col`.
    #[verifier::opaque]
    pub open spec fn is_run<T: BankColumnType>(
        self,
        f: int,
        r: int,
        s: SchemaView,
        col: int,
        i: int,
        vals: Seq<T>,
    ) -> bool {
        &&& 0 <= f < self.files.len()
        &&& 0 <= r < self.files[f].info.spans.len()
        &&& self.record_decoded((f, r)) matches Some(v) && (swept(v, s, col) matches Some(runs) && 0 <= i
            < runs.len() && is_cells::<T>(vals, runs[i]))
    }

    /// A sweep may hand out `vals`: the bank and the column are known, the column has cells of
    /// `T`, and `vals` are one of its runs.
    pub open spec fn may_visit<T: BankColumnType>(
        self,
        bank: Seq<char>,
        column: Seq<char>,
        vals: Seq<T>,
    ) -> bool {
        &&& self.dict.named(bank) is Some
        &&& exists|col: int, f: int, r: int, i: int| #[trigger]
            self.is_run::<T>(f, r, self.dict.named(bank)->0, col, i, vals) && self.sweeps::<T>(
                self.dict.named(bank)->0,
                column,
                col,
            )
    }
}

/// A run of a column that was found may be handed out.
proof fn lemma_may_visit<T: BankColumnType>(
    c: ChainView,
    bank: Seq<char>,
    column: Seq<char>,
    s: SchemaView,
    col: int,
    f: int,
    r: int,
    i: int,
    vals: Seq<T>,
)
    requires
        c.dict.named(bank) == Some(s),
        c.sweeps::<T>(s, column, col),
        c.is_run::<T>(f, r, s, col, i, vals),
    ensures
        c.may_visit::<T>(bank, column, vals),
{
    let n = c.dict.named(bank)->0;
    assert(c.is_run::<T>(f, r, n, col, i, vals) && c.sweeps::<T>(n, column, col));
    assert(exists|col: int, f: int, r: int, i: int| #[trigger]
        c.is_run::<T>(f, r, n, col, i, vals) && c.sweeps::<T>(n, column, col));
}

/// What was read of a record are its runs.
proof fn lemma_are_runs<T: BankColumnType>(
    c: ChainView,
    t: (int, int),
    s: SchemaView,
    col: int,
    runs: Vec<Vec<T>>,
)
    requires
        0 <= t.0 < c.files.len(),
        0 <= t.1 < c.files[t.0].info.spans.len(),
        c.record_decoded(t) matches Some(v) && is_swept(v, s, col, Ok(runs)),
    ensures
        all_runs(c, t, s, col, runs@),
{
    reveal(ChainView::is_run);
}

/// Each of these is a run of record `t`.
spec fn all_runs<T: BankColumnType>(
    c: ChainView,
    t: (int, int),
    s: SchemaView,
    col: int,
    runs: Seq<Vec<T>>,
) -> bool {
    forall|j: int| 0 <= j < runs.len() ==> c.is_run::<T>(
        t.0,
        t.1,
        s,
        col,
        j,
        (#[trigger] runs[j])@,
    )
}

/// `visit` can be called with every run of the column.
spec fn takes_runs<T: BankColumnType, F: FnMut(&[T])>(
    c: ChainView,
    visit: F,
    s: SchemaView,
    col: int,
) -> bool {
    forall|x: &[T], f: int, r: int, i: int| #[trigger]
        c.is_run::<T>(f, r, s, col, i, x@) ==> visit.requires((x,))
}

/// `visit` was called with these values.
pub open spec fn visited<T: BankColumnType, F: FnMut(&[T])>(visit: F, vals: Seq<T>) -> bool {
    exists|c: &[T]| #[trigger] visit.ensures((c,), ()) && c@ == vals
}

/// `visit` was called with every run of the column in record `t`.
pub open spec fn record_visited<T: BankColumnType, F: FnMut(&[T])>(
    c: ChainView,
    visit: F,
    t: (int, int),
    s: SchemaView,
    col: int,
) -> bool {
    c.record_decoded(t) matches Some(v) && exists|runs: Vec<Vec<T>>| #[trigger]
        is_swept(v, s, col, Ok(runs)) && forall|i: int|
            0 <= i < runs.len() ==> visited(visit, (#[trigger] runs@[i])@)
}

/// `visit` was called with every run of the column in the first `n` records of `ts`.
pub open spec fn all_visited<T: BankColumnType, F: FnMut(&[T])>(
    c: ChainView,
    visit: F,
    ts: Seq<(int, int)>,
    s: SchemaView,
    col: int,
    n: nat,
) -> bool {
    forall|k: int| 0 <= k < n ==> record_visited::<T, F>(c, visit, #[trigger] ts[k], s, col)
}

impl<S: ReadAt> Chain<S> {
    /// Read and decode a record with the chain's dictionary, and give the runs of the column.
    pub fn record_column<T: BankColumnType>(
        &self,
        f: usize,
        rec: usize,
        schema: &Schema,
        handle: ColumnHandle<T>,
    ) -> (r: Result<Vec<Vec<T>>>)
        requires
            f < self@.files.len(),
            rec < self@.files[f as int].info.spans.len(),
            fits::<T>(schema@, handle@),
        ensures
            self@.intact() || r is Ok ==> match self@.record_decoded((f as int, rec as int)) {
                Some(v) => is_swept(v, schema@, handle@, r),
                None => r is Err && record_fault(
                    self@.files[f as int].bytes,
                    self@.files[f as int].info.spans[rec as int],
                    self@.dict,
                    r->Err_0,
                ),
            },
    {
        let inner = self.file(f);
        let offset: u64 = inner.index().records()[rec].file_offset;
        let raw = match inner.read_record(offset) {
            Ok((_, raw)) => raw,
            Err(e) => {
                return Err(e);
            },
        };
        match StoredRecord::decode(raw.as_slice(), Some(self.schemas())) {
            Ok(record) => column_runs(&record, schema, handle),
            Err(e) => Err(e),
        }
    }

    /// Hand every value of one column to `visit`, run after run: the runs of
    /// [`Self::record_column`] of every record, in order, and nothing else. Where the bank, the
    /// column or its type is refused, `visit` is not called. The filter does not apply, nor do
    /// record tags.
    pub fn for_each_column<T: BankColumnType, F: FnMut(&[T])>(
        &self,
        bank: &str,
        column: &str,
        visit: F,
    ) -> (r: Result<()>)
        requires
            forall|c: &[T]|
                self@.may_visit::<T>(bank@, column@, c@) ==> #[trigger] visit.requires((c,)),
        ensures
            self@.intact() || r is Ok || !has_cells::<T>(self@.dict, bank@, column@)
                ==> self@.sweep_end::<T>(bank@, column@, failure(r)),
            r is Ok ==> exists|col: int| #[trigger]
                self@.sweeps::<T>(self@.dict.named(bank@)->0, column@, col) && all_visited::<T, F>(
                    self@,
                    visit,
                    self@.records(self@.files.len()),
                    self@.dict.named(bank@)->0,
                    col,
                    self@.records(self@.files.len()).len(),
                ),
    {
        let schema = match self.schemas().require(bank) {
            Ok(schema) => schema,
            Err(e) => {
                return Err(e);
            },
        };
        let handle = match schema.handle::<T>(column) {
            Ok(handle) => handle,
            Err(e) => {
                return Err(e);
            },
        };
        assert(self@.sweeps::<T>(schema@, column@, handle@));
        proof {
            assert forall|x: &[T], f: int, r: int, i: int| #[trigger]
                self@.is_run::<T>(f, r, schema@, handle@, i, x@) implies visit.requires((x,)) by {
                lemma_may_visit::<T>(self@, bank@, column@, schema@, handle@, f, r, i, x@);
            }
        }
        let r = self.sweep(schema, handle, visit);
        proof {
            if self@.intact() || r is Ok {
                lemma_sweep_end::<T>(self@, bank@, column@, schema@, handle@, r);
            }
        }
        r
    }

    /// [`Self::for_each_column`] for a column that was found.
    #[verifier::spinoff_prover]
    #[verifier::rlimit(80)]
    fn sweep<T: BankColumnType, F: FnMut(&[T])>(
        &self,
        schema: &Schema,
        handle: ColumnHandle<T>,
        visit: F,
    ) -> (r: Result<()>)
        requires
            fits::<T>(schema@, handle@),
            takes_runs::<T, F>(self@, visit, schema@, handle@),
        ensures
            self@.intact() || r is Ok ==> ({
                let ts = self@.records(self@.files.len());
                match r {
                    Ok(_) => self@.all_swept(ts, schema@, handle@, ts.len()),
                    Err(e) => exists|k: int| #[trigger]
                        self@.sweep_fails_at(ts, schema@, handle@, k, e),
                }
            }),
            r is Ok ==> all_visited::<T, F>(
                self@,
                visit,
                self@.records(self@.files.len()),
                schema@,
                handle@,
                self@.records(self@.files.len()).len(),
            ),
    {
        let ghost first = visit;
        let mut visit = visit;
        let ghost s = schema@;
        let ghost col = handle@;
        let spans = self.record_spans();
        let ghost ts = self@.records(self@.files.len());
        proof {
            self.lemma_records_inside(self@.files.len());
        }
        let mut k: usize = 0;
        assert(self@.all_swept(ts, s, col, 0)) by {
            reveal(ChainView::all_swept);
        }
        while k < spans.len()
            invariant
                k <= spans.len(),
                s == schema@,
                col == handle@,
                fits::<T>(s, col),
                ts == self@.records(self@.files.len()),
                spans@ == span_list(self@, ts),
                forall|i: int|
                    0 <= i < ts.len() ==> 0 <= (#[trigger] ts[i]).0 < self@.files.len() && 0
                        <= ts[i].1 < self@.files[ts[i].0].info.spans.len(),
                takes_runs::<T, F>(self@, first, s, col),
                visit == first,
                all_visited::<T, F>(self@, first, ts, s, col, k as nat),
                self@.all_swept(ts, s, col, k as nat),
            decreases spans.len() - k,
        {
            let (f, rec) = (spans[k].file_index, spans[k].record_index);
            assert(spans@[k as int] == self@.record_span(ts[k as int]));
            let _ = self.file_count();
            assert(f == ts[k as int].0);
            let _ = self.file(f).index().records().len();
            assert(rec == ts[k as int].1);
            let runs = self.record_column(f, rec, schema, handle);
            proof {
                lemma_swept_or_not(self@, ts, s, col, k as int, runs);
            }
            let runs = match runs {
                Ok(runs) => runs,
                Err(e) => {
                    return Err(e);
                },
            };
            proof {
                lemma_are_runs(self@, ts[k as int], s, col, runs);
            }
            let mut i: usize = 0;
            while i < runs.len()
                invariant
                    i <= runs.len(),
                    visit == first,
                    forall|j: int| 0 <= j < i ==> visited(first, (#[trigger] runs@[j])@),
                    takes_runs::<T, F>(self@, first, s, col),
                    all_runs(self@, ts[k as int], s, col, runs@),
                decreases runs.len() - i,
            {
                let run = runs[i].as_slice();
                assert(self@.is_run::<T>(
                    ts[k as int].0,
                    ts[k as int].1,
                    s,
                    col,
                    i as int,
                    runs@[i as int]@,
                ));
                assert(run@ == runs@[i as int]@);
                visit(run);
                assert(visited(first, runs@[i as int]@));
                i = i + 1;
            }
            assert(record_visited::<T, F>(self@, first, ts[k as int], s, col));
            k = k + 1;
        }
        assert(spans.len() == ts.len());
        Ok(())
    }
}

} // verus!
