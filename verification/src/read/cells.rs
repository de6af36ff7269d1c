//! The cells that a record holds of one bank: rows of every event, and bytes of every column.

use vstd::prelude::*;
use vstd::slice::slice_subrange;
#[allow(unused_imports)]
use crate::compress::decompress_error;
use crate::error::{HipoError, Result};
use crate::event::bank::{may_hold, Bank};
#[allow(unused_imports)]
use crate::event::bank::{bank_fits, law_bank_is_whole, lemma_col_in_data, BankState};
use crate::event::event::Event;
#[allow(unused_imports)]
use crate::event::event::{event_structures, found};
#[allow(unused_imports)]
use crate::event::view::EventView;
use crate::read::plan::BankPlan;
#[allow(unused_imports)]
use crate::read::plan::plan_wf;
use crate::read::stored::{Chunk, StoredRecord};
#[allow(unused_imports)]
use crate::read::stored::StoredView;
use crate::schema::types::Schema;
#[allow(unused_imports)]
use crate::schema::types::SchemaView;
use crate::wire::by_bank::ByBankRecord;
use crate::wire::bytes::push_bytes;
use crate::wire::per_column::PerColumnRecord;
#[allow(unused_imports)]
use crate::wire::per_column::PerColumnView;
#[allow(unused_imports)]
use crate::wire::split::corrupt;
#[allow(unused_imports)]
use crate::wire::tables::{prefix_sum, total};

verus! {

/// What one event holds of a bank.
pub enum CellsView {
    /// The event does not have the bank.
    Absent,
    /// Rows that lie together.
    Bank(BankState),
    /// Rows of a bank whose columns are streams of their own: the record, the event, the bank.
    Columns(PerColumnView, int, int),
    /// The data is there, but cannot be read as rows.
    Fault,
}

/// Data as rows of a bank.
pub open spec fn cells_in(s: SchemaView, data: Seq<u8>) -> CellsView {
    if bank_fits(s, data.len()) {
        match BankState::of(s, data) {
            Some(b) => CellsView::Bank(b),
            None => CellsView::Fault,
        }
    } else {
        CellsView::Fault
    }
}

/// What an event holds of the bank that `s` describes. A bank whose extent goes past its stream
/// counts as one that is not there.
pub open spec fn cells_of(ev: EventView, s: SchemaView) -> CellsView {
    match ev {
        EventView::Bytes(x) => match found(event_structures(x), s.group, s.item) {
            Some(st) => cells_in(s, st.data),
            None => CellsView::Absent,
        },
        EventView::ByBank(v, e) => match v.bank_at(s.group, s.item) {
            Some(b) => if v.has(e, b) {
                match v.stream(b) {
                    Some(x) => if v.offsets[b][e + 1] <= x.len() {
                        cells_in(
                            s,
                            x.subrange(v.offsets[b][e] as int, v.offsets[b][e + 1] as int),
                        )
                    } else {
                        CellsView::Absent
                    },
                    None => CellsView::Fault,
                }
            } else {
                CellsView::Absent
            },
            None => CellsView::Absent,
        },
        EventView::PerColumn(v, e) => match v.bank_at(s.group, s.item) {
            Some(b) => if v.size(e, b as int) == 0 || s.row_size == 0 {
                CellsView::Absent
            } else if v.cols[b as int] == 0 {
                match v.opaque_data(e, b as int) {
                    Some(d) => cells_in(s, d),
                    None => CellsView::Fault,
                }
            } else {
                CellsView::Columns(v, e, b as int)
            },
            None => CellsView::Absent,
        },
    }
}

impl CellsView {
    /// How many rows there are.
    pub open spec fn rows(self, s: SchemaView) -> nat {
        match self {
            CellsView::Bank(b) => b.rows,
            CellsView::Columns(v, e, b) => v.rows_in(e, b, s.row_size as nat),
            _ => 0,
        }
    }

    /// The bytes of column `c`; nothing where they cannot be read.
    pub open spec fn column(self, s: SchemaView, c: int) -> Option<Seq<u8>> {
        match self {
            CellsView::Absent => Some(Seq::empty()),
            CellsView::Bank(b) => Some(b.col_data(c)),
            CellsView::Columns(v, e, b) => if v.rows_in(e, b, s.row_size as nat) == 0 {
                Some(Seq::empty())
            } else {
                v.column_data(e, b, c, s)
            },
            CellsView::Fault => None,
        }
    }

    /// The rows and the columns `cols` can be read.
    pub open spec fn readable(self, s: SchemaView, cols: Seq<usize>) -> bool {
        &&& self !is Fault
        &&& forall|k: int| 0 <= k < cols.len() ==> self.column(s, (#[trigger] cols[k]) as int) is Some
    }
}

/// `e` is the error that reading the bank from the event ends with.
pub open spec fn cells_fault(ev: EventView, s: SchemaView, e: HipoError) -> bool {
    let ragged = corrupt("bank data size is not a multiple of row size");
    match ev {
        EventView::Bytes(_) => e == ragged,
        EventView::ByBank(v, _) => match v.bank_at(s.group, s.item) {
            Some(b) => match v.stream(b) {
                Some(_) => e == ragged,
                None => decompress_error(
                    v.header.compression.spec_codec(),
                    v.packed[b],
                    v.sizes[b] as nat,
                    e,
                ),
            },
            None => false,
        },
        EventView::PerColumn(v, i) => match v.bank_at(s.group, s.item) {
            Some(b) => if v.cols[b as int] == 0 && v.opaque_data(i, b as int) is Some {
                e == ragged
            } else {
                e == corrupt(
                    "record's row counts and column payloads disagree; the assembled columns cannot be sliced per event",
                )
            },
            None => false,
        },
    }
}

/// Rows of a bank in each event.
pub open spec fn row_counts(cells: Seq<CellsView>, s: SchemaView) -> Seq<u32> {
    cells.map_values(|c: CellsView| c.rows(s) as u32)
}

/// The bytes of a column in the first `n` events, one after the other.
pub open spec fn column_bytes(cells: Seq<CellsView>, s: SchemaView, c: int, n: nat) -> Seq<u8>
    decreases n,
{
    if n == 0 {
        Seq::empty()
    } else {
        column_bytes(cells, s, c, (n - 1) as nat) + cells[n - 1].column(s, c)->0
    }
}

/// Only the first events count.
pub proof fn lemma_first_events(
    a: Seq<CellsView>,
    b: Seq<CellsView>,
    s: SchemaView,
    c: int,
    n: nat,
)
    requires
        n <= a.len(),
        n <= b.len(),
        forall|i: int| 0 <= i < n ==> a[i] == b[i],
    ensures
        column_bytes(a, s, c, n) == column_bytes(b, s, c, n),
    decreases n,
{
    if n > 0 {
        lemma_first_events(a, b, s, c, (n - 1) as nat);
    }
}

/// The events of two runs, one run after the other.
pub proof fn lemma_joined_events(
    a: Seq<CellsView>,
    b: Seq<CellsView>,
    s: SchemaView,
    c: int,
    n: nat,
)
    requires
        n <= b.len(),
    ensures
        column_bytes(a + b, s, c, a.len() + n) == column_bytes(a, s, c, a.len()) + column_bytes(
            b,
            s,
            c,
            n,
        ),
    decreases n,
{
    if n == 0 {
        lemma_first_events(a + b, a, s, c, a.len());
        assert(column_bytes(a, s, c, a.len()) + column_bytes(b, s, c, 0) =~= column_bytes(
            a,
            s,
            c,
            a.len(),
        ));
    } else {
        let m = (n - 1) as nat;
        lemma_joined_events(a, b, s, c, m);
        assert((a + b)[a.len() + n - 1] == b[n - 1]);
        let last = b[n - 1].column(s, c)->0;
        assert(column_bytes(a, s, c, a.len()) + column_bytes(b, s, c, m) + last =~= column_bytes(
            a,
            s,
            c,
            a.len(),
        ) + (column_bytes(b, s, c, m) + last));
    }
}

/// What is known of the cells of every event: rows fit 32 bits, and a column that can be read
/// has as many bytes as its rows take up.
pub proof fn lemma_cells(ev: EventView, s: SchemaView, c: int)
    requires
        s.laid_out(),
        ev.wf(),
        0 <= c < s.entries.len(),
    ensures
        cells_of(ev, s).rows(s) <= u32::MAX,
        cells_of(ev, s).column(s, c) is Some ==> cells_of(ev, s).column(s, c)->0.len() == cells_of(
            ev,
            s,
        ).rows(s) * s.entries[c].width(),
{
    let w = s.entries[c].width();
    match cells_of(ev, s) {
        CellsView::Bank(b) => {
            assert(b.schema == s && bank_fits(s, b.data.len()) && BankState::of(s, b.data) == Some(b));
            law_bank_is_whole(s, b.data);
            lemma_col_in_data(b, c);
            assert(b.rows * w >= 0) by (nonlinear_arith);
        },
        CellsView::Columns(v, e, b) => {
            v.lemma_bisected(s.group * 256 + s.item, 0, v.banks());
            assert(crate::wire::per_column::offsets_grow(v.offsets[b], v.events()));
            let r = s.row_size as int;
            let size = v.size(e, b);
            assert(0 <= size / r <= size) by (nonlinear_arith)
                requires
                    r > 0,
                    size >= 0,
            ;
            let from = v.rows_before(e, b, s.row_size as nat) as int;
            let rows = v.rows_in(e, b, s.row_size as nat) as int;
            assert((from + rows) * w - from * w == rows * w && from * w >= 0 && rows * w >= 0)
                by (nonlinear_arith)
                requires
                    from >= 0,
                    rows >= 0,
                    w >= 0,
            ;
            assert(0 * w == 0) by (nonlinear_arith);
        },
        _ => {
            assert(0 * w == 0) by (nonlinear_arith);
        },
    }
}

/// One bank's share of a record: rows of each event, and bytes of each column.
#[derive(Debug)]
pub struct BankChunk {
    pub row_counts: Vec<u32>,
    pub columns: Vec<Vec<u8>>,
}

impl BankChunk {
    /// The chunk holds the rows and the columns `cols` of the given events.
    pub open spec fn holds(self, cells: Seq<CellsView>, s: SchemaView, cols: Seq<usize>) -> bool {
        &&& self.row_counts@ == row_counts(cells, s)
        &&& self.columns.len() == cols.len()
        &&& forall|k: int|
            0 <= k < cols.len() ==> (#[trigger] self.columns@[k])@ == column_bytes(
                cells,
                s,
                cols[k] as int,
                cells.len(),
            )
    }
}

impl BankChunk {
    /// Every column has as many bytes as the rows take up.
    pub open spec fn aligned(self, s: SchemaView, cols: Seq<usize>) -> bool {
        &&& self.columns.len() == cols.len()
        &&& forall|k: int|
            0 <= k < cols.len() ==> (#[trigger] self.columns@[k]).len() == total(self.row_counts@)
                * s.entries[cols[k] as int].width()
    }
}

/// Columns of events that can be read have as many bytes as the rows take up.
pub proof fn law_columns_align(evs: Seq<EventView>, s: SchemaView, c: int, n: nat)
    requires
        s.laid_out(),
        0 <= c < s.entries.len(),
        n <= evs.len(),
        forall|i: int| 0 <= i < evs.len() ==> (#[trigger] evs[i]).wf(),
        forall|i: int| 0 <= i < evs.len() ==> cells_of(#[trigger] evs[i], s).column(s, c) is Some,
    ensures
        column_bytes(all_cells(evs, s), s, c, n).len() == prefix_sum(
            row_counts(all_cells(evs, s), s),
            n,
        ) * s.entries[c].width(),
    decreases n,
{
    let w = s.entries[c].width();
    if n == 0 {
        assert(0 * w == 0) by (nonlinear_arith);
    } else {
        law_columns_align(evs, s, c, (n - 1) as nat);
        lemma_cells(evs[n - 1], s, c);
        let a = prefix_sum(row_counts(all_cells(evs, s), s), (n - 1) as nat);
        let b = cells_of(evs[n - 1], s).rows(s);
        assert((a + b) * w == a * w + b * w) by (nonlinear_arith);
    }
}

/// What events hold of the bank that `s` describes.
pub open spec fn all_cells(evs: Seq<EventView>, s: SchemaView) -> Seq<CellsView> {
    evs.map_values(|ev: EventView| cells_of(ev, s))
}

/// Those events of a record.
pub open spec fn events_of(v: StoredView, events: Seq<u32>) -> Seq<EventView> {
    events.map_values(|e: u32| v.event(e as int))
}

/// The bank can be read from every event.
pub open spec fn all_readable(evs: Seq<EventView>, s: SchemaView, cols: Seq<usize>) -> bool {
    forall|i: int| 0 <= i < evs.len() ==> cells_of(#[trigger] evs[i], s).readable(s, cols)
}

/// The bank cannot be read from event `i`, and `e` is the error.
pub open spec fn unreadable_at(
    evs: Seq<EventView>,
    s: SchemaView,
    cols: Seq<usize>,
    i: int,
    e: HipoError,
) -> bool {
    &&& 0 <= i < evs.len()
    &&& !cells_of(evs[i], s).readable(s, cols)
    &&& cells_fault(evs[i], s, e)
}

/// What a bank that may be missing holds.
pub open spec fn bank_cells(b: Option<Bank<'_>>) -> CellsView {
    match b {
        Some(b) => CellsView::Bank(b@),
        None => CellsView::Absent,
    }
}

/// The chunk of banks that lie together.
fn chunk_of_banks(banks: &Vec<Option<Bank<'_>>>, plan: &BankPlan<'_>) -> (r: BankChunk)
    requires
        plan_wf(*plan),
        forall|i: int|
            0 <= i < banks.len() ==> ((#[trigger] banks@[i]) matches Some(b) ==> b@.schema
                == plan.schema@),
    ensures
        r.holds(banks@.map_values(|b: Option<Bank<'_>>| bank_cells(b)), plan.schema@, plan.cols@),
{
    let ghost s = plan.schema@;
    let ghost cells = banks@.map_values(|b: Option<Bank<'_>>| bank_cells(b));
    let mut counts: Vec<u32> = Vec::new();
    let mut i: usize = 0;
    while i < banks.len()
        invariant
            i <= banks.len(),
            cells == banks@.map_values(|b: Option<Bank<'_>>| bank_cells(b)),
            counts.len() == i,
            forall|j: int| 0 <= j < i ==> counts@[j] == row_counts(cells, s)[j],
        decreases banks.len() - i,
    {
        assert(cells[i as int] == bank_cells(banks@[i as int]));
        match &banks[i] {
            Some(b) => {
                counts.push(b.rows());
            },
            None => {
                counts.push(0);
            },
        }
        i = i + 1;
    }
    assert(counts@ =~= row_counts(cells, s));
    let mut columns: Vec<Vec<u8>> = Vec::new();
    let mut k: usize = 0;
    while k < plan.cols.len()
        invariant
            k <= plan.cols.len(),
            columns.len() == k,
            plan_wf(*plan),
            s == plan.schema@,
            cells == banks@.map_values(|b: Option<Bank<'_>>| bank_cells(b)),
            forall|i: int|
                0 <= i < banks.len() ==> ((#[trigger] banks@[i]) matches Some(b) ==> b@.schema
                    == plan.schema@),
            forall|j: int|
                0 <= j < k ==> (#[trigger] columns@[j])@ == column_bytes(
                    cells,
                    s,
                    plan.cols@[j] as int,
                    cells.len(),
                ),
        decreases plan.cols.len() - k,
    {
        let c: usize = plan.cols[k];
        let mut bytes: Vec<u8> = Vec::new();
        let mut i: usize = 0;
        assert(bytes@ =~= column_bytes(cells, s, c as int, 0));
        while i < banks.len()
            invariant
                i <= banks.len(),
                s == plan.schema@,
                c < s.entries.len(),
                cells == banks@.map_values(|b: Option<Bank<'_>>| bank_cells(b)),
                forall|i: int|
                    0 <= i < banks.len() ==> ((#[trigger] banks@[i]) matches Some(b) ==> b@.schema
                        == plan.schema@),
                bytes@ == column_bytes(cells, s, c as int, i as nat),
            decreases banks.len() - i,
        {
            assert(cells[i as int] == bank_cells(banks@[i as int]));
            let ghost before = bytes@;
            match &banks[i] {
                Some(b) => {
                    push_bytes(&mut bytes, b.col_bytes(c));
                },
                None => {
                    assert(before + Seq::<u8>::empty() =~= before);
                },
            }
            i = i + 1;
        }
        columns.push(bytes);
        k = k + 1;
    }
    BankChunk { row_counts: counts, columns }
}

/// The bank's share of the events `events` of a single-block record.
fn chunk_rows(rec: &Chunk, events: &[u32], plan: &BankPlan<'_>) -> (r: Result<BankChunk>)
    requires
        plan_wf(*plan),
        forall|i: int| 0 <= i < events.len() ==> (#[trigger] events@[i]) < rec@.header.event_count,
    ensures
        chunk_read(StoredView::Chunk(rec@), events@, *plan, r),
{
    let ghost evs = events_of(StoredView::Chunk(rec@), events@);
    let ghost s = plan.schema@;
    let schema = plan.schema;
    let (group, item) = (schema.group(), schema.item());
    let mut banks: Vec<Option<Bank<'_>>> = Vec::new();
    let mut i: usize = 0;
    while i < events.len()
        invariant
            i <= events.len(),
            banks.len() == i,
            s == plan.schema@,
            schema@ == s,
            group == s.group && item == s.item,
            evs == events_of(StoredView::Chunk(rec@), events@),
            forall|i: int|
                0 <= i < events.len() ==> (#[trigger] events@[i]) < rec@.header.event_count,
            forall|j: int|
                0 <= j < i ==> bank_cells(#[trigger] banks@[j]) == cells_of(evs[j], s) && (
                banks@[j] matches Some(b) ==> b@.schema == s),
        decreases events.len() - i,
    {
        let event = Event::new(rec.event(events[i]));
        assert(evs[i as int] == EventView::Bytes(event@));
        match event.find(group, item) {
            Some((_, data)) => match Bank::new(schema, data) {
                Ok(b) => {
                    banks.push(Some(b));
                },
                Err(e) => {
                    assert(unreadable_at(evs, s, plan.cols@, i as int, e));
                    return Err(e);
                },
            },
            None => {
                banks.push(None);
            },
        }
        i = i + 1;
    }
    let r = chunk_of_banks(&banks, plan);
    proof {
        lemma_bank_chunk(evs, s, plan.cols@, banks@);
    }
    Ok(r)
}

/// What a chunk that was read from a record says.
pub open spec fn chunk_read(
    v: StoredView,
    events: Seq<u32>,
    plan: BankPlan<'_>,
    r: Result<BankChunk>,
) -> bool {
    let evs = events_of(v, events);
    let s = plan.schema@;
    match r {
        Ok(b) => all_readable(evs, s, plan.cols@) && b.holds(all_cells(evs, s), s, plan.cols@),
        Err(e) => exists|i: int| #[trigger] unreadable_at(evs, s, plan.cols@, i, e),
    }
}

/// Banks that were read one by one are what the events hold.
proof fn lemma_bank_chunk(
    evs: Seq<EventView>,
    s: SchemaView,
    cols: Seq<usize>,
    banks: Seq<Option<Bank<'_>>>,
)
    requires
        banks.len() == evs.len(),
        forall|j: int|
            0 <= j < evs.len() ==> bank_cells(#[trigger] banks[j]) == cells_of(evs[j], s),
    ensures
        banks.map_values(|b: Option<Bank<'_>>| bank_cells(b)) == all_cells(evs, s),
        all_readable(evs, s, cols),
{
    assert(banks.map_values(|b: Option<Bank<'_>>| bank_cells(b)) =~= all_cells(evs, s));
    assert forall|i: int| 0 <= i < evs.len() implies cells_of(#[trigger] evs[i], s).readable(
        s,
        cols,
    ) by {
        assert(bank_cells(banks[i]) == cells_of(evs[i], s));
    }
}

/// The bank's share of the events `events` of a per-bank record. The stream is decompressed at
/// most once, and only where an event has the bank.
fn by_bank_rows(rec: &ByBankRecord, events: &[u32], plan: &BankPlan<'_>) -> (r: Result<BankChunk>)
    requires
        plan_wf(*plan),
        forall|i: int| 0 <= i < events.len() ==> (#[trigger] events@[i]) < rec@.events(),
    ensures
        chunk_read(StoredView::ByBank(rec@), events@, *plan, r),
{
    let ghost evs = events_of(StoredView::ByBank(rec@), events@);
    let ghost s = plan.schema@;
    let schema = plan.schema;
    let at = rec.bank_index(schema.group(), schema.item());
    let mut stream: Option<Vec<u8>> = None;
    if let Some(b) = at {
        let mut i: usize = 0;
        while i < events.len()
            invariant_except_break
                i <= events.len(),
                stream is None,
                b < rec@.banks(),
                s == plan.schema@,
                rec@.bank_at(s.group, s.item) == Some(b as int),
                evs == events_of(StoredView::ByBank(rec@), events@),
                forall|i: int| 0 <= i < events.len() ==> (#[trigger] events@[i]) < rec@.events(),
                forall|j: int| 0 <= j < i ==> !rec@.has((#[trigger] events@[j]) as int, b as int),
            ensures
                match stream {
                    Some(x) => rec@.stream(b as int) == Some(x@),
                    None => forall|j: int|
                        0 <= j < events.len() ==> !rec@.has(
                            (#[trigger] events@[j]) as int,
                            b as int,
                        ),
                },
            decreases events.len() - i,
        {
            if rec.has(events[i], b) {
                match rec.inflate_bank(b) {
                    Ok(x) => {
                        stream = Some(x);
                        break ;
                    },
                    Err(e) => {
                        assert(evs[i as int] == EventView::ByBank(rec@, events@[i as int] as int));
                        assert(unreadable_at(evs, s, plan.cols@, i as int, e));
                        return Err(e);
                    },
                }
            }
            i = i + 1;
        }
    }
    let mut banks: Vec<Option<Bank<'_>>> = Vec::new();
    let mut i: usize = 0;
    while i < events.len()
        invariant
            i <= events.len(),
            banks.len() == i,
            s == plan.schema@,
            schema@ == s,
            evs == events_of(StoredView::ByBank(rec@), events@),
            forall|i: int| 0 <= i < events.len() ==> (#[trigger] events@[i]) < rec@.events(),
            match at {
                Some(b) => b < rec@.banks() && rec@.bank_at(s.group, s.item) == Some(b as int)
                    && match stream {
                    Some(x) => rec@.stream(b as int) == Some(x@),
                    None => forall|j: int|
                        0 <= j < events.len() ==> !rec@.has(
                            (#[trigger] events@[j]) as int,
                            b as int,
                        ),
                },
                None => rec@.bank_at(s.group, s.item) is None,
            },
            forall|j: int|
                0 <= j < i ==> bank_cells(#[trigger] banks@[j]) == cells_of(evs[j], s) && (
                banks@[j] matches Some(b) ==> b@.schema == s),
        decreases events.len() - i,
    {
        let e: u32 = events[i];
        assert(evs[i as int] == EventView::ByBank(rec@, e as int));
        let mut bank: Option<Bank<'_>> = None;
        if let Some(b) = at {
            if let Some(x) = &stream {
                if rec.has(e, b) {
                    let range = rec.bank_byte_range(e, b);
                    if range.end <= x.len() {
                        let data = slice_subrange(x.as_slice(), range.start, range.end);
                        if !may_hold(schema, data.len()) {
                            let e = HipoError::CorruptRecord {
                                offset: 0,
                                reason: "bank data size is not a multiple of row size",
                            };
                            assert(unreadable_at(evs, s, plan.cols@, i as int, e));
                            return Err(e);
                        }
                        match Bank::new(schema, data) {
                            Ok(b) => {
                                bank = Some(b);
                            },
                            Err(e) => {
                                assert(unreadable_at(evs, s, plan.cols@, i as int, e));
                                return Err(e);
                            },
                        }
                    }
                }
            }
        }
        banks.push(bank);
        i = i + 1;
    }
    let r = chunk_of_banks(&banks, plan);
    proof {
        lemma_bank_chunk(evs, s, plan.cols@, banks@);
    }
    Ok(r)
}

/// What stands for a column that does not go with the rows.
fn disagreement() -> (r: HipoError)
    ensures
        r == corrupt(
            "record's row counts and column payloads disagree; the assembled columns cannot be sliced per event",
        ),
{
    HipoError::CorruptRecord {
        offset: 0,
        reason: "record's row counts and column payloads disagree; the assembled columns cannot be sliced per event",
    }
}

/// The bank's share of the events `events` of a per-column record, for a bank that is one
/// stream.
fn opaque_rows(rec: &PerColumnRecord, b: u32, events: &[u32], plan: &BankPlan<'_>) -> (r: Result<
    BankChunk,
>)
    requires
        plan_wf(*plan),
        b < rec@.banks(),
        rec@.cols[b as int] == 0,
        plan.schema@.row_size > 0,
        rec@.bank_at(plan.schema@.group, plan.schema@.item) == Some(b as nat),
        forall|i: int| 0 <= i < events.len() ==> (#[trigger] events@[i]) < rec@.events(),
    ensures
        chunk_read(StoredView::PerColumn(rec@), events@, *plan, r),
{
    let ghost evs = events_of(StoredView::PerColumn(rec@), events@);
    let ghost s = plan.schema@;
    let schema = plan.schema;
    let mut stream: Option<Vec<u8>> = None;
    if let Ok(x) = rec.inflate_column(b, 0) {
        stream = Some(x);
    }
    let mut banks: Vec<Option<Bank<'_>>> = Vec::new();
    let mut i: usize = 0;
    while i < events.len()
        invariant
            i <= events.len(),
            banks.len() == i,
            s == plan.schema@,
            schema@ == s,
            s.row_size > 0,
            evs == events_of(StoredView::PerColumn(rec@), events@),
            b < rec@.banks(),
            rec@.cols[b as int] == 0,
            rec@.bank_at(s.group, s.item) == Some(b as nat),
            forall|i: int| 0 <= i < events.len() ==> (#[trigger] events@[i]) < rec@.events(),
            match stream {
                Some(x) => rec@.stream(b as int, 0) == Some(x@),
                None => rec@.stream(b as int, 0) is None,
            },
            forall|j: int|
                0 <= j < i ==> bank_cells(#[trigger] banks@[j]) == cells_of(evs[j], s) && (
                banks@[j] matches Some(b) ==> b@.schema == s),
        decreases events.len() - i,
    {
        let e: u32 = events[i];
        assert(evs[i as int] == EventView::PerColumn(rec@, e as int));
        let range = rec.bank_byte_range(e, b);
        let mut bank: Option<Bank<'_>> = None;
        if range.start < range.end {
            match &stream {
                Some(x) if range.end <= x.len() => {
                    let data = slice_subrange(x.as_slice(), range.start, range.end);
                    if !may_hold(schema, data.len()) {
                        let e = HipoError::CorruptRecord {
                            offset: 0,
                            reason: "bank data size is not a multiple of row size",
                        };
                        assert(unreadable_at(evs, s, plan.cols@, i as int, e));
                        return Err(e);
                    }
                    match Bank::new(schema, data) {
                        Ok(b) => {
                            bank = Some(b);
                        },
                        Err(e) => {
                            assert(unreadable_at(evs, s, plan.cols@, i as int, e));
                            return Err(e);
                        },
                    }
                },
                _ => {
                    let e = disagreement();
                    assert(unreadable_at(evs, s, plan.cols@, i as int, e));
                    return Err(e);
                },
            }
        }
        banks.push(bank);
        i = i + 1;
    }
    let r = chunk_of_banks(&banks, plan);
    proof {
        lemma_bank_chunk(evs, s, plan.cols@, banks@);
    }
    Ok(r)
}

/// The bytes of column `c` in events of a per-column record. The column's stream is
/// decompressed at most once, and only where an event has rows. `Err` names an event whose
/// cells the stream does not have.
fn column_run(rec: &PerColumnRecord, b: u32, c: usize, events: &[u32], schema: &Schema) -> (r:
    core::result::Result<Vec<u8>, usize>)
    requires
        b < rec@.banks(),
        rec@.cols[b as int] != 0,
        c < schema@.entries.len(),
        schema@.row_size > 0,
        rec@.bank_at(schema@.group, schema@.item) == Some(b as nat),
        forall|i: int| 0 <= i < events.len() ==> (#[trigger] events@[i]) < rec@.events(),
    ensures
        ({
            let cells = all_cells(events_of(StoredView::PerColumn(rec@), events@), schema@);
            match r {
                Ok(x) => x@ == column_bytes(cells, schema@, c as int, cells.len()) && forall|i: int|
                    0 <= i < cells.len() ==> (#[trigger] cells[i]).column(
                        schema@,
                        c as int,
                    ) is Some,
                Err(i) => i < cells.len() && cells[i as int].column(schema@, c as int) is None,
            }
        }),
{
    let ghost s = schema@;
    let ghost cells = all_cells(events_of(StoredView::PerColumn(rec@), events@), s);
    proof {
        use_type_invariant(schema);
    }
    let row_size: u32 = schema.row_size();
    let entry = &schema.entries()[c];
    let (size, length): (u128, u128) = (entry.ty.size() as u128, entry.length as u128);
    assert(size * length <= 8 * 0xffff_ffff && size * length >= 0) by (nonlinear_arith)
        requires
            0 <= size <= 8,
            0 <= length <= 0xffff_ffff,
    ;
    let w: u128 = size * length;
    let mut tried = false;
    let mut stream: Option<Vec<u8>> = None;
    let mut out: Vec<u8> = Vec::new();
    let mut i: usize = 0;
    assert(out@ =~= column_bytes(cells, s, c as int, 0));
    while i < events.len()
        invariant
            i <= events.len(),
            s == schema@,
            row_size == s.row_size,
            row_size > 0,
            w == s.entries[c as int].width(),
            w <= 8 * 0xffff_ffff,
            c < s.entries.len(),
            c <= 65535,
            b < rec@.banks(),
            rec@.cols[b as int] != 0,
            rec@.bank_at(s.group, s.item) == Some(b as nat),
            cells == all_cells(events_of(StoredView::PerColumn(rec@), events@), s),
            forall|i: int| 0 <= i < events.len() ==> (#[trigger] events@[i]) < rec@.events(),
            !tried ==> stream is None,
            tried ==> match stream {
                Some(x) => rec@.stream(b as int, c as int) == Some(x@),
                None => rec@.stream(b as int, c as int) is None,
            },
            out@ == column_bytes(cells, s, c as int, i as nat),
            forall|j: int| 0 <= j < i ==> (#[trigger] cells[j]).column(s, c as int) is Some,
        decreases events.len() - i,
    {
        let e: u32 = events[i];
        let ghost ev = EventView::PerColumn(rec@, e as int);
        assert(cells[i as int] == cells_of(ev, s));
        let range = rec.bank_byte_range(e, b);
        let from: u32 = range.start as u32 / row_size;
        let rows: u32 = (range.end - range.start) as u32 / row_size;
        let ghost before = out@;
        if rows > 0 {
            if !tried {
                tried = true;
                if let Ok(x) = rec.inflate_column(b, c as u16) {
                    stream = Some(x);
                }
            }
            let n: u128 = from as u128 + rows as u128;
            let f: u128 = from as u128;
            assert(n * w <= 0x1_ffff_fffe * (8 * 0xffff_ffff) && 0 <= f * w <= n * w)
                by (nonlinear_arith)
                requires
                    0 <= f <= n <= 0x1_ffff_fffe,
                    0 <= w <= 8 * 0xffff_ffff,
            ;
            let hi: u128 = n * w;
            let lo: u128 = f * w;
            assert(range.end - range.start != 0) by {
                if range.end == range.start {
                    assert(0int / row_size as int == 0) by (nonlinear_arith)
                        requires
                            row_size > 0,
                    ;
                }
            }
            match &stream {
                Some(x) if hi <= x.len() as u128 => {
                    push_bytes(
                        &mut out,
                        slice_subrange(x.as_slice(), lo as usize, hi as usize),
                    );
                },
                _ => {
                    return Err(i);
                },
            }
        } else {
            assert(cells[i as int].column(s, c as int) == Some(Seq::<u8>::empty()));
            assert(before + Seq::<u8>::empty() =~= before);
        }
        i = i + 1;
    }
    Ok(out)
}

/// The bank's share of the events `events` of a per-column record, for a bank whose columns are
/// streams of their own.
fn columnar_rows(rec: &PerColumnRecord, b: u32, events: &[u32], plan: &BankPlan<'_>) -> (r: Result<
    BankChunk,
>)
    requires
        plan_wf(*plan),
        b < rec@.banks(),
        rec@.cols[b as int] != 0,
        plan.schema@.row_size > 0,
        rec@.bank_at(plan.schema@.group, plan.schema@.item) == Some(b as nat),
        forall|i: int| 0 <= i < events.len() ==> (#[trigger] events@[i]) < rec@.events(),
    ensures
        chunk_read(StoredView::PerColumn(rec@), events@, *plan, r),
{
    let ghost evs = events_of(StoredView::PerColumn(rec@), events@);
    let ghost s = plan.schema@;
    let ghost cells = all_cells(evs, s);
    let row_size: u32 = plan.schema.row_size();
    let mut counts: Vec<u32> = Vec::new();
    let mut i: usize = 0;
    while i < events.len()
        invariant
            i <= events.len(),
            counts.len() == i,
            row_size == s.row_size,
            row_size > 0,
            b < rec@.banks(),
            rec@.cols[b as int] != 0,
            rec@.bank_at(s.group, s.item) == Some(b as nat),
            evs == events_of(StoredView::PerColumn(rec@), events@),
            cells == all_cells(evs, s),
            forall|i: int| 0 <= i < events.len() ==> (#[trigger] events@[i]) < rec@.events(),
            forall|j: int| 0 <= j < i ==> counts@[j] == row_counts(cells, s)[j],
        decreases events.len() - i,
    {
        let e: u32 = events[i];
        let range = rec.bank_byte_range(e, b);
        let rows: u32 = (range.end - range.start) as u32 / row_size;
        assert(evs[i as int] == EventView::PerColumn(rec@, e as int));
        assert(cells[i as int] == cells_of(evs[i as int], s));
        assert(range.end == range.start ==> rows == 0) by {
            assert(0int / row_size as int == 0) by (nonlinear_arith)
                requires
                    row_size > 0,
            ;
        }
        counts.push(rows);
        i = i + 1;
    }
    assert(counts@ =~= row_counts(cells, s));
    let mut columns: Vec<Vec<u8>> = Vec::new();
    let mut k: usize = 0;
    while k < plan.cols.len()
        invariant
            k <= plan.cols.len(),
            columns.len() == k,
            plan_wf(*plan),
            s == plan.schema@,
            s.row_size > 0,
            b < rec@.banks(),
            rec@.cols[b as int] != 0,
            rec@.bank_at(s.group, s.item) == Some(b as nat),
            evs == events_of(StoredView::PerColumn(rec@), events@),
            cells == all_cells(evs, s),
            forall|i: int| 0 <= i < events.len() ==> (#[trigger] events@[i]) < rec@.events(),
            forall|j: int|
                0 <= j < k ==> (#[trigger] columns@[j])@ == column_bytes(
                    cells,
                    s,
                    plan.cols@[j] as int,
                    cells.len(),
                ),
            forall|j: int, i: int|
                0 <= j < k && 0 <= i < cells.len() ==> (#[trigger] cells[i]).column(
                    s,
                    (#[trigger] plan.cols@[j]) as int,
                ) is Some,
        decreases plan.cols.len() - k,
    {
        match column_run(rec, b, plan.cols[k], events, plan.schema) {
            Ok(x) => {
                columns.push(x);
            },
            Err(i) => {
                let e = disagreement();
                proof {
                    assert(evs[i as int] == EventView::PerColumn(rec@, events@[i as int] as int));
                    assert(cells[i as int] == cells_of(evs[i as int], s));
                    assert(cells[i as int].column(s, plan.cols@[k as int] as int) is None);
                    assert(unreadable_at(evs, s, plan.cols@, i as int, e));
                }
                return Err(e);
            },
        }
        k = k + 1;
    }
    proof {
        assert forall|i: int| 0 <= i < evs.len() implies cells_of(#[trigger] evs[i], s).readable(
            s,
            plan.cols@,
        ) by {
            assert(cells[i] == cells_of(evs[i], s));
            assert(evs[i] == EventView::PerColumn(rec@, events@[i] as int));
        }
    }
    Ok(BankChunk { row_counts: counts, columns })
}

/// The bank's share of the events `events` of a per-column record.
fn per_column_rows(rec: &PerColumnRecord, events: &[u32], plan: &BankPlan<'_>) -> (r: Result<
    BankChunk,
>)
    requires
        plan_wf(*plan),
        forall|i: int| 0 <= i < events.len() ==> (#[trigger] events@[i]) < rec@.events(),
    ensures
        chunk_read(StoredView::PerColumn(rec@), events@, *plan, r),
{
    let schema = plan.schema;
    if schema.row_size() > 0 {
        if let Some(b) = rec.bank_index(schema.group(), schema.item()) {
            if rec.is_opaque(b) {
                return opaque_rows(rec, b, events, plan);
            }
            return columnar_rows(rec, b, events, plan);
        }
    }
    let ghost evs = events_of(StoredView::PerColumn(rec@), events@);
    let mut banks: Vec<Option<Bank<'_>>> = Vec::new();
    let mut i: usize = 0;
    while i < events.len()
        invariant
            i <= events.len(),
            banks.len() == i,
            forall|j: int| 0 <= j < i ==> (#[trigger] banks@[j]) is None,
        decreases events.len() - i,
    {
        banks.push(None);
        i = i + 1;
    }
    let r = chunk_of_banks(&banks, plan);
    proof {
        assert forall|j: int| 0 <= j < evs.len() implies bank_cells(#[trigger] banks@[j])
            == cells_of(evs[j], schema@) by {
            assert(evs[j] == EventView::PerColumn(rec@, events@[j] as int));
        }
        lemma_bank_chunk(evs, schema@, plan.cols@, banks@);
    }
    Ok(r)
}

/// The bank's share of the events `events` of a record.
pub fn bank_rows(rec: &StoredRecord, events: &[u32], plan: &BankPlan<'_>) -> (r: Result<BankChunk>)
    requires
        plan_wf(*plan),
        forall|i: int| 0 <= i < events.len() ==> (#[trigger] events@[i]) < rec@.events(),
    ensures
        chunk_read(rec@, events@, *plan, r),
        r matches Ok(b) ==> b.aligned(plan.schema@, plan.cols@),
{
    let n: u32 = rec.event_count();
    let r = match rec {
        StoredRecord::Chunk(c) => chunk_rows(c, events, plan),
        StoredRecord::ByBank(b) => by_bank_rows(b, events, plan),
        StoredRecord::PerColumn(p) => per_column_rows(p, events, plan),
    };
    proof {
        if r is Ok {
            use_type_invariant(plan.schema);
            let (s, cols) = (plan.schema@, plan.cols@);
            let evs = events_of(rec@, events@);
            let b = r->Ok_0;
            assert forall|k: int| 0 <= k < cols.len() implies (#[trigger] b.columns@[k]).len()
                == total(b.row_counts@) * s.entries[cols[k] as int].width() by {
                let c = cols[k] as int;
                assert forall|i: int| 0 <= i < evs.len() implies (#[trigger] evs[i]).wf()
                    && cells_of(evs[i], s).column(s, c) is Some by {
                    assert(evs[i] == rec@.event(events@[i] as int));
                    assert(cells_of(evs[i], s).readable(s, cols));
                }
                law_columns_align(evs, s, c, evs.len());
            }
        }
    }
    r
}

} // verus!
