//! Column reads: every value is a cell of the bank of its event.

use core::ops::Range;

use vstd::prelude::*;
use crate::error::HipoError;
#[allow(unused_imports)]
use crate::event::bank::{law_bank_is_whole, lemma_col_in_data, BankState};
#[allow(unused_imports)]
use crate::event::column_bank::{columnar_bank, law_columnar_bank};
#[allow(unused_imports)]
use crate::event::view::EventView;
#[allow(unused_imports)]
use crate::laws::banks::{element_start, last_named, type_bytes};
#[allow(unused_imports)]
use crate::laws::bytes::law_element_types;
#[allow(unused_imports)]
use crate::read::cells::{
    all_cells, all_readable, cells_of, column_bytes, law_columns_align, lemma_cells, row_counts,
    CellsView,
};
use crate::read::chain::Chain;
use crate::read::column_data::{ColumnBuffers, ColumnData, MaterializedColumn};
#[allow(unused_imports)]
use crate::read::columns::{bank_buffers, buffers_for, range_pair};
#[allow(unused_imports)]
use crate::read::merge::flat;
#[allow(unused_imports)]
use crate::read::plan::columns_resolved;
use crate::read::source::ReadAt;
#[allow(unused_imports)]
use crate::schema::dict::DictView;
#[allow(unused_imports)]
use crate::schema::handle::{BankScalarType, Float32, Float64};
#[allow(unused_imports)]
use crate::schema::types::{EntryView, SchemaView};
use crate::schema::types::DataType;
#[allow(unused_imports)]
use crate::wire::tables::{lemma_prefix_sum_monotone, prefix_sum};

verus! {

/// Value `at` is of the type that the column has, and is element `m` of cell `row` of the column
/// that `e` describes in the bank `b`, byte for byte.
pub open spec fn value_is(
    data: ColumnData,
    at: int,
    b: BankState,
    e: EntryView,
    row: int,
    m: int,
) -> bool {
    let from = element_start(b.rows, e, row, m);
    let bytes = b.data.subrange(from, from + type_bytes(e.ty));
    match (e.ty, data) {
        (DataType::Byte, ColumnData::I8(v)) => at < v@.len() && v@[at] == <i8 as BankScalarType>::decoded(bytes),
        (DataType::Short, ColumnData::I16(v)) => at < v@.len() && v@[at] == <i16 as BankScalarType>::decoded(bytes),
        (DataType::Int, ColumnData::I32(v)) => at < v@.len() && v@[at] == <i32 as BankScalarType>::decoded(bytes),
        (DataType::Long, ColumnData::I64(v)) => at < v@.len() && v@[at] == <i64 as BankScalarType>::decoded(bytes),
        (DataType::Float, ColumnData::F32(v)) => at < v@.len() && v@[at] == <Float32 as BankScalarType>::decoded(bytes),
        (DataType::Double, ColumnData::F64(v)) => at < v@.len() && v@[at] == <Float64 as BankScalarType>::decoded(bytes),
        _ => false,
    }
}

/// Column `k` of a read stands for column `c` of the bank's schema: the one with that number,
/// where all columns were asked for; the last one with the name, where names were given.
pub open spec fn stands_for_column(s: SchemaView, names: Seq<&str>, k: int, c: int) -> bool {
    if names.len() == 0 {
        c == k
    } else {
        last_named(s.entries, names[k]@, c)
    }
}

/// Event `ev` has no bytes of the bank that `s` describes.
pub open spec fn lacks(ev: EventView, s: SchemaView) -> bool {
    match ev {
        EventView::PerColumn(v, e) => match v.bank_at(s.group, s.item) {
            Some(b) => v.size(e, b as int) == 0,
            None => true,
        },
        _ => !ev.has(s.group, s.item),
    }
}

/// What the buffers of one bank are: one offset more than there are events, the rows of every
/// event between its offset and the next, and all the columns that were asked for, in that order,
/// each with the name, the type and the length of its schema entry.
pub open spec fn shaped(
    b: ColumnBuffers,
    s: SchemaView,
    bank: Seq<char>,
    names: Seq<&str>,
    evs: Seq<EventView>,
) -> bool {
    &&& b.bank@ == bank
    &&& b.offsets@.len() == evs.len() + 1
    &&& b.offsets@[0] == 0
    &&& b.columns@.len() == (if names.len() == 0 {
        s.entries.len()
    } else {
        names.len()
    })
    &&& forall|k: int| 0 <= k < b.columns@.len() ==> #[trigger] known_column(b, s, names, k)
}

/// Column `k` of a read has the name, the type and the length of the entry that it stands for.
pub open spec fn known_column(b: ColumnBuffers, s: SchemaView, names: Seq<&str>, k: int) -> bool {
    exists|c: int|
        stands_for_column(s, names, k, c) && #[trigger] described(b.columns@[k], s, c)
}

/// The column has the name, the type and the length of entry `c`.
pub open spec fn described(m: MaterializedColumn, s: SchemaView, c: int) -> bool {
    &&& 0 <= c < s.entries.len()
    &&& m.name@ == s.entries[c].name
    &&& m.data_type == s.entries[c].ty
    &&& m.inner_len == s.entries[c].length
}

/// Event `j` of a read that has the bank `bank`: its rows are the bank's, and the values of column
/// `k` for row `row` are those of the bank's cell.
pub open spec fn event_matches(
    b: ColumnBuffers,
    s: SchemaView,
    names: Seq<&str>,
    j: int,
    bank: BankState,
    k: int,
    c: int,
    row: int,
    m: int,
) -> bool {
    &&& b.offsets@[j + 1] - b.offsets@[j] == bank.rows
    &&& 0 <= k < b.columns@.len() && stands_for_column(s, names, k, c) && 0 <= row < bank.rows && 0
        <= m < s.entries[c].length ==> value_is(
        b.columns@[k].data,
        (b.offsets@[j] + row) * s.entries[c].length + m,
        bank,
        s.entries[c],
        row,
        m,
    )
}

/// The bytes of one event in those of a column.
pub(crate) proof fn lemma_segment(cells: Seq<CellsView>, s: SchemaView, c: int, j: int, n: nat)
    requires
        0 <= j < n <= cells.len(),
    ensures
        ({
            let from = column_bytes(cells, s, c, j as nat).len();
            let part = cells[j].column(s, c)->0;
            &&& from + part.len() <= column_bytes(cells, s, c, n).len()
            &&& column_bytes(cells, s, c, n).subrange(from as int, (from + part.len()) as int)
                == part
        }),
    decreases n,
{
    let m = (n - 1) as nat;
    let front = column_bytes(cells, s, c, m);
    let whole = column_bytes(cells, s, c, n);
    let part = cells[j].column(s, c)->0;
    if j < m {
        lemma_segment(cells, s, c, j, m);
        let from = column_bytes(cells, s, c, j as nat).len();
        assert(whole.subrange(from as int, (from + part.len()) as int) =~= front.subrange(
            from as int,
            (from + part.len()) as int,
        ));
    } else {
        assert(whole.subrange(front.len() as int, (front.len() + part.len()) as int) =~= part);
    }
}

/// The rows and a column of an event, where it can be read, are those of its bank.
pub(crate) proof fn lemma_cells_are_bank(ev: EventView, s: SchemaView, c: int, bank: BankState)
    requires
        ev.wf(),
        s.laid_out(),
        0 <= c < s.entries.len(),
        ev.bank(s) == Some(bank),
        cells_of(ev, s) !is Fault,
        cells_of(ev, s).column(s, c) is Some,
    ensures
        bank.schema == s,
        bank.whole(),
        cells_of(ev, s).rows(s) == bank.rows,
        bank.rows > 0 ==> cells_of(ev, s).column(s, c) == Some(bank.col_data(c)),
{
    let d = ev.bank_data(s)->0;
    law_bank_is_whole(s, d);
    match ev {
        EventView::PerColumn(v, e) => {
            let b = v.bank_at(s.group, s.item)->0 as int;
            v.lemma_bisected(s.group * 256 + s.item, 0, v.banks());
            assert(crate::wire::per_column::offsets_grow(v.offsets[b], v.events()));
            if v.cols[b] != 0 && s.row_size > 0 {
                law_columnar_bank(v, e, b, s);
                assert(bank == columnar_bank(v, e, b, s));
                if v.size(e, b) == 0 {
                    assert(0int / (s.row_size as int) == 0) by (nonlinear_arith)
                        requires
                            s.row_size > 0,
                    ;
                }
            } else if s.row_size > 0 && v.size(e, b) == 0 {
                assert(d.len() == 0);
            }
        },
        EventView::ByBank(v, e) => {},
        EventView::Bytes(x) => {},
    }
}

/// A value of a column is the element of the cell that it stands for.
proof fn lemma_value(
    col: MaterializedColumn,
    s: SchemaView,
    c: int,
    bytes: Seq<u8>,
    from: int,
    bank: BankState,
    row: int,
    m: int,
)
    requires
        col.holds(s.entries[c], bytes),
        0 <= c < s.entries.len(),
        bank.schema == s,
        bank.whole(),
        0 <= row < bank.rows,
        0 <= m < s.entries[c].length,
        0 <= from,
        from * s.entries[c].width() + bank.col_data(c).len() <= bytes.len(),
        bytes.subrange(
            from * s.entries[c].width(),
            from * s.entries[c].width() + bank.col_data(c).len(),
        ) == bank.col_data(c),
    ensures
        value_is(
            col.data,
            (from + row) * s.entries[c].length + m,
            bank,
            s.entries[c],
            row,
            m,
        ),
{
    let e = s.entries[c];
    let (w, z, l) = (e.width(), e.ty.spec_size(), e.length as int);
    law_element_types();
    lemma_col_in_data(bank, c);
    let at = (from + row) * l + m;
    let n = bytes.len() as int / z as int;
    let cd = bank.col_data(c);
    let start = bank.col_start(c);
    assert(start <= start + #[trigger] (row * w) && row * w + w <= bank.rows * w);
    assert(cd.len() == bank.rows * w);
    assert(at * z == from * w + row * w + m * z && 0 <= m * z && m * z + z <= w && at >= 0)
        by (nonlinear_arith)
        requires
            at == (from + row) * l + m,
            w == z * l,
            0 <= m < l,
            z > 0,
            from >= 0,
            row >= 0,
    ;
    let k = row * w + m * z;
    let f = from * w;
    assert(f >= 0) by (nonlinear_arith)
        requires
            f == from * w,
            from >= 0,
            w >= 0,
    ;
    assert(at * z + z <= bytes.len());
    assert(at < n) by (nonlinear_arith)
        requires
            at * z + z <= bytes.len(),
            z > 0,
            n == bytes.len() as int / z as int,
    ;
    assert(element_start(bank.rows, e, row, m) == start + k);
    assert(bytes.subrange(f, f + cd.len()).subrange(k, k + z) =~= bytes.subrange(
        f + k,
        f + k + z,
    ));
    assert(cd.subrange(k, k + z) =~= bank.data.subrange(start + k, start + k + z));
    assert(bytes.subrange(at * z, at * z + z) == bank.data.subrange(start + k, start + k + z));
}

/// The buffers of a bank have the columns that were asked for.
proof fn lemma_shaped(
    b: ColumnBuffers,
    d: DictView,
    bank: &str,
    names: Seq<&str>,
    evs: Seq<EventView>,
)
    requires
        bank_buffers(b, d, bank, names, evs),
    ensures
        shaped(b, d.named(bank@)->0, bank@, names, evs),
{
    let s = d.named(bank@)->0;
    let cols = choose|cols: Seq<usize>| #[trigger]
        columns_resolved(s, names, cols) && all_readable(evs, s, cols) && b.holds(s, cols, evs);
    assert forall|k: int| 0 <= k < b.columns@.len() implies #[trigger] known_column(
        b,
        s,
        names,
        k,
    ) by {
        let c = cols[k] as int;
        assert(b.columns@[k].holds(
            s.entries[c],
            column_bytes(all_cells(evs, s), s, c, evs.len()),
        ));
        if names.len() > 0 {
            assert(s.is_column(names[k]@, c));
        }
        assert(stands_for_column(s, names, k, c) && described(b.columns@[k], s, c));
    }
}

/// Where the rows of an event start and end.
proof fn lemma_offsets(b: ColumnBuffers, s: SchemaView, cols: Seq<usize>, evs: Seq<EventView>, j: int)
    requires
        b.holds(s, cols, evs),
        0 <= j < evs.len(),
        evs[j].wf(),
        s.laid_out(),
        s.entries.len() > 0,
    ensures
        b.offsets@[j] == prefix_sum(row_counts(all_cells(evs, s), s), j as nat),
        b.offsets@[j + 1] - b.offsets@[j] == cells_of(evs[j], s).rows(s),
{
    let counts = row_counts(all_cells(evs, s), s);
    lemma_prefix_sum_monotone(counts, j as nat, counts.len());
    lemma_prefix_sum_monotone(counts, (j + 1) as nat, counts.len());
    lemma_cells(evs[j], s, 0);
}

/// What the buffers of a bank hold of one event is what the event's bank holds.
proof fn lemma_event_matches(
    b: ColumnBuffers,
    d: DictView,
    bank: &str,
    names: Seq<&str>,
    evs: Seq<EventView>,
    j: int,
    state: BankState,
    k: int,
    c: int,
    row: int,
    m: int,
)
    requires
        bank_buffers(b, d, bank, names, evs),
        d.named(bank@)->0.laid_out(),
        d.named(bank@)->0.entries.len() > 0,
        forall|i: int| 0 <= i < evs.len() ==> (#[trigger] evs[i]).wf(),
        0 <= j < evs.len(),
        evs[j].bank(d.named(bank@)->0) == Some(state),
        0 <= k < b.columns@.len(),
    ensures
        event_matches(b, d.named(bank@)->0, names, j, state, k, c, row, m),
{
    let s = d.named(bank@)->0;
    let cols = choose|cols: Seq<usize>| #[trigger]
        columns_resolved(s, names, cols) && all_readable(evs, s, cols) && b.holds(s, cols, evs);
    lemma_offsets(b, s, cols, evs, j);
    let x = cols[k] as int;
    let cells = all_cells(evs, s);
    assert(cells_of(evs[j], s).readable(s, cols));
    assert(b.columns@[k].holds(s.entries[x], column_bytes(cells, s, x, evs.len())));
    if names.len() > 0 {
        assert(s.is_column(names[k]@, x));
    }
    lemma_cells_are_bank(evs[j], s, x, state);
    if stands_for_column(s, names, k, c) && 0 <= row < state.rows && 0 <= m < s.entries[c].length {
        assert(c == x) by {
            if names.len() > 0 {
                if c < x {
                    assert(s.entries[x].name != names[k]@);
                } else if x < c {
                    assert(s.entries[c].name != names[k]@);
                }
            }
        }
        assert forall|i: int| 0 <= i < evs.len() implies cells_of(#[trigger] evs[i], s).column(s, x)
            is Some by {
            assert(cells_of(evs[i], s).readable(s, cols));
            assert(cells_of(evs[i], s).column(s, cols[k] as int) is Some);
        }
        law_columns_align(evs, s, x, j as nat);
        lemma_segment(cells, s, x, j, evs.len());
        lemma_value(
            b.columns@[k],
            s,
            x,
            column_bytes(cells, s, x, evs.len()),
            b.offsets@[j] as int,
            state,
            row,
            m,
        );
    }
}

/// What a read of columns that succeeds returns for part `i` of its selection. No names ask for
/// all columns of the bank: column `k` is then entry `k` of its schema. Names ask for the last
/// column of each name, in the order of the names. The rows of event `j` are those of its bank,
/// and every value is the element of the cell that it stands for, byte for byte; an event without
/// the bank has no rows.
pub proof fn law_columns_hold_cells(
    bufs: Seq<ColumnBuffers>,
    d: DictView,
    selection: Seq<(&str, &[&str])>,
    evs: Seq<EventView>,
    i: int,
    s: SchemaView,
    j: int,
    k: int,
    c: int,
    row: int,
    m: int,
)
    requires
        buffers_for(bufs, d, selection, evs),
        forall|x: int| 0 <= x < evs.len() ==> (#[trigger] evs[x]).wf(),
        0 <= i < selection.len(),
        d.named(selection[i].0@) == Some(s),
        s.laid_out(),
    ensures
        bufs.len() == selection.len(),
        shaped(bufs[i], s, selection[i].0@, selection[i].1@, evs),
        0 <= j < evs.len() && s.entries.len() > 0 && lacks(evs[j], s) ==> bufs[i].offsets@[j + 1]
            == bufs[i].offsets@[j],
        0 <= j < evs.len() && 0 <= k < bufs[i].columns@.len() && evs[j].bank(s) is Some
            ==> event_matches(
            bufs[i],
            s,
            selection[i].1@,
            j,
            evs[j].bank(s)->0,
            k,
            c,
            row,
            m,
        ),
{
    let b = bufs[i];
    assert(bank_buffers(b, d, selection[i].0, selection[i].1@, evs));
    lemma_shaped(b, d, selection[i].0, selection[i].1@, evs);
    if 0 <= j < evs.len() && s.entries.len() > 0 {
        let names = selection[i].1@;
        let cols = choose|cols: Seq<usize>| #[trigger]
            columns_resolved(s, names, cols) && all_readable(evs, s, cols)
                && b.holds(s, cols, evs);
        lemma_offsets(b, s, cols, evs, j);
    }
    if 0 <= j < evs.len() && 0 <= k < b.columns@.len() && evs[j].bank(s) is Some {
        assert(known_column(b, s, selection[i].1@, k));
        lemma_event_matches(
            b,
            d,
            selection[i].0,
            selection[i].1@,
            evs,
            j,
            evs[j].bank(s)->0,
            k,
            c,
            row,
            m,
        );
    }
}

/// [`Chain::read_columns`] returns the columns of the chain's events that lie in the range and
/// pass the filter, in the sense of [`law_columns_hold_cells`]: where every read of the chain's
/// files succeeds, or no record is chosen by its tag, of all of them.
pub proof fn law_read_columns<S: ReadAt>(
    chain: Chain<S>,
    selection: &[(&str, &[&str])],
    range: Option<Range<u64>>,
    bufs: Vec<ColumnBuffers>,
    i: int,
    s: SchemaView,
    j: int,
    k: int,
    c: int,
    row: int,
    m: int,
)
    requires
        call_ensures(
            Chain::<S>::read_columns,
            (&chain, selection, range),
            Ok::<Vec<ColumnBuffers>, HipoError>(bufs),
        ),
        chain@.steady(),
        forall|x: int|
            0 <= x < chain@.kept(range_pair(range)).len() ==> (#[trigger] chain@.kept(
                range_pair(range),
            )[x]).wf(),
        0 <= i < selection@.len(),
        chain@.dict.named(selection@[i].0@) == Some(s),
        s.laid_out(),
    ensures
        bufs@.len() == selection@.len(),
        ({
            let evs = chain@.kept(range_pair(range));
            let b = bufs@[i];
            &&& shaped(b, s, selection@[i].0@, selection@[i].1@, evs)
            &&& 0 <= j < evs.len() && s.entries.len() > 0 && lacks(evs[j], s) ==> b.offsets@[j + 1]
                == b.offsets@[j]
            &&& 0 <= j < evs.len() && 0 <= k < b.columns@.len() && evs[j].bank(s) is Some
                ==> event_matches(b, s, selection@[i].1@, j, evs[j].bank(s)->0, k, c, row, m)
        }),
{
    law_columns_hold_cells(
        bufs@,
        chain@.dict,
        selection@,
        chain@.kept(range_pair(range)),
        i,
        s,
        j,
        k,
        c,
        row,
        m,
    );
}

/// Whatever a chain's files do, [`Chain::read_columns`] that succeeds returns, for every part of
/// its selection, the columns that were asked for: all of the bank's, where no name was given,
/// each with the name, the type and the length of its schema entry.
pub proof fn law_read_columns_has_every_column<S: ReadAt>(
    chain: Chain<S>,
    selection: &[(&str, &[&str])],
    range: Option<Range<u64>>,
    bufs: Vec<ColumnBuffers>,
    i: int,
    s: SchemaView,
    k: int,
)
    requires
        call_ensures(
            Chain::<S>::read_columns,
            (&chain, selection, range),
            Ok::<Vec<ColumnBuffers>, HipoError>(bufs),
        ),
        0 <= i < selection@.len(),
        chain@.dict.named(selection@[i].0@) == Some(s),
    ensures
        bufs@.len() == selection@.len(),
        bufs@[i].bank@ == selection@[i].0@,
        selection@[i].1@.len() == 0 ==> bufs@[i].columns@.len() == s.entries.len() && (0 <= k
            < s.entries.len() ==> bufs@[i].columns@[k].name@ == s.entries[k].name
            && bufs@[i].columns@[k].data_type == s.entries[k].ty && bufs@[i].columns@[k].inner_len
            == s.entries[k].length),
        selection@[i].1@.len() > 0 ==> bufs@[i].columns@.len() == selection@[i].1@.len() && (0 <= k
            < selection@[i].1@.len() ==> bufs@[i].columns@[k].name@ == selection@[i].1@[k]@),
{
    let ts = choose|ts: Seq<(int, int)>| #[trigger]
        chain@.are_wanted(ts) && buffers_for(
            bufs@,
            chain@.dict,
            selection@,
            flat(chain@.kept_parts(range_pair(range), ts), ts.len()),
        );
    let evs = flat(chain@.kept_parts(range_pair(range), ts), ts.len());
    assert(bank_buffers(bufs@[i], chain@.dict, selection@[i].0, selection@[i].1@, evs));
    lemma_shaped(bufs@[i], chain@.dict, selection@[i].0, selection@[i].1@, evs);
    if 0 <= k < bufs@[i].columns@.len() {
        assert(known_column(bufs@[i], s, selection@[i].1@, k));
    }
}

/// [`Chain::read_columns_at`] returns the columns of the events with the given numbers, one after
/// the other as the numbers come, in the sense of [`law_columns_hold_cells`].
pub proof fn law_read_columns_at<S: ReadAt>(
    chain: Chain<S>,
    selection: &[(&str, &[&str])],
    entries: &[u64],
    bufs: Vec<ColumnBuffers>,
    i: int,
    s: SchemaView,
    j: int,
    k: int,
    c: int,
    row: int,
    m: int,
)
    requires
        call_ensures(
            Chain::<S>::read_columns_at,
            (&chain, selection, entries),
            Ok::<Vec<ColumnBuffers>, HipoError>(bufs),
        ),
        forall|x: int|
            0 <= x < entries@.len() ==> chain@.entry((#[trigger] entries@[x]) as int).wf(),
        0 <= i < selection@.len(),
        chain@.dict.named(selection@[i].0@) == Some(s),
        s.laid_out(),
    ensures
        bufs@.len() == selection@.len(),
        ({
            let evs = Seq::new(entries@.len(), |x: int| chain@.entry(entries@[x] as int));
            let b = bufs@[i];
            &&& shaped(b, s, selection@[i].0@, selection@[i].1@, evs)
            &&& 0 <= j < evs.len() && s.entries.len() > 0 && lacks(evs[j], s) ==> b.offsets@[j + 1]
                == b.offsets@[j]
            &&& 0 <= j < evs.len() && 0 <= k < b.columns@.len() && evs[j].bank(s) is Some
                ==> event_matches(b, s, selection@[i].1@, j, evs[j].bank(s)->0, k, c, row, m)
        }),
{
    let evs = Seq::new(entries@.len(), |x: int| chain@.entry(entries@[x] as int));
    assert(evs =~= chain@.entries(entries@));
    law_columns_hold_cells(bufs@, chain@.dict, selection@, evs, i, s, j, k, c, row, m);
}

} // verus!
