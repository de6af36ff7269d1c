//! A column read has one result: however its work is shared out, the buffers hold the same.

use vstd::prelude::*;
#[allow(unused_imports)]
use crate::error::HipoError;
#[allow(unused_imports)]
use crate::event::view::EventView;
#[allow(unused_imports)]
use crate::read::cells::{all_cells, all_readable, column_bytes};
#[allow(unused_imports)]
use crate::read::chain::ChainView;
#[allow(unused_imports)]
use crate::read::column_data::{ColumnBuffers, ColumnData, MaterializedColumn};
#[allow(unused_imports)]
use crate::read::columns::{bank_buffers, buffers_for};
#[allow(unused_imports)]
use crate::read::plan::columns_resolved;
#[allow(unused_imports)]
use crate::schema::dict::DictView;
#[allow(unused_imports)]
use crate::schema::types::SchemaView;

verus! {

/// The same values of the same type.
pub open spec fn same_data(a: ColumnData, b: ColumnData) -> bool {
    match (a, b) {
        (ColumnData::I8(x), ColumnData::I8(y)) => x@ == y@,
        (ColumnData::I16(x), ColumnData::I16(y)) => x@ == y@,
        (ColumnData::I32(x), ColumnData::I32(y)) => x@ == y@,
        (ColumnData::I64(x), ColumnData::I64(y)) => x@ == y@,
        (ColumnData::F32(x), ColumnData::F32(y)) => x@ == y@,
        (ColumnData::F64(x), ColumnData::F64(y)) => x@ == y@,
        _ => false,
    }
}

/// The same column with the same values.
pub open spec fn same_column(a: MaterializedColumn, b: MaterializedColumn) -> bool {
    &&& a.name@ == b.name@
    &&& a.data_type == b.data_type
    &&& a.inner_len == b.inner_len
    &&& same_data(a.data, b.data)
}

/// The same bank, with the same rows in every event and the same columns.
pub open spec fn same_bank_buffers(a: ColumnBuffers, b: ColumnBuffers) -> bool {
    &&& a.bank@ == b.bank@
    &&& a.offsets@ == b.offsets@
    &&& a.columns.len() == b.columns.len()
    &&& forall|k: int|
        0 <= k < a.columns.len() ==> same_column(#[trigger] a.columns@[k], b.columns@[k])
}

/// The same buffers, bank by bank.
pub open spec fn same_buffers(a: Seq<ColumnBuffers>, b: Seq<ColumnBuffers>) -> bool {
    &&& a.len() == b.len()
    &&& forall|i: int| 0 <= i < a.len() ==> same_bank_buffers(#[trigger] a[i], b[i])
}

/// Names resolve to one list of columns.
proof fn lemma_columns_unique(s: SchemaView, names: Seq<&str>, a: Seq<usize>, b: Seq<usize>)
    requires
        columns_resolved(s, names, a),
        columns_resolved(s, names, b),
    ensures
        a == b,
{
    if names.len() > 0 {
        assert forall|k: int| 0 <= k < a.len() implies a[k] == b[k] by {
            let (i, j) = (a[k] as int, b[k] as int);
            assert(s.is_column(names[k]@, i) && s.is_column(names[k]@, j));
            assert(s.entries[i].name == s.entries[j].name);
        }
        assert(a =~= b);
    }
}

/// Buffers that hold the same columns of the same events are the same.
proof fn lemma_bank_determined(
    a: ColumnBuffers,
    b: ColumnBuffers,
    d: DictView,
    bank: &str,
    names: Seq<&str>,
    evs: Seq<EventView>,
)
    requires
        bank_buffers(a, d, bank, names, evs),
        bank_buffers(b, d, bank, names, evs),
    ensures
        same_bank_buffers(a, b),
{
    let s = d.named(bank@)->0;
    let ca = choose|cols: Seq<usize>| #[trigger]
        columns_resolved(s, names, cols) && all_readable(evs, s, cols)
            && a.holds(s, cols, evs);
    let cb = choose|cols: Seq<usize>| #[trigger]
        columns_resolved(s, names, cols) && all_readable(evs, s, cols)
            && b.holds(s, cols, evs);
    lemma_columns_unique(s, names, ca, cb);
    assert forall|k: int| 0 <= k < a.columns.len() implies same_column(
        #[trigger] a.columns@[k],
        b.columns@[k],
    ) by {
        let e = s.entries[ca[k] as int];
        let bytes = column_bytes(
            all_cells(evs, s),
            s,
            ca[k] as int,
            evs.len(),
        );
        assert(a.columns@[k].holds(e, bytes));
        assert(b.columns@[k].holds(e, bytes));
        assert(a.columns@[k].data.decodes(e.ty, bytes));
        assert(b.columns@[k].data.decodes(e.ty, bytes));
    }
}

proof fn lemma_buffers_determined(
    a: Seq<ColumnBuffers>,
    b: Seq<ColumnBuffers>,
    d: DictView,
    selection: Seq<(&str, &[&str])>,
    evs: Seq<EventView>,
)
    requires
        buffers_for(a, d, selection, evs),
        buffers_for(b, d, selection, evs),
    ensures
        same_buffers(a, b),
{
    assert forall|i: int| 0 <= i < a.len() implies same_bank_buffers(#[trigger] a[i], b[i]) by {
        assert(bank_buffers(a[i], d, selection[i].0, selection[i].1@, evs));
        assert(bank_buffers(b[i], d, selection[i].0, selection[i].1@, evs));
        lemma_bank_determined(a[i], b[i], d, selection[i].0, selection[i].1@, evs);
    }
}

/// Every bank of one read has an offset for each event and one more: the events are the same for
/// all of them.
pub proof fn law_banks_share_events(
    bufs: Seq<ColumnBuffers>,
    d: DictView,
    selection: Seq<(&str, &[&str])>,
    evs: Seq<EventView>,
    i: int,
)
    requires
        buffers_for(bufs, d, selection, evs),
        0 <= i < bufs.len(),
    ensures
        bufs.len() == selection.len(),
        bufs[i].offsets.len() == evs.len() + 1,
        bufs[i].bank@ == selection[i].0@,
{
    assert(bank_buffers(bufs[i], d, selection[i].0, selection[i].1@, evs));
}

/// Two reads of the same columns over the same range that succeed hold the same.
pub proof fn law_column_read_is_determined(
    c: ChainView,
    range: Option<(u64, u64)>,
    selection: Seq<(&str, &[&str])>,
    a: Vec<ColumnBuffers>,
    b: Vec<ColumnBuffers>,
)
    requires
        c.columns_end(range, selection, Ok::<Vec<ColumnBuffers>, HipoError>(a)),
        c.columns_end(range, selection, Ok::<Vec<ColumnBuffers>, HipoError>(b)),
    ensures
        same_buffers(a@, b@),
{
    lemma_buffers_determined(a@, b@, c.dict, selection, c.kept(range));
}

/// Two reads of the same columns of the same events that succeed hold the same.
pub proof fn law_entry_read_is_determined(
    c: ChainView,
    idxs: Seq<u64>,
    selection: Seq<(&str, &[&str])>,
    a: Vec<ColumnBuffers>,
    b: Vec<ColumnBuffers>,
)
    requires
        c.entries_end(idxs, selection, Ok::<Vec<ColumnBuffers>, HipoError>(a)),
        c.entries_end(idxs, selection, Ok::<Vec<ColumnBuffers>, HipoError>(b)),
    ensures
        same_buffers(a@, b@),
{
    lemma_buffers_determined(a@, b@, c.dict, selection, c.entries(idxs));
}

} // verus!
