//! Typed column reads: every cell is a cell of the bank of its event.

use core::ops::Range;

use vstd::prelude::*;
use crate::error::HipoError;
#[allow(unused_imports)]
use crate::event::bank::{elements, lemma_col_in_data, BankState};
#[allow(unused_imports)]
use crate::laws::banks::{element_start, last_named, type_bytes};
#[allow(unused_imports)]
use crate::laws::bytes::law_element_types;
#[allow(unused_imports)]
use crate::laws::columns::{lacks, lemma_cells_are_bank, lemma_segment};
#[allow(unused_imports)]
use crate::read::cells::{
    all_cells, cells_of, column_bytes, law_columns_align, lemma_cells, row_counts,
};
use crate::read::chain::Chain;
#[allow(unused_imports)]
use crate::read::columns::range_pair;
use crate::read::source::ReadAt;
#[allow(unused_imports)]
use crate::read::typed::{cell_width, is_cells};
#[allow(unused_imports)]
use crate::schema::handle::{fits, BankColumnType, BankScalarType};
#[allow(unused_imports)]
use crate::schema::types::SchemaView;
#[allow(unused_imports)]
use crate::wire::tables::{lemma_prefix_sum_monotone, prefix_sum, total};

verus! {

/// Element `m` of a cell of `T` stands where the bank has it.
proof fn lemma_cell<T: BankColumnType>(
    vals: Seq<T>,
    s: SchemaView,
    c: int,
    bytes: Seq<u8>,
    from: int,
    bank: BankState,
    row: int,
    m: int,
)
    requires
        is_cells::<T>(vals, bytes),
        fits::<T>(s, c),
        bank.schema == s,
        bank.whole(),
        0 <= row < bank.rows,
        0 <= m < s.entries[c].length,
        0 <= from,
        from * s.entries[c].width() + bank.col_data(c).len() <= bytes.len(),
        bytes.subrange(
            from * s.entries[c].width(),
            from * s.entries[c].width() + bank.col_data(c).len(),
        ) == bank.col_data(c),
    ensures
        from + row < vals.len(),
        ({
            let e = s.entries[c];
            let at = element_start(bank.rows, e, row, m);
            vals[from + row].elems()[m] == <T::Scalar as BankScalarType>::decoded(
                bank.data.subrange(at, at + type_bytes(e.ty)),
            )
        }),
{
    let e = s.entries[c];
    let (w, z, l) = (e.width(), e.ty.spec_size(), e.length as int);
    law_element_types();
    lemma_col_in_data(bank, c);
    let cd = bank.col_data(c);
    let start = bank.col_start(c);
    let i = from + row;
    assert(start <= start + #[trigger] (row * w) && row * w + w <= bank.rows * w);
    assert(cell_width::<T>() == w);
    assert(cd.len() == bank.rows * w);
    assert(i * w == from * w + row * w && 0 <= m * z && m * z + z <= w && w > 0 && from * w >= 0
        && row * w >= 0) by (nonlinear_arith)
        requires
            i == from + row,
            w == z * l,
            0 <= m < l,
            z > 0,
            from >= 0,
            row >= 0,
    ;
    let n = vals.len() as int;
    assert(i < n) by (nonlinear_arith)
        requires
            i * w + w <= n * w,
            w > 0,
    ;
    let f = from * w;
    let k = row * w;
    let cell = bytes.subrange(i * w, i * w + w);
    assert(bytes.subrange(f, f + cd.len()).subrange(k, k + w) =~= cell);
    assert(cell =~= bank.data.subrange(start + k, start + k + w));
    assert(element_start(bank.rows, e, row, m) == start + k + m * z);
    assert(cell.subrange(m * z, m * z + z) =~= bank.data.subrange(
        start + k + m * z,
        start + k + m * z + z,
    ));
    assert(vals[i].elems()[m] == elements::<T::Scalar>(cell, T::spec_length())[m]);
}

/// [`Chain::read_column_typed`] returns, for the events that lie in the range and pass the filter,
/// one offset more than there are events, the rows of every event between its offset and the next,
/// and in each row the cell of the event's bank, element by element and byte for byte. An event
/// without the bank has no rows.
#[verifier::rlimit(40)]
#[verifier::spinoff_prover]
pub proof fn law_typed_column<S: ReadAt, T: BankColumnType>(
    chain: Chain<S>,
    bank: &str,
    column: &str,
    range: Option<Range<u64>>,
    offsets: Vec<i64>,
    vals: Vec<T>,
    s: SchemaView,
    c: int,
    j: int,
    row: int,
    m: int,
)
    requires
        call_ensures(
            Chain::<S>::read_column_typed::<T>,
            (&chain, bank, column, range),
            Ok::<(Vec<i64>, Vec<T>), HipoError>((offsets, vals)),
        ),
        chain@.steady(),
        forall|x: int|
            0 <= x < chain@.kept(range_pair(range)).len() ==> (#[trigger] chain@.kept(
                range_pair(range),
            )[x]).wf(),
        chain@.dict.named(bank@) == Some(s),
        s.laid_out(),
        last_named(s.entries, column@, c),
        s.entries[c].length > 0,
        vals@.len() <= i64::MAX,
        0 <= j < chain@.kept(range_pair(range)).len(),
    ensures
        ({
            let evs = chain@.kept(range_pair(range));
            let from = offsets@[j];
            &&& offsets@.len() == evs.len() + 1
            &&& offsets@[0] == 0
            &&& offsets@[evs.len() as int] == vals@.len()
            &&& lacks(evs[j], s) ==> offsets@[j + 1] == from
            &&& evs[j].bank(s) matches Some(b) ==> {
                &&& offsets@[j + 1] - from == b.rows
                &&& 0 <= row < b.rows && 0 <= m < s.entries[c].length ==> {
                    let at = element_start(b.rows, s.entries[c], row, m);
                    vals@[from + row].elems()[m] == <T::Scalar as BankScalarType>::decoded(
                        b.data.subrange(at, at + type_bytes(s.entries[c].ty)),
                    )
                }
            }
        }),
{
    let evs = chain@.kept(range_pair(range));
    let cells = all_cells(evs, s);
    let counts = row_counts(cells, s);
    let x = choose|x: int| #[trigger]
        s.is_column(column@, x) && chain@.typed_read::<T>(
            range_pair(range),
            s,
            x,
            offsets@,
            vals@,
        );
    assert(x == c) by {
        if x < c {
            assert(s.entries[c].name != column@);
        } else if c < x {
            assert(s.entries[x].name != column@);
        }
    }
    let e = s.entries[c];
    let w = e.width();
    law_element_types();
    assert(w > 0) by (nonlinear_arith)
        requires
            w == e.ty.spec_size() * e.length,
            e.ty.spec_size() > 0,
            e.length > 0,
    ;
    assert forall|i: int| 0 <= i < evs.len() implies cells_of(#[trigger] evs[i], s).column(s, c)
        is Some by {
        assert(cells_of(evs[i], s).readable(s, seq![c as usize]));
        assert(cells_of(evs[i], s).column(s, seq![c as usize][0] as int) is Some);
    }
    law_columns_align(evs, s, c, j as nat);
    law_columns_align(evs, s, c, evs.len());
    let n = total(counts);
    assert(cell_width::<T>() == w);
    assert(n == vals@.len()) by (nonlinear_arith)
        requires
            n * w == vals@.len() * w,
            w > 0,
    ;
    lemma_prefix_sum_monotone(counts, j as nat, counts.len());
    lemma_prefix_sum_monotone(counts, (j + 1) as nat, counts.len());
    lemma_cells(evs[j], s, c);
    assert(offsets@[j] == prefix_sum(counts, j as nat));
    assert(offsets@[j + 1] - offsets@[j] == cells_of(evs[j], s).rows(s));
    if let Some(b) = evs[j].bank(s) {
        assert(cells_of(evs[j], s).readable(s, seq![c as usize]));
        lemma_cells_are_bank(evs[j], s, c, b);
        if 0 <= row < b.rows && 0 <= m < e.length {
            lemma_segment(cells, s, c, j, evs.len());
            lemma_cell::<T>(
                vals@,
                s,
                c,
                column_bytes(cells, s, c, evs.len()),
                offsets@[j] as int,
                b,
                row,
                m,
            );
        }
    }
}

} // verus!
