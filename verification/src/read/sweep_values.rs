//! Sweeping a column and reading its values come to the same.

#[allow(unused_imports)]
use vstd::arithmetic::div_mod::{lemma_fundamental_div_mod, lemma_fundamental_div_mod_converse};
use vstd::prelude::*;
#[allow(unused_imports)]
use crate::event::view::EventView;
#[allow(unused_imports)]
use crate::read::cells::{
    all_cells, all_readable, cells_in, cells_of, column_bytes, lemma_joined_events, CellsView,
};
#[allow(unused_imports)]
use crate::read::chain::ChainView;
#[allow(unused_imports)]
use crate::read::iter::wanted_tags;
#[allow(unused_imports)]
use crate::read::merge::flat;
#[allow(unused_imports)]
use crate::read::scan::picked;
#[allow(unused_imports)]
use crate::read::stored::StoredView;
#[allow(unused_imports)]
use crate::read::sweep::{swept, swept_data, swept_event, swept_events, swept_stream};
#[allow(unused_imports)]
use crate::schema::types::{lemma_widths_monotone, widths, SchemaView};
#[allow(unused_imports)]
use crate::seqs::concat;
#[allow(unused_imports)]
use crate::wire::per_column::PerColumnView;

verus! {

/// The events of a record.
pub open spec fn record_events(v: StoredView) -> Seq<EventView> {
    Seq::new(v.events(), |e: int| v.event(e))
}

/// A record keeps a column in step with its rows. Where the column is a stream of its own, every
/// event has a whole number of rows, and the stream holds one cell for each of them. Where the
/// bank is one stream, an event without the bank has no bytes in it.
pub open spec fn in_step(v: StoredView, s: SchemaView, col: int) -> bool {
    match v {
        StoredView::PerColumn(r) => match r.bank_at(s.group, s.item) {
            Some(b) => if r.cols[b as int] == 0 {
                forall|e: int|
                    0 <= e < r.events() && !r.has(e, b as int) ==> #[trigger] r.size(e, b as int)
                        == 0
            } else {
                &&& forall|e: int|
                    0 <= e < r.events() ==> #[trigger] r.size(e, b as int) % (s.row_size as int)
                        == 0
                &&& r.stream(b as int, col) matches Some(x) ==> x.len() / s.entries[col].width()
                    == r.rows_before(r.events() as int, b as int, s.row_size as nat)
            },
            None => true,
        },
        _ => true,
    }
}

/// Two runs of runs, one behind the other.
proof fn lemma_concat_joined(a: Seq<Seq<u8>>, b: Seq<Seq<u8>>)
    ensures
        concat(a + b) == concat(a) + concat(b),
    decreases b.len(),
{
    if b.len() == 0 {
        assert(a + b =~= a);
        assert(concat(a) + concat(b) =~= concat(a));
    } else {
        lemma_concat_joined(a, b.drop_last());
        assert((a + b).drop_last() =~= a + b.drop_last());
        assert((a + b).last() == b.last());
        assert(concat(a) + concat(b.drop_last()) + b.last() =~= concat(a) + concat(b));
    }
}

/// A row of a schema with columns has bytes.
proof fn lemma_row_size(s: SchemaView, col: int)
    requires
        s.laid_out(),
        0 <= col < s.entries.len(),
    ensures
        s.row_size >= 1,
        s.entries[col].width() >= 1,
{
    let e = s.entries[col];
    let (z, l) = (e.ty.spec_size(), e.length as nat);
    assert(z * l >= 1) by (nonlinear_arith)
        requires
            z >= 1,
            l >= 1,
    ;
    lemma_widths_monotone(s.entries, (col + 1) as nat, s.entries.len());
}

/// One event, where what it holds of the bank lies together.
proof fn lemma_event_swept(ev: EventView, s: SchemaView, col: int)
    requires
        ev.wf(),
        s.laid_out(),
        0 <= col < s.entries.len(),
        cells_of(ev, s).readable(s, seq![col as usize]),
        ev matches EventView::PerColumn(v, e) ==> (v.bank_at(s.group, s.item) matches Some(b)
            ==> v.cols[b as int] == 0 && (!v.has(e, b as int) ==> v.size(e, b as int) == 0)),
    ensures
        concat(swept_event(ev, s, col)) == cells_of(ev, s).column(s, col)->0,
{
    lemma_row_size(s, col);
    let out = swept_event(ev, s, col);
    match swept_data(ev, s) {
        Some(d) => {
            if let CellsView::Bank(b) = cells_in(s, d) {
                let run = b.col_data(col);
                assert(out =~= seq![run]);
                let none = Seq::<Seq<u8>>::empty();
                assert(out.drop_last() =~= none);
                assert(concat(none) =~= Seq::<u8>::empty());
                assert(concat(out) =~= run);
                if d.len() == 0 {
                    assert(b.rows == 0) by {
                        assert(0nat / (s.row_size as nat) == 0) by (nonlinear_arith)
                            requires
                                s.row_size >= 1,
                        ;
                    }
                    assert(b.col_start(col) == 0) by (nonlinear_arith)
                        requires
                            b.rows == 0,
                            b.col_start(col) == b.rows * widths(b.schema.entries, col as nat),
                    ;
                    assert(b.rows * b.schema.entries[col].width() == 0) by (nonlinear_arith)
                        requires
                            b.rows == 0,
                    ;
                    assert(run =~= Seq::<u8>::empty());
                }
            }
        },
        None => {
            assert(concat(out) =~= Seq::<u8>::empty());
        },
    }
}

/// The events of a record, where what each holds of the bank lies together.
proof fn lemma_events_swept(v: StoredView, s: SchemaView, col: int, n: nat)
    requires
        n <= v.events(),
        s.laid_out(),
        0 <= col < s.entries.len(),
        forall|e: int| 0 <= e < v.events() ==> (#[trigger] v.event(e)).wf(),
        all_readable(record_events(v), s, seq![col as usize]),
        v matches StoredView::PerColumn(r) ==> (r.bank_at(s.group, s.item) matches Some(b)
            ==> r.cols[b as int] == 0),
        in_step(v, s, col),
    ensures
        concat(swept_events(v, s, col, n)) == column_bytes(
            all_cells(record_events(v), s),
            s,
            col,
            n,
        ),
    decreases n,
{
    if n > 0 {
        lemma_events_swept(v, s, col, (n - 1) as nat);
        let ev = v.event(n - 1);
        assert(record_events(v)[n - 1] == ev);
        assert(ev.wf());
        assert(cells_of(record_events(v)[n - 1], s).readable(s, seq![col as usize]));
        lemma_event_swept(ev, s, col);
        lemma_concat_joined(swept_events(v, s, col, (n - 1) as nat), swept_event(ev, s, col));
    }
}

/// Multiples of `r` add up to one.
proof fn lemma_whole_rows(a: int, k: int, r: int, w: int)
    requires
        r > 0,
        a >= 0,
        k >= 0,
        w >= 0,
        a % r == 0,
        k % r == 0,
    ensures
        (a + k) % r == 0,
        (a + k) / r == a / r + k / r,
        0 <= (a / r) * w <= ((a + k) / r) * w,
        k > 0 ==> k / r > 0,
{
    let (p, q) = (a / r, k / r);
    lemma_fundamental_div_mod(a, r);
    lemma_fundamental_div_mod(k, r);
    assert(a + k == (p + q) * r + 0) by (nonlinear_arith)
        requires
            a == r * p,
            k == r * q,
    ;
    lemma_fundamental_div_mod_converse(a + k, r, p + q, 0);
    assert(p >= 0 && q >= 0 && (k > 0 ==> q > 0)) by (nonlinear_arith)
        requires
            a == r * p,
            k == r * q,
            a >= 0,
            k >= 0,
            r > 0,
    ;
    assert(0 <= p * w <= (p + q) * w) by (nonlinear_arith)
        requires
            p >= 0,
            q >= 0,
            w >= 0,
    ;
}

/// The events of a record whose column is a stream of its own.
proof fn lemma_stream_swept(r: PerColumnView, b: nat, s: SchemaView, col: int, n: nat)
    requires
        r.wf(),
        n <= r.events(),
        s.laid_out(),
        0 <= col < s.entries.len(),
        all_readable(record_events(StoredView::PerColumn(r)), s, seq![col as usize]),
        r.bank_at(s.group, s.item) == Some(b),
        b < r.banks(),
        r.cols[b as int] != 0,
        in_step(StoredView::PerColumn(r), s, col),
    ensures
        r.offsets[b as int][n as int] % s.row_size == 0,
        r.stream(b as int, col) matches Some(x) ==> {
            let w = s.entries[col].width();
            let upto = (r.rows_before(n as int, b as int, s.row_size as nat) * w) as int;
            &&& upto <= x.len()
            &&& column_bytes(
                all_cells(record_events(StoredView::PerColumn(r)), s),
                s,
                col,
                n,
            ) == x.subrange(0, upto)
        },
        r.stream(b as int, col) is None ==> column_bytes(
            all_cells(record_events(StoredView::PerColumn(r)), s),
            s,
            col,
            n,
        ).len() == 0,
    decreases n,
{
    let v = StoredView::PerColumn(r);
    let evs = record_events(v);
    let cells = all_cells(evs, s);
    let o = r.offsets[b as int];
    let rs = s.row_size as int;
    let w = s.entries[col].width();
    lemma_row_size(s, col);
    assert(crate::wire::per_column::offsets_grow(o, r.events()));
    if n == 0 {
        assert(o[0] == 0);
        assert(0int / rs == 0 && 0int % rs == 0) by (nonlinear_arith)
            requires
                rs > 0,
        ;
        assert(0 * w == 0) by (nonlinear_arith);
        if let Some(x) = r.stream(b as int, col) {
            assert(column_bytes(cells, s, col, 0) =~= x.subrange(0, 0));
        }
    } else {
        lemma_stream_swept(r, b, s, col, (n - 1) as nat);
        let e = n - 1;
        assert(o[e] <= o[e + 1]);
        assert(r.size(e, b as int) % rs == 0);
        lemma_whole_rows(o[e] as int, r.size(e, b as int), rs, w as int);
        assert(evs[e] == v.event(e));
        assert(cells[e] == cells_of(evs[e], s));
        assert(cells_of(evs[e], s).readable(s, seq![col as usize]));
        assert(seq![col as usize][0] as int == col);
        let got = cells[e].column(s, col)->0;
        let from = r.rows_before(e, b as int, s.row_size as nat);
        let rows = r.rows_in(e, b as int, s.row_size as nat);
        if r.size(e, b as int) == 0 {
            assert(cells[e] is Absent);
            assert(column_bytes(cells, s, col, n) =~= column_bytes(cells, s, col, e as nat));
        } else {
            assert(rows > 0);
            assert(cells[e].column(s, col) == r.column_data(e, b as int, col, s));
            let x = r.stream(b as int, col)->0;
            assert(got == x.subrange((from * w) as int, ((from + rows) * w) as int));
            assert(from + rows == r.rows_before(n as int, b as int, s.row_size as nat));
            assert(x.subrange(0, (from * w) as int) + got =~= x.subrange(
                0,
                ((from + rows) * w) as int,
            ));
        }
    }
}

/// The runs in which a sweep finds a column in a record, one behind the other, are the cells of
/// its events, one behind the other: where the bank can be read from every event, and the record
/// keeps the column in step with its rows.
pub proof fn law_sweep_covers_record(v: StoredView, s: SchemaView, col: int)
    requires
        s.laid_out(),
        0 <= col < s.entries.len(),
        forall|e: int| 0 <= e < v.events() ==> (#[trigger] v.event(e)).wf(),
        v matches StoredView::PerColumn(r) ==> r.wf(),
        all_readable(record_events(v), s, seq![col as usize]),
        in_step(v, s, col),
        swept(v, s, col) is Some,
    ensures
        concat(swept(v, s, col)->0) == column_bytes(
            all_cells(record_events(v), s),
            s,
            col,
            v.events(),
        ),
{
    let n = v.events();
    let cells = all_cells(record_events(v), s);
    let none = Seq::<Seq<u8>>::empty();
    assert(concat(none) =~= Seq::<u8>::empty());
    match v {
        StoredView::Chunk(_) => {
            lemma_events_swept(v, s, col, n);
        },
        StoredView::ByBank(r) => {
            lemma_events_swept(v, s, col, n);
            if r.bank_at(s.group, s.item) is None {
                lemma_nothing_there(v, s, col, n);
            }
        },
        StoredView::PerColumn(r) => {
            r.lemma_bisected(s.group * 256 + s.item, 0, r.banks());
            match r.bank_at(s.group, s.item) {
                None => {
                    lemma_nothing_there(v, s, col, n);
                },
                Some(b) => {
                    if r.cols[b as int] == 0 {
                        lemma_events_swept(v, s, col, n);
                    } else {
                        lemma_stream_swept(r, b, s, col, n);
                        if let Some(x) = r.stream(b as int, col) {
                            let w = s.entries[col].width();
                            lemma_row_size(s, col);
                            let runs = swept_stream(x, w);
                            let upto = ((x.len() / w) * w) as int;
                            if x.len() >= w {
                                assert(runs =~= seq![x.subrange(0, upto)]);
                                assert(runs.drop_last() =~= none);
                                assert(concat(runs) =~= x.subrange(0, upto));
                            } else {
                                assert(x.len() / w == 0 && 0 * w == 0) by (nonlinear_arith)
                                    requires
                                        0 <= x.len() < w,
                                ;
                                assert(concat(runs) =~= x.subrange(0, upto));
                            }
                        } else {
                            assert(concat(none) =~= column_bytes(cells, s, col, n));
                        }
                    }
                },
            }
        },
    }
}

/// A record that does not list the bank has no cells of it.
proof fn lemma_nothing_there(v: StoredView, s: SchemaView, col: int, n: nat)
    requires
        n <= v.events(),
        match v {
            StoredView::Chunk(_) => false,
            StoredView::ByBank(r) => r.bank_at(s.group, s.item) is None,
            StoredView::PerColumn(r) => r.bank_at(s.group, s.item) is None,
        },
    ensures
        column_bytes(all_cells(record_events(v), s), s, col, n).len() == 0,
    decreases n,
{
    if n > 0 {
        lemma_nothing_there(v, s, col, (n - 1) as nat);
        assert(record_events(v)[n - 1] == v.event(n - 1));
        assert(all_cells(record_events(v), s)[n - 1] is Absent);
    }
}

/// Without a filter every event of a record is picked.
proof fn lemma_all_picked(v: StoredView, n: nat)
    requires
        n <= u32::MAX,
    ensures
        picked(v, None, None, n) == Seq::new(n, |i: int| i as u32),
    decreases n,
{
    if n > 0 {
        lemma_all_picked(v, (n - 1) as nat);
        assert(picked(v, None, None, n) =~= Seq::new(n, |i: int| i as u32));
    } else {
        assert(picked(v, None, None, n) =~= Seq::new(n, |i: int| i as u32));
    }
}

/// Without a filter and a range the events of a record are all kept.
proof fn lemma_all_kept(c: ChainView, f: int, r: int)
    requires
        c.filter is None,
        c.stored(f, r) is Some,
    ensures
        c.kept_in(None, f, r) == record_events(c.stored(f, r)->0),
{
    let v = c.stored(f, r)->0;
    lemma_all_picked(v, v.events());
    assert(c.kept_in(None, f, r) =~= record_events(v));
}

/// Where no tag is asked for, every record is wanted.
proof fn lemma_every_record(c: ChainView, n: nat)
    requires
        wanted_tags(c.filter).len() == 0,
        n <= c.files.len(),
    ensures
        c.tasks(n) == c.records(n),
    decreases n,
{
    if n > 0 {
        lemma_every_record(c, (n - 1) as nat);
        lemma_every_record_of(c, n - 1, c.files[n - 1].info.spans.len());
        assert(c.tasks(n) =~= c.records(n));
    } else {
        assert(c.tasks(n) =~= c.records(n));
    }
}

proof fn lemma_every_record_of(c: ChainView, f: int, n: nat)
    requires
        wanted_tags(c.filter).len() == 0,
    ensures
        c.file_tasks(f, n) == Seq::new(n, |r: int| (f, r)),
    decreases n,
{
    if n > 0 {
        lemma_every_record_of(c, f, (n - 1) as nat);
    }
    assert(c.file_tasks(f, n) =~= Seq::new(n, |r: int| (f, r)));
}

impl ChainView {
    /// The bytes of the runs that a sweep of the first `n` records of `ts` finds, one behind the
    /// other.
    pub open spec fn swept_bytes(
        self,
        ts: Seq<(int, int)>,
        s: SchemaView,
        col: int,
        n: nat,
    ) -> Seq<u8>
        decreases n,
    {
        if n == 0 {
            Seq::empty()
        } else {
            self.swept_bytes(ts, s, col, (n - 1) as nat) + concat(
                swept(self.record_decoded(ts[n - 1])->0, s, col)->0,
            )
        }
    }

    /// Record `t` says the same under the dictionary of the chain as under that of its file, and
    /// keeps the column in step with its rows.
    pub open spec fn sweeps_alike(self, t: (int, int), s: SchemaView, col: int) -> bool {
        &&& self.record_decoded(t) == self.stored(t.0, t.1)
        &&& self.stored(t.0, t.1) matches Some(v) && in_step(v, s, col) && (v matches
            StoredView::PerColumn(r) ==> r.wf()) && forall|e: int|
            0 <= e < v.events() ==> (#[trigger] v.event(e)).wf()
    }
}

/// Records swept one behind the other.
proof fn lemma_records_swept(
    c: ChainView,
    ts: Seq<(int, int)>,
    s: SchemaView,
    col: int,
    n: nat,
)
    requires
        n <= ts.len(),
        c.filter is None,
        s.laid_out(),
        0 <= col < s.entries.len(),
        c.all_swept(ts, s, col, ts.len()),
        forall|k: int| 0 <= k < ts.len() ==> c.sweeps_alike(#[trigger] ts[k], s, col),
        all_readable(flat(c.kept_parts(None, ts), n), s, seq![col as usize]),
    ensures
        c.swept_bytes(ts, s, col, n) == column_bytes(
            all_cells(flat(c.kept_parts(None, ts), n), s),
            s,
            col,
            flat(c.kept_parts(None, ts), n).len(),
        ),
    decreases n,
{
    if n > 0 {
        let parts = c.kept_parts(None, ts);
        let a = flat(parts, (n - 1) as nat);
        let b = parts[n - 1];
        let t = ts[n - 1];
        assert(c.sweeps_alike(t, s, col));
        let v = c.stored(t.0, t.1)->0;
        lemma_all_kept(c, t.0, t.1);
        assert(b == record_events(v));
        assert forall|i: int| 0 <= i < a.len() implies cells_of(#[trigger] a[i], s).readable(
            s,
            seq![col as usize],
        ) by {
            assert((a + b)[i] == a[i]);
        }
        assert forall|i: int| 0 <= i < b.len() implies cells_of(#[trigger] b[i], s).readable(
            s,
            seq![col as usize],
        ) by {
            assert((a + b)[a.len() + i] == b[i]);
        }
        lemma_records_swept(c, ts, s, col, (n - 1) as nat);
        assert(swept(v, s, col) is Some) by {
            reveal(ChainView::all_swept);
            assert(c.record_decoded(ts[n - 1]) == Some(v));
        }
        law_sweep_covers_record(v, s, col);
        assert(all_cells(a + b, s) =~= all_cells(a, s) + all_cells(b, s));
        lemma_joined_events(all_cells(a, s), all_cells(b, s), s, col, b.len());
    }
}

/// A sweep of a column over a chain without a filter hands out the bytes that reading its values
/// over the whole chain decodes, in the same order: where every record says the same under the
/// dictionary of the chain as under that of its file and keeps the column in step with its rows,
/// and the bank can be read from every event.
pub proof fn law_sweep_hands_out_column_values(c: ChainView, s: SchemaView, col: int)
    requires
        c.filter is None,
        s.laid_out(),
        0 <= col < s.entries.len(),
        c.all_swept(c.records(c.files.len()), s, col, c.records(c.files.len()).len()),
        forall|k: int|
            0 <= k < c.records(c.files.len()).len() ==> c.sweeps_alike(
                #[trigger] c.records(c.files.len())[k],
                s,
                col,
            ),
        all_readable(c.kept(None), s, seq![col as usize]),
    ensures
        c.swept_bytes(c.records(c.files.len()), s, col, c.records(c.files.len()).len())
            == column_bytes(all_cells(c.kept(None), s), s, col, c.kept(None).len()),
{
    let ts = c.records(c.files.len());
    lemma_every_record(c, c.files.len());
    lemma_records_swept(c, ts, s, col, ts.len());
}

} // verus!
