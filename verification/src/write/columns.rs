//! Building per-column records.

use vstd::prelude::*;
use vstd::slice::slice_subrange;
use crate::compress::lz4_bound;
use crate::error::{HipoError, Result};
use crate::schema::dict::Dict;
#[allow(unused_imports)]
use crate::schema::dict::DictView;
use crate::schema::types::Schema;
#[allow(unused_imports)]
use crate::schema::types::{lemma_widths_monotone, widths, SchemaView};
#[allow(unused_imports)]
use crate::seqs::{concat, lemma_concat_step, runs_of};
use crate::wire::bytes::push_bytes;
use crate::wire::constants::{CompressionType, EXT_FORMAT_VERSION_PER_COLUMN};
use crate::wire::tables::{push_u16_table, push_u32_table};
#[allow(unused_imports)]
use crate::wire::tables::{lemma_prefix_sum_monotone, prefix_sum, row_bytes, u16s_bytes, u32s_bytes};
use crate::write::gather::{event_tags, gather, BankTable};
#[allow(unused_imports)]
use crate::write::gather::{
    bank_stream, bytes_of, event_pieces, gathered, pieces_of, size_in, table_of, tables, tags_of,
    Piece, TableView,
};
use crate::write::record::{
    assemble, pack_all, pack_presence, push_descriptors, push_sizes, total_len, RecordIdent,
    MAX_BODY,
};
#[allow(unused_imports)]
use crate::write::record::{
    bounds, descriptor_bytes, dir_len, is_presence, lemma_dir_pieces, lengths, packs_all,
    size_bytes, split_counts_fit, split_written, SplitParts,
};

verus! {

/// Every event has a whole number of rows of the bank.
pub open spec fn whole_rows(t: TableView, row_size: nat) -> bool {
    forall|e: int|
        0 <= e < t.sizes.len() && t.present[e] ==> #[trigger] t.sizes[e] as nat % row_size == 0
}

/// The schema by which a bank is split into columns; nothing where the bank is opaque: it has
/// no schema, its rows have no size, it is composite, or some event has no whole number of
/// rows.
pub open spec fn columnar(t: TableView, dict: DictView) -> Option<SchemaView> {
    match dict.by_id(t.group, t.item) {
        Some(s) => if s.row_size > 0 && s.entries.len() <= 65535 && !t.composite && whole_rows(
            t,
            s.row_size as nat,
        ) {
            Some(s)
        } else {
            None
        },
        None => None,
    }
}

/// The cells of event `e` in column `c`.
pub open spec fn cells(t: TableView, s: SchemaView, c: int, e: int) -> Seq<u8> {
    let rows = t.sizes[e] as nat / s.row_size as nat;
    let from = prefix_sum(t.sizes, e as nat) + rows * s.entries[c].row_offset;
    t.stream.subrange(from as int, from + rows * s.entries[c].width())
}

/// The cells of column `c`, event by event.
pub open spec fn column_runs(t: TableView, s: SchemaView, c: int) -> Seq<Seq<u8>> {
    Seq::new(t.sizes.len(), |e: int| cells(t, s, c, e))
}

/// The streams of one bank.
pub open spec fn bank_streams(t: TableView, dict: DictView) -> Seq<Seq<u8>> {
    match columnar(t, dict) {
        Some(s) => Seq::new(s.entries.len(), |c: int| concat(column_runs(t, s, c))),
        None => seq![t.stream],
    }
}

/// The number of columns that a bank is split into; zero for an opaque bank.
pub open spec fn column_count(t: TableView, dict: DictView) -> u16 {
    match columnar(t, dict) {
        Some(s) => s.entries.len() as u16,
        None => 0,
    }
}

/// The column counts of the banks.
pub open spec fn column_counts(ts: Seq<TableView>, dict: DictView) -> Seq<u16> {
    ts.map_values(|t: TableView| column_count(t, dict))
}

/// The streams of all banks, bank by bank.
pub open spec fn flat_streams(ts: Seq<TableView>, dict: DictView) -> Seq<Seq<u8>>
    decreases ts.len(),
{
    if ts.len() == 0 {
        Seq::empty()
    } else {
        flat_streams(ts.drop_last(), dict) + bank_streams(ts.last(), dict)
    }
}

/// The sizes of each stream, compressed and decompressed.
pub open spec fn paired_lens(packed: Seq<Seq<u8>>, streams: Seq<Seq<u8>>) -> Seq<u32> {
    Seq::new(
        2 * streams.len(),
        |k: int|
            if k % 2 == 0 {
                packed[k / 2].len() as u32
            } else {
                streams[k / 2].len() as u32
            },
    )
}

/// The directory of a per-column record.
pub open spec fn per_column_dir(p: SplitParts, events: Seq<Seq<u8>>, dict: DictView) -> Seq<u8> {
    descriptor_bytes(p.tables) + u16s_bytes(column_counts(p.tables, dict)) + u32s_bytes(
        tags_of(events),
    ) + p.presence + size_bytes(p.tables) + u32s_bytes(
        paired_lens(p.packed, flat_streams(p.tables, dict)),
    )
}

/// `out` is a per-column record of these events, made of these parts.
pub open spec fn per_column_written(
    out: Seq<u8>,
    events: Seq<Seq<u8>>,
    dict: DictView,
    id: RecordIdent,
    p: SplitParts,
) -> bool {
    &&& gathered(p.tables, pieces_of(events), events.len())
    &&& is_presence(p.presence, p.tables, events.len())
    &&& packs_all(p.packed, flat_streams(p.tables, dict))
    &&& split_written(
        out,
        EXT_FORMAT_VERSION_PER_COLUMN,
        CompressionType::Lz4PerColumn,
        p.tables.len(),
        events.len(),
        lengths(flat_streams(p.tables, dict)),
        per_column_dir(p, events, dict),
        p.dir_packed,
        p.packed,
        id,
    )
}

/// `out` is a per-column record of these events.
pub open spec fn is_per_column_record(
    out: Seq<u8>,
    events: Seq<Seq<u8>>,
    dict: DictView,
    id: RecordIdent,
) -> bool {
    exists|p: SplitParts| #[trigger] per_column_written(out, events, dict, id, p)
}

/// A per-column record of these tables surely fits.
pub open spec fn per_column_fits(ts: Seq<TableView>, events: nat, dict: DictView) -> bool {
    let streams = flat_streams(ts, dict);
    let d = dir_len(6, ts.len(), events, streams.len());
    &&& split_counts_fit(ts.len(), events, lengths(streams), d)
    &&& 20 + lz4_bound(d) + bounds(streams) <= MAX_BODY
}

/// Running sums after one number is replaced.
proof fn lemma_prefix_update(s: Seq<u32>, e: int, v: u32, k: nat)
    requires
        0 <= e < s.len(),
        k <= s.len(),
    ensures
        prefix_sum(s.update(e, v), k) == (if e < k {
            prefix_sum(s, k) - s[e] + v
        } else {
            prefix_sum(s, k) as int
        }),
    decreases k,
{
    if k > 0 {
        lemma_prefix_update(s, e, v, (k - 1) as nat);
    }
}

/// The sizes of a bank over `events` events.
spec fn sizes_over(ps: Seq<Piece>, events: nat, group: u16, item: u8) -> Seq<u32> {
    Seq::new(events, |e: int| size_in(ps, group, item, e) as u32)
}

/// Pieces come from the events, and fit the size field of a structure.
spec fn pieces_ok(ps: Seq<Piece>, events: nat) -> bool {
    forall|k: int|
        0 <= k < ps.len() ==> 0 <= (#[trigger] ps[k]).event < events && ps[k].st.data.len()
            < 0x100_0000
}

/// The pieces of events are in order.
proof fn lemma_pieces_ok(events: Seq<Seq<u8>>)
    ensures
        pieces_ok(pieces_of(events), events.len()),
    decreases events.len(),
{
    if events.len() > 0 {
        let front = events.drop_last();
        lemma_pieces_ok(front);
        let ev = events.last();
        let sts = crate::event::event::event_structures(ev);
        let ps = pieces_of(events);
        let a = pieces_of(front);
        assert forall|k: int| 0 <= k < ps.len() implies 0 <= (#[trigger] ps[k]).event
            < events.len() && ps[k].st.data.len() < 0x100_0000 by {
            if k < a.len() {
                assert(ps[k] == a[k]);
            } else {
                let i = k - a.len();
                assert(ps[k] == event_pieces(events.len() - 1, sts)[i]);
                crate::event::event::lemma_structure_sizes(
                    ev,
                    16,
                    crate::event::event::event_end(ev),
                    i,
                );
            }
        }
    }
}

/// The sizes of a bank are those of its last pieces, so they never add up to more than its
/// stream.
proof fn lemma_sizes_within_stream(ps: Seq<Piece>, events: nat, group: u16, item: u8)
    requires
        pieces_ok(ps, events),
    ensures
        prefix_sum(sizes_over(ps, events, group, item), events) <= bank_stream(
            ps,
            group,
            item,
        ).len(),
        forall|e: int| (#[trigger] size_in(ps, group, item, e)) < 0x100_0000,
    decreases ps.len(),
{
    let now = sizes_over(ps, events, group, item);
    if ps.len() == 0 {
        assert forall|k: nat| k <= events implies #[trigger] prefix_sum(now, k) == 0 by {
            lemma_zero_sum(now, k);
        }
    } else {
        let front = ps.drop_last();
        let p = ps.last();
        assert(pieces_ok(front, events)) by {
            assert forall|k: int| 0 <= k < front.len() implies 0 <= (#[trigger] front[k]).event
                < events && front[k].st.data.len() < 0x100_0000 by {
                assert(front[k] == ps[k]);
            }
        }
        lemma_sizes_within_stream(front, events, group, item);
        let before = sizes_over(front, events, group, item);
        assert(0 <= ps[ps.len() - 1].event < events);
        assert forall|e: int| (#[trigger] size_in(ps, group, item, e)) < 0x100_0000 by {
            assert(size_in(front, group, item, e) < 0x100_0000);
        }
        if p.is(group, item) {
            assert forall|e: int| 0 <= e < events implies now[e] == before.update(
                p.event,
                p.st.data.len() as u32,
            )[e] by {
                assert(size_in(ps, group, item, e) == (if p.event == e {
                    p.st.data.len()
                } else {
                    size_in(front, group, item, e)
                }));
            }
            assert(now =~= before.update(p.event, p.st.data.len() as u32));
            lemma_prefix_update(before, p.event, p.st.data.len() as u32, events);
        } else {
            assert forall|e: int| 0 <= e < events implies now[e] == before[e] by {
                assert(size_in(ps, group, item, e) == size_in(front, group, item, e));
            }
            assert(now =~= before);
        }
    }
}

proof fn lemma_zero_sum(s: Seq<u32>, k: nat)
    requires
        k <= s.len(),
        forall|i: int| 0 <= i < s.len() ==> s[i] == 0,
    ensures
        prefix_sum(s, k) == 0,
    decreases k,
{
    if k > 0 {
        lemma_zero_sum(s, (k - 1) as nat);
    }
}

/// The sizes of a gathered table lie within its stream.
pub proof fn lemma_table_within_stream(events: Seq<Seq<u8>>, t: TableView)
    requires
        t == table_of(pieces_of(events), events.len(), t.group, t.item),
    ensures
        t.sizes.len() == events.len(),
        t.present.len() == events.len(),
        prefix_sum(t.sizes, events.len()) <= t.stream.len(),
        forall|e: int| 0 <= e < events.len() ==> #[trigger] t.sizes[e] < 0x100_0000,
{
    let ps = pieces_of(events);
    lemma_pieces_ok(events);
    lemma_sizes_within_stream(ps, events.len(), t.group, t.item);
    assert(t.sizes =~= sizes_over(ps, events.len(), t.group, t.item));
    assert forall|e: int| 0 <= e < events.len() implies #[trigger] t.sizes[e] < 0x100_0000 by {
        assert(size_in(ps, t.group, t.item, e) < 0x100_0000);
    }
}

/// The cells of an event lie within the event's part of the stream.
pub proof fn lemma_cells_in_stream(t: TableView, s: SchemaView, c: int, e: int)
    requires
        s.laid_out(),
        s.row_size > 0,
        0 <= c < s.entries.len(),
        0 <= e < t.sizes.len(),
        t.sizes[e] < 0x100_0000,
        prefix_sum(t.sizes, t.sizes.len()) <= t.stream.len(),
    ensures
        ({
            let rows = t.sizes[e] as nat / s.row_size as nat;
            let w = s.entries[c].width();
            &&& 0 <= rows * s.entries[c].row_offset
            &&& 0 <= rows * w
            &&& rows * s.entries[c].row_offset + rows * w <= t.sizes[e]
            &&& prefix_sum(t.sizes, e as nat) + t.sizes[e] <= t.stream.len()
            &&& cells(t, s, c, e).len() == rows * w
            &&& rows > 0 ==> s.entries[c].row_offset == widths(s.entries, c as nat)
                && s.row_size == widths(s.entries, s.entries.len())
        }),
{
    let rows = t.sizes[e] as nat / s.row_size as nat;
    let w = s.entries[c].width();
    let off = s.entries[c].row_offset as nat;
    let total = widths(s.entries, s.entries.len());
    lemma_prefix_sum_monotone(t.sizes, (e + 1) as nat, t.sizes.len());
    lemma_widths_monotone(s.entries, (c + 1) as nat, s.entries.len());
    assert(widths(s.entries, (c + 1) as nat) == widths(s.entries, c as nat) + w);
    let rs = s.row_size as nat;
    assert(rows * rs <= t.sizes[e]) by (nonlinear_arith)
        requires
            rows == t.sizes[e] as nat / rs,
            rs > 0,
    ;
    assert(0 <= rows * off && 0 <= rows * w) by (nonlinear_arith);
    if rows > 0 {
        assert(rs <= rows * rs) by (nonlinear_arith)
            requires
                rows > 0,
        ;
        assert(total <= u32::MAX);
        assert(rows * off + rows * w <= rows * rs) by (nonlinear_arith)
            requires
                off + w <= rs,
        ;
    } else {
        assert(rows * off == 0 && rows * w == 0) by (nonlinear_arith)
            requires
                rows == 0,
        ;
    }
}

/// Whether every event has a whole number of rows.
fn check_whole_rows(t: &BankTable, row_size: u32) -> (r: bool)
    requires
        row_size > 0,
        t.present.len() == t.sizes.len(),
    ensures
        r == whole_rows(t@, row_size as nat),
{
    let mut e: usize = 0;
    while e < t.sizes.len()
        invariant
            e <= t.sizes.len(),
            t.present.len() == t.sizes.len(),
            row_size > 0,
            forall|k: int|
                0 <= k < e && t@.present[k] ==> #[trigger] t@.sizes[k] as nat % (row_size as nat)
                    == 0,
        decreases t.sizes.len() - e,
    {
        if t.present[e] && t.sizes[e] % row_size != 0 {
            assert(t@.present[e as int] && t@.sizes[e as int] as nat % (row_size as nat) != 0);
            return false;
        }
        e = e + 1;
    }
    true
}

/// The schema by which a bank is split.
fn columnar_schema<'a>(t: &BankTable, dict: &'a Dict) -> (r: Option<&'a Schema>)
    requires
        t.present.len() == t.sizes.len(),
    ensures
        match r {
            Some(s) => columnar(t@, dict@) == Some(s@),
            None => columnar(t@, dict@) is None,
        },
{
    match dict.get_by_id(t.group, t.item) {
        Some(s) => {
            if s.row_size() > 0 && s.num_columns() <= 65535 && !t.composite && check_whole_rows(
                t,
                s.row_size(),
            ) {
                Some(s)
            } else {
                None
            }
        },
        None => None,
    }
}

/// The stream of one column.
fn take_column(t: &BankTable, s: &Schema, c: usize) -> (r: Vec<u8>)
    requires
        s@.row_size > 0,
        c < s@.entries.len(),
        prefix_sum(t@.sizes, t@.sizes.len()) <= t@.stream.len(),
        forall|e: int| 0 <= e < t@.sizes.len() ==> #[trigger] t@.sizes[e] < 0x100_0000,
    ensures
        r@ == concat(column_runs(t@, s@, c as int)),
{
    proof {
        use_type_invariant(s);
    }
    let ghost runs = column_runs(t@, s@, c as int);
    let row_size: usize = s.row_size() as usize;
    let entry = &s.entries()[c];
    let row_offset: usize = entry.row_offset as usize;
    let (size, length): (u64, u64) = (entry.ty.size() as u64, entry.length as u64);
    assert(size * length <= 8 * u32::MAX && size * length >= 0) by (nonlinear_arith)
        requires
            0 <= size <= 8,
            0 <= length <= u32::MAX,
    ;
    let width: u64 = size * length;
    assert(width == s@.entries[c as int].width());
    let mut out: Vec<u8> = Vec::new();
    let mut off: usize = 0;
    let mut e: usize = 0;
    assert(runs.subrange(0, 0) =~= Seq::<Seq<u8>>::empty());
    assert(out@ =~= concat(runs.subrange(0, 0)));
    while e < t.sizes.len()
        invariant
            e <= t.sizes.len(),
            c < s@.entries.len(),
            s@.laid_out(),
            row_size == s@.row_size,
            row_size > 0,
            row_offset == s@.entries[c as int].row_offset,
            width == s@.entries[c as int].width(),
            runs == column_runs(t@, s@, c as int),
            off == prefix_sum(t@.sizes, e as nat),
            prefix_sum(t@.sizes, t@.sizes.len()) <= t@.stream.len(),
            forall|k: int| 0 <= k < t@.sizes.len() ==> #[trigger] t@.sizes[k] < 0x100_0000,
            out@ == concat(runs.subrange(0, e as int)),
        decreases t.sizes.len() - e,
    {
        let bytes = t.stream.as_slice();
        let n: usize = t.sizes[e] as usize;
        assert(t@.sizes[e as int] == n);
        let rows: usize = n / row_size;
        proof {
            lemma_cells_in_stream(t@, s@, c as int, e as int);
            lemma_concat_step(runs, e as int);
            assert(rows == t@.sizes[e as int] as nat / s@.row_size as nat);
        }
        if rows > 0 {
            assert(width <= rows * width) by (nonlinear_arith)
                requires
                    rows > 0,
                    width >= 0,
            ;
            let w: usize = width as usize;
            assert(off + rows * row_offset + rows * w <= bytes.len());
            let start: usize = off + rows * row_offset;
            let end: usize = start + rows * w;
            push_bytes(&mut out, slice_subrange(bytes, start, end));
            assert(t@.stream.subrange(start as int, end as int) =~= runs[e as int]);
        } else {
            assert(rows * s@.entries[c as int].width() == 0) by (nonlinear_arith)
                requires
                    rows == 0,
            ;
            assert(runs[e as int] =~= Seq::<u8>::empty());
        }
        assert(off + n <= bytes.len());
        assert(out@ =~= concat(runs.subrange(0, e + 1)));
        off = off + n;
        e = e + 1;
    }
    assert(runs.subrange(0, e as int) =~= runs);
    out
}

/// Split every bank into its streams: the streams, bank by bank, and the column counts.
fn split_banks(ts: &[BankTable], dict: &Dict, events: Ghost<Seq<Seq<u8>>>) -> (r: (
    Vec<Vec<u8>>,
    Vec<u16>,
))
    requires
        forall|b: int|
            0 <= b < ts.len() ==> (#[trigger] ts@[b])@ == table_of(
                pieces_of(events@),
                events@.len(),
                ts@[b].group,
                ts@[b].item,
            ),
    ensures
        runs_of(r.0@) == flat_streams(tables(ts@), dict@),
        r.1@ == column_counts(tables(ts@), dict@),
{
    let ghost tv = tables(ts@);
    let mut streams: Vec<Vec<u8>> = Vec::new();
    let mut counts: Vec<u16> = Vec::new();
    let mut b: usize = 0;
    assert(runs_of(streams@) =~= flat_streams(tv.subrange(0, 0), dict@));
    while b < ts.len()
        invariant
            b <= ts.len(),
            tv == tables(ts@),
            forall|k: int|
                0 <= k < ts.len() ==> (#[trigger] ts@[k])@ == table_of(
                    pieces_of(events@),
                    events@.len(),
                    ts@[k].group,
                    ts@[k].item,
                ),
            runs_of(streams@) == flat_streams(tv.subrange(0, b as int), dict@),
            counts@ =~= column_counts(tv.subrange(0, b as int), dict@),
        decreases ts.len() - b,
    {
        let t = &ts[b];
        let ghost before = runs_of(streams@);
        proof {
            assert(tv.subrange(0, b + 1).drop_last() =~= tv.subrange(0, b as int));
            assert(tv.subrange(0, b + 1).last() == t@);
            lemma_table_within_stream(events@, t@);
        }
        match columnar_schema(t, dict) {
            Some(s) => {
                let n: usize = s.num_columns();
                counts.push(n as u16);
                let ghost parts = bank_streams(t@, dict@);
                let mut c: usize = 0;
                assert(before + parts.subrange(0, 0) =~= before);
                while c < n
                    invariant
                        c <= n,
                        n == s@.entries.len(),
                        columnar(t@, dict@) == Some(s@),
                        parts == bank_streams(t@, dict@),
                        prefix_sum(t@.sizes, t@.sizes.len()) <= t@.stream.len(),
                        forall|e: int|
                            0 <= e < t@.sizes.len() ==> #[trigger] t@.sizes[e] < 0x100_0000,
                        runs_of(streams@) == before + parts.subrange(0, c as int),
                    decreases n - c,
                {
                    let ghost old_runs = runs_of(streams@);
                    let col = take_column(t, s, c);
                    streams.push(col);
                    proof {
                        assert(runs_of(streams@) =~= old_runs.push(col@));
                        assert(old_runs.push(col@) =~= before + parts.subrange(0, c + 1));
                    }
                    c = c + 1;
                }
                assert(parts.subrange(0, c as int) =~= parts);
            },
            None => {
                counts.push(0);
                streams.push(vstd::slice::slice_to_vec(t.stream.as_slice()));
                assert(runs_of(streams@) =~= before + seq![t@.stream]);
            },
        }
        b = b + 1;
    }
    assert(tv.subrange(0, b as int) =~= tv);
    (streams, counts)
}

/// The lengths of streams, compressed and decompressed, in pairs.
fn pair_lens(packed: &[Vec<u8>], streams: &[Vec<u8>]) -> (r: Vec<u32>)
    requires
        packed.len() == streams.len(),
    ensures
        r@ == paired_lens(runs_of(packed@), runs_of(streams@)),
{
    let mut out: Vec<u32> = Vec::new();
    let mut k: usize = 0;
    while k < streams.len()
        invariant
            k <= streams.len(),
            packed.len() == streams.len(),
            out.len() == 2 * k,
            forall|i: int|
                0 <= i < out.len() ==> #[trigger] out@[i] == paired_lens(
                    runs_of(packed@),
                    runs_of(streams@),
                )[i],
        decreases streams.len() - k,
    {
        let a: u32 = packed[k].len() as u32;
        let b: u32 = streams[k].len() as u32;
        out.push(a);
        out.push(b);
        k = k + 1;
    }
    assert(out@ =~= paired_lens(runs_of(packed@), runs_of(streams@)));
    out
}

/// A per-column directory is as long as its counts say.
pub proof fn lemma_per_column_dir_len(p: SplitParts, events: Seq<Seq<u8>>, dict: DictView)
    requires
        forall|b: int|
            0 <= b < p.tables.len() ==> (#[trigger] p.tables[b]).sizes.len() == events.len(),
        p.presence.len() == events.len() * row_bytes(p.tables.len()),
    ensures
        per_column_dir(p, events, dict).len() == dir_len(
            6,
            p.tables.len(),
            events.len(),
            flat_streams(p.tables, dict).len(),
        ),
{
    lemma_dir_pieces(p.tables, events.len());
    crate::wire::tables::lemma_u16s_bytes_len(column_counts(p.tables, dict));
    crate::wire::tables::lemma_u32s_bytes_len(tags_of(events));
    crate::wire::tables::lemma_u32s_bytes_len(
        paired_lens(p.packed, flat_streams(p.tables, dict)),
    );
}

/// Build a per-column record.
pub(crate) fn build_per_column_record_bytes(
    events: &[Vec<u8>],
    dict: &Dict,
    id: RecordIdent,
) -> (r: Result<Vec<u8>>)
    ensures
        match r {
            Ok(out) => is_per_column_record(out@, bytes_of(events@), dict@, id),
            Err(e) => e is Compression && exists|ts: Seq<TableView>| #[trigger]
                gathered(ts, pieces_of(bytes_of(events@)), events.len() as nat)
                    && !per_column_fits(ts, events.len() as nat, dict@),
        },
{
    let ghost evs = bytes_of(events@);
    let n: usize = events.len();
    let ts = gather(events);
    let ghost tv = tables(ts@);
    assert forall|b: int| 0 <= b < ts.len() implies (#[trigger] ts@[b])@ == table_of(
        pieces_of(evs),
        evs.len(),
        ts@[b].group,
        ts@[b].item,
    ) by {
        assert(ts@[b]@ == tv[b]);
    }
    assert forall|b: int| 0 <= b < ts.len() implies (#[trigger] ts@[b]).present.len() == n
        && ts@[b].sizes.len() == n by {
        assert(ts@[b]@ == tv[b]);
    }
    let tags = event_tags(events);
    let (streams, counts) = split_banks(ts.as_slice(), dict, Ghost(evs));
    let ghost flat = flat_streams(tv, dict@);
    let presence = match pack_presence(ts.as_slice(), n) {
        Some(p) => p,
        None => {
            assert(dir_len(6, tv.len(), n as nat, flat.len()) > u32::MAX) by {
                assert(4 * (tv.len() * n as nat) >= 0) by (nonlinear_arith);
            }
            assert(!per_column_fits(tv, n as nat, dict@));
            return Err(HipoError::Compression("record does not fit its header"));
        },
    };
    let packed = match pack_all(streams.as_slice()) {
        Ok(v) => v,
        Err(e) => {
            assert(!per_column_fits(tv, n as nat, dict@));
            return Err(e);
        },
    };
    let data: usize = match total_len(streams.as_slice()) {
        Some(d) => d,
        None => {
            assert(!per_column_fits(tv, n as nat, dict@));
            return Err(HipoError::Compression("record does not fit its header"));
        },
    };
    let mut dir: Vec<u8> = Vec::new();
    push_descriptors(&mut dir, ts.as_slice());
    push_u16_table(&mut dir, counts.as_slice());
    push_u32_table(&mut dir, tags.as_slice());
    push_bytes(&mut dir, presence.as_slice());
    push_sizes(&mut dir, ts.as_slice());
    push_u32_table(&mut dir, pair_lens(packed.as_slice(), streams.as_slice()).as_slice());
    let ghost p = SplitParts {
        tables: tv,
        presence: presence@,
        packed: runs_of(packed@),
        dir_packed: Seq::empty(),
    };
    proof {
        assert(dir@ =~= per_column_dir(p, evs, dict@));
        assert forall|b: int| 0 <= b < tv.len() implies (#[trigger] tv[b]).sizes.len()
            == evs.len() by {
            assert(ts@[b]@ == tv[b]);
        }
        lemma_per_column_dir_len(p, evs, dict@);
    }
    match assemble(
        EXT_FORMAT_VERSION_PER_COLUMN,
        CompressionType::Lz4PerColumn,
        ts.len(),
        n,
        data,
        dir.as_slice(),
        packed.as_slice(),
        id,
    ) {
        Ok(out) => {
            proof {
                let dp = choose|dp: Seq<u8>| #[trigger]
                    split_written(
                        out@,
                        EXT_FORMAT_VERSION_PER_COLUMN,
                        CompressionType::Lz4PerColumn,
                        ts.len() as nat,
                        n as nat,
                        data as nat,
                        dir@,
                        dp,
                        runs_of(packed@),
                        id,
                    );
                let q = SplitParts { dir_packed: dp, ..p };
                assert(per_column_dir(q, evs, dict@) == per_column_dir(p, evs, dict@));
                assert(per_column_written(out@, evs, dict@, id, q));
            }
            Ok(out)
        },
        Err(e) => {
            assert(!per_column_fits(tv, n as nat, dict@));
            Err(e)
        },
    }
}

} // verus!
