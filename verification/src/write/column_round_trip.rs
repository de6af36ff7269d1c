//! What a per-column record gives back of the events it was built from.

#![allow(unused_imports)]

use vstd::prelude::*;
use crate::compress::law_stream_round_trip;
use crate::event::event::{event_structures, found};
use crate::schema::dict::DictView;
use crate::schema::types::{widths, SchemaView};
use crate::seqs::{concat, lemma_concat_at, lemma_concat_step, run_start};
use crate::wire::constants::{Codec, CompressionType, EXT_FORMAT_VERSION_PER_COLUMN};
use crate::wire::per_column::{
    column_sizes_base, id_order, lemma_stream_base, offsets_grow, packed_sizes_at,
    per_column_decoded, per_column_of, plain_sizes_at, stream_base, stream_mismatch,
    streams_per_bank, sum_range, PerColumnView,
};
use crate::wire::split::{
    bank_sizes, descriptors_of, fixed_len, BankDescriptor, DirectoryView, Outcome,
};
use crate::wire::tables::{
    cumulative, law_cumulative_monotone, law_u16_table_round_trip, law_u32_table_round_trip,
    lemma_prefix_sum_monotone, lemma_u16s_bytes_len, lemma_u32s_bytes_len, prefix_sum, present,
    row_bytes, total, u16_table, u16s_bytes, u32_table, u32s_bytes,
};
use crate::write::columns::{
    bank_streams, cells, column_count, column_counts, column_runs, columnar, flat_streams,
    lemma_cells_in_stream, lemma_per_column_dir_len, lemma_table_within_stream, paired_lens,
    per_column_dir, per_column_written, whole_rows,
};
use crate::write::gather::{gathered, pieces_of, table_of, tags_of, TableView};
use crate::write::record::{
    descriptor_bytes, header_of, lemma_dir_pieces, lemma_header_writable, lemma_lengths, lengths,
    lens_of, packs, size_bytes, split_section, RecordIdent, SplitParts,
};
use crate::write::round_trip::{
    bank_runs, data_in, events_once, lemma_descriptors_read_back, lemma_directory_reads_back,
    lemma_framed_reads_back, lemma_run_le, lemma_section_reads_back, lemma_sizes_read_back,
    lemma_table_once,
};

verus! {

/// A bank has as many streams as its column count says.
proof fn lemma_bank_stream_count(t: TableView, dict: DictView)
    requires
        dict.wf(),
    ensures
        bank_streams(t, dict).len() == streams_per_bank(column_count(t, dict)),
        columnar(t, dict) matches Some(s) ==> s.laid_out() && s.row_size > 0 && s.entries.len() > 0
            && column_count(t, dict) == s.entries.len(),
{
    if let Some(s) = columnar(t, dict) {
        let i = dict.ids[(t.group, t.item)] as int;
        assert(dict.ids.dom().contains((t.group, t.item)));
        assert(dict.schemas[i].laid_out());
        if s.entries.len() == 0 {
            assert(widths(s.entries, 0) == 0);
        }
    }
}

/// The streams of the first banks come first, and as many as the column counts say.
proof fn lemma_flat_base(ts: Seq<TableView>, dict: DictView, b: nat)
    requires
        dict.wf(),
        b <= ts.len(),
    ensures
        flat_streams(ts.subrange(0, b as int), dict).len() == stream_base(
            column_counts(ts, dict),
            b,
        ),
    decreases b,
{
    if b > 0 {
        let m = (b - 1) as nat;
        lemma_flat_base(ts, dict, m);
        lemma_bank_stream_count(ts[m as int], dict);
        assert(ts.subrange(0, b as int).drop_last() =~= ts.subrange(0, m as int));
        assert(ts.subrange(0, b as int).last() == ts[m as int]);
    } else {
        assert(ts.subrange(0, 0) =~= Seq::<TableView>::empty());
    }
}

/// Stream `c` of bank `b` is found behind the streams of the banks before it.
proof fn lemma_flat_at(ts: Seq<TableView>, dict: DictView, b: int, c: int)
    requires
        dict.wf(),
        0 <= b < ts.len(),
        0 <= c < bank_streams(ts[b], dict).len(),
    ensures
        stream_base(column_counts(ts, dict), b as nat) + c < flat_streams(ts, dict).len(),
        flat_streams(ts, dict)[stream_base(column_counts(ts, dict), b as nat) + c]
            == bank_streams(ts[b], dict)[c],
    decreases ts.len(),
{
    let front = ts.drop_last();
    let n = front.len();
    assert(ts.subrange(0, n as int) =~= front);
    lemma_flat_base(ts, dict, n);
    if b < n {
        lemma_flat_at(front, dict, b, c);
        lemma_counts_same(ts, front, dict, b as nat);
    }
}

/// Where streams start depends on the banks before alone.
proof fn lemma_counts_same(a: Seq<TableView>, b: Seq<TableView>, dict: DictView, k: nat)
    requires
        k <= a.len(),
        k <= b.len(),
        forall|i: int| 0 <= i < k ==> a[i] == b[i],
    ensures
        stream_base(column_counts(a, dict), k) == stream_base(column_counts(b, dict), k),
    decreases k,
{
    if k > 0 {
        lemma_counts_same(a, b, dict, (k - 1) as nat);
    }
}

/// The decompressed sizes of consecutive streams add up to their lengths.
proof fn lemma_sum_of_lens(flat: Seq<Seq<u8>>, part: Seq<Seq<u8>>, from: int, k: nat)
    requires
        0 <= from,
        k <= part.len(),
        from + part.len() <= flat.len(),
        forall|c: int| 0 <= c < part.len() ==> #[trigger] part[c] == flat[from + c],
        forall|i: int| 0 <= i < flat.len() ==> (#[trigger] flat[i]).len() <= u32::MAX,
    ensures
        sum_range(lens_of(flat), from, from + k) == lengths(part.subrange(0, k as int)),
    decreases k,
{
    if k > 0 {
        let m = (k - 1) as nat;
        lemma_sum_of_lens(flat, part, from, m);
        assert(part.subrange(0, k as int).drop_last() =~= part.subrange(0, m as int));
        assert(part[m as int] == flat[from + m]);
        assert(lens_of(flat)[from + m] == flat[from + m].len());
    } else {
        assert(part.subrange(0, 0) =~= Seq::<Seq<u8>>::empty());
    }
}

/// Every size of the bank is a whole number of rows.
spec fn all_whole(t: TableView, row_size: nat) -> bool {
    forall|e: int| 0 <= e < t.sizes.len() ==> (#[trigger] t.sizes[e]) as nat % row_size == 0
}

/// Where the cells of an event start in a column: at the rows before it.
proof fn lemma_column_start(t: TableView, s: SchemaView, c: int, k: nat)
    requires
        s.laid_out(),
        s.row_size > 0,
        0 <= c < s.entries.len(),
        k <= t.sizes.len(),
        all_whole(t, s.row_size as nat),
        prefix_sum(t.sizes, t.sizes.len()) <= t.stream.len(),
        forall|e: int| 0 <= e < t.sizes.len() ==> #[trigger] t.sizes[e] < 0x100_0000,
    ensures
        ({
            let rs = s.row_size as nat;
            let a = prefix_sum(t.sizes, k) / rs;
            &&& a * rs == prefix_sum(t.sizes, k)
            &&& run_start(column_runs(t, s, c), k as int) == a * s.entries[c].width()
        }),
    decreases k,
{
    let rs = s.row_size as nat;
    let w = s.entries[c].width();
    let runs = column_runs(t, s, c);
    if k > 0 {
        let m = (k - 1) as nat;
        lemma_column_start(t, s, c, m);
        lemma_concat_step(runs, m as int);
        lemma_cells_in_stream(t, s, c, m as int);
        let a = prefix_sum(t.sizes, m) / rs;
        let size = t.sizes[m as int] as nat;
        let q = size / rs;
        assert(size % rs == 0);
        assert(q * rs == size) by (nonlinear_arith)
            requires
                size % rs == 0,
                q == size / rs,
                rs > 0,
        ;
        assert((a + q) * rs == prefix_sum(t.sizes, k)) by (nonlinear_arith)
            requires
                a * rs == prefix_sum(t.sizes, m),
                q * rs == size,
                prefix_sum(t.sizes, k) == prefix_sum(t.sizes, m) + size,
        ;
        assert(prefix_sum(t.sizes, k) / rs == a + q) by (nonlinear_arith)
            requires
                (a + q) * rs == prefix_sum(t.sizes, k),
                rs > 0,
        ;
        assert((a + q) * w == a * w + q * w) by (nonlinear_arith);
    } else {
        assert(runs.subrange(0, 0) =~= Seq::<Seq<u8>>::empty());
        assert(0nat / rs == 0) by (nonlinear_arith)
            requires
                rs > 0,
        ;
        assert(0 * rs == 0 && 0 * w == 0) by (nonlinear_arith);
    }
}

/// The columns of a bank are together as long as the bank.
proof fn lemma_columns_len(t: TableView, s: SchemaView, n: nat)
    requires
        s.laid_out(),
        s.row_size > 0,
        n <= s.entries.len(),
        all_whole(t, s.row_size as nat),
        prefix_sum(t.sizes, t.sizes.len()) <= t.stream.len(),
        forall|e: int| 0 <= e < t.sizes.len() ==> #[trigger] t.sizes[e] < 0x100_0000,
    ensures
        lengths(Seq::new(n, |c: int| concat(column_runs(t, s, c)))) == (total(t.sizes)
            / s.row_size as nat) * widths(s.entries, n),
    decreases n,
{
    let all = Seq::new(n, |c: int| concat(column_runs(t, s, c)));
    let r = total(t.sizes) / s.row_size as nat;
    if n > 0 {
        let m = (n - 1) as nat;
        lemma_columns_len(t, s, m);
        assert(all.drop_last() =~= Seq::new(m, |c: int| concat(column_runs(t, s, c))));
        lemma_column_start(t, s, m as int, t.sizes.len());
        let runs = column_runs(t, s, m as int);
        assert(runs.subrange(0, runs.len() as int) =~= runs);
        let w = s.entries[m as int].width();
        assert(r * widths(s.entries, m) + r * w == r * (widths(s.entries, m) + w))
            by (nonlinear_arith);
    } else {
        assert(r * 0 == 0) by (nonlinear_arith);
    }
}

/// An event that a table counts has a whole number of rows, and so has one without the bank.
proof fn lemma_all_whole(events: Seq<Seq<u8>>, t: TableView, row_size: nat)
    requires
        events_once(events),
        t == table_of(pieces_of(events), events.len(), t.group, t.item),
        row_size > 0,
        whole_rows(t, row_size),
    ensures
        all_whole(t, row_size),
{
    lemma_table_once(events, t);
    assert forall|e: int| 0 <= e < t.sizes.len() implies (#[trigger] t.sizes[e]) as nat % row_size
        == 0 by {
        if !t.present[e] {
            assert(bank_runs(events, t.group, t.item)[e].len() == 0);
            assert(t.sizes[e] == lens_of(bank_runs(events, t.group, t.item))[e]);
            assert(0nat % row_size == 0) by (nonlinear_arith)
                requires
                    row_size > 0,
            ;
        }
    }
}

/// Where every row is counted, rows are as wide as their columns.
proof fn lemma_rows_uncapped(t: TableView, s: SchemaView)
    requires
        s.laid_out(),
        s.row_size > 0,
        all_whole(t, s.row_size as nat),
        total(t.sizes) > 0,
        forall|e: int| 0 <= e < t.sizes.len() ==> #[trigger] t.sizes[e] < 0x100_0000,
    ensures
        s.row_size == widths(s.entries, s.entries.len()),
{
    if forall|e: int| 0 <= e < t.sizes.len() ==> #[trigger] t.sizes[e] == 0 {
        lemma_zeros(t.sizes, t.sizes.len());
    } else {
        let e = choose|e: int| 0 <= e < t.sizes.len() && #[trigger] t.sizes[e] != 0;
        let rs = s.row_size as nat;
        let size = t.sizes[e] as nat;
        assert(rs <= size) by (nonlinear_arith)
            requires
                size % rs == 0,
                size > 0,
                rs > 0,
        ;
    }
}

proof fn lemma_zeros(s: Seq<u32>, k: nat)
    requires
        k <= s.len(),
        forall|i: int| 0 <= i < s.len() ==> #[trigger] s[i] == 0,
    ensures
        prefix_sum(s, k) == 0,
    decreases k,
{
    if k > 0 {
        lemma_zeros(s, (k - 1) as nat);
    }
}

/// The streams of a bank are together as long as its data.
proof fn lemma_bank_streams_len(events: Seq<Seq<u8>>, t: TableView, dict: DictView)
    requires
        events_once(events),
        dict.wf(),
        t == table_of(pieces_of(events), events.len(), t.group, t.item),
    ensures
        lengths(bank_streams(t, dict)) == total(t.sizes),
{
    lemma_table_once(events, t);
    lemma_table_within_stream(events, t);
    lemma_bank_stream_count(t, dict);
    match columnar(t, dict) {
        Some(s) => {
            let rs = s.row_size as nat;
            lemma_all_whole(events, t, rs);
            lemma_columns_len(t, s, s.entries.len());
            lemma_column_start(t, s, 0, t.sizes.len());
            let r = total(t.sizes) / rs;
            assert(r * rs == total(t.sizes));
            if total(t.sizes) > 0 {
                lemma_rows_uncapped(t, s);
            } else {
                assert(r * widths(s.entries, s.entries.len()) == 0) by (nonlinear_arith)
                    requires
                        r * rs == 0,
                        rs > 0,
                ;
            }
        },
        None => {
            let one = seq![t.stream];
            assert(one.drop_last() =~= Seq::<Seq<u8>>::empty());
            assert(lengths(one.drop_last()) == 0);
        },
    }
}

/// The directory of a per-column record is read back.
proof fn lemma_per_column_dir_reads_back(p: SplitParts, events: Seq<Seq<u8>>, dict: DictView)
    requires
        forall|b: int|
            0 <= b < p.tables.len() ==> (#[trigger] p.tables[b]).sizes.len() == events.len(),
        p.presence.len() == events.len() * row_bytes(p.tables.len()),
        p.packed.len() == flat_streams(p.tables, dict).len(),
    ensures
        ({
            let d = per_column_dir(p, events, dict);
            let n = p.tables.len();
            let e = events.len();
            let flat = flat_streams(p.tables, dict);
            let table = fixed_len(6, n, e) as int;
            &&& d.len() == table + 8 * flat.len()
            &&& forall|b: int|
                0 <= b < n ==> #[trigger] descriptors_of(d, n)[b] == (BankDescriptor {
                    group: p.tables[b].group,
                    item: p.tables[b].item,
                    data_type: p.tables[b].ty,
                })
            &&& u16_table(d, 4 * n as int, n) =~= column_counts(p.tables, dict)
            &&& u32_table(d, 6 * n as int, e) =~= tags_of(events)
            &&& d.subrange(
                (6 * n + 4 * e) as int,
                (6 * n + 4 * e + e * row_bytes(n)) as int,
            ) =~= p.presence
            &&& forall|b: int|
                0 <= b < n ==> #[trigger] bank_sizes(d, column_sizes_base(n, e), e, b)
                    == p.tables[b].sizes
            &&& packed_sizes_at(d, table, flat.len()) =~= lens_of(p.packed)
            &&& plain_sizes_at(d, table, flat.len()) =~= lens_of(flat)
        }),
{
    let d = per_column_dir(p, events, dict);
    let n = p.tables.len();
    let e = events.len();
    let flat = flat_streams(p.tables, dict);
    let counts = column_counts(p.tables, dict);
    let pairs = paired_lens(p.packed, flat);
    let table = fixed_len(6, n, e) as int;
    lemma_per_column_dir_len(p, events, dict);
    lemma_dir_pieces(p.tables, e);
    lemma_u16s_bytes_len(counts);
    lemma_u32s_bytes_len(tags_of(events));
    lemma_u32s_bytes_len(pairs);
    assert(e * row_bytes(n) >= 0) by (nonlinear_arith);
    assert(4 * (n * e) >= 0) by (nonlinear_arith);
    assert(d.subrange(0, 4 * n as int) =~= descriptor_bytes(p.tables));
    lemma_descriptors_read_back(d, p.tables);
    assert(d.subrange(4 * n as int, (4 * n + 2 * n) as int) =~= u16s_bytes(counts));
    law_u16_table_round_trip(d, 4 * n as int, counts);
    assert(d.subrange(6 * n as int, (6 * n + 4 * e) as int) =~= u32s_bytes(tags_of(events)));
    law_u32_table_round_trip(d, 6 * n as int, tags_of(events));
    let base = column_sizes_base(n, e);
    assert(d.subrange(base, base + size_bytes(p.tables).len()) =~= size_bytes(p.tables));
    assert forall|b: int| 0 <= b < n implies #[trigger] bank_sizes(d, base, e, b)
        == p.tables[b].sizes by {
        lemma_sizes_read_back(d, base, p.tables, e, b);
    }
    assert(d.subrange(table, table + 4 * pairs.len()) =~= u32s_bytes(pairs));
    law_u32_table_round_trip(d, table, pairs);
    let read = u32_table(d, table, pairs.len());
    assert forall|k: int| 0 <= k < flat.len() implies #[trigger] packed_sizes_at(
        d,
        table,
        flat.len(),
    )[k] == lens_of(p.packed)[k] by {
        assert(read[2 * k] == pairs[2 * k]);
        assert((2 * k) / 2 == k);
    }
    assert forall|k: int| 0 <= k < flat.len() implies #[trigger] plain_sizes_at(
        d,
        table,
        flat.len(),
    )[k] == lens_of(flat)[k] by {
        assert(read[2 * k + 1] == pairs[2 * k + 1]);
        assert((2 * k + 1) / 2 == k);
    }
}

/// The bytes of event `e` in the stream of a bank are the bank's data in that event.
proof fn lemma_event_block(events: Seq<Seq<u8>>, t: TableView, e: int)
    requires
        events_once(events),
        t == table_of(pieces_of(events), events.len(), t.group, t.item),
        0 <= e < events.len(),
    ensures
        prefix_sum(t.sizes, (e + 1) as nat) == prefix_sum(t.sizes, e as nat) + t.sizes[e],
        prefix_sum(t.sizes, (e + 1) as nat) <= t.stream.len(),
        t.stream.subrange(
            prefix_sum(t.sizes, e as nat) as int,
            prefix_sum(t.sizes, e as nat) + t.sizes[e],
        ) =~= data_in(event_structures(events[e]), t.group, t.item),
{
    let runs = bank_runs(events, t.group, t.item);
    lemma_table_once(events, t);
    lemma_table_within_stream(events, t);
    lemma_prefix_sum_monotone(t.sizes, (e + 1) as nat, events.len());
    lemma_concat_at(runs, e);
    assert(prefix_sum(t.sizes, e as nat) == run_start(runs, e));
    assert(t.sizes[e] == lens_of(runs)[e]);
    crate::write::round_trip::lemma_bank_run_small(events, t.group, t.item, e);
    assert(runs[e] == data_in(event_structures(events[e]), t.group, t.item));
}

/// The cells of an event, column after column, are the bank's data in that event.
#[verifier::spinoff_prover]
#[verifier::rlimit(40)]
proof fn lemma_columns_block(
    events: Seq<Seq<u8>>,
    t: TableView,
    dict: DictView,
    v: PerColumnView,
    e: int,
    b: int,
    n: nat,
)
    requires
        events_once(events),
        dict.wf(),
        t == table_of(pieces_of(events), events.len(), t.group, t.item),
        0 <= e < events.len(),
        columnar(t, dict) is Some,
        n <= (columnar(t, dict)->0).entries.len(),
        v.offsets[b] == cumulative(t.sizes),
        t.stream.len() <= u32::MAX,
        forall|c: int|
            0 <= c < (columnar(t, dict)->0).entries.len() ==> #[trigger] v.stream(b, c) == Some(
                concat(column_runs(t, columnar(t, dict)->0, c)),
            ),
    ensures
        ({
            let s = columnar(t, dict)->0;
            let rows = t.sizes[e] as nat / s.row_size as nat;
            let block = data_in(event_structures(events[e]), t.group, t.item);
            &&& rows > 0 ==> rows * widths(s.entries, n) <= block.len()
            &&& v.columns_data(e, b, s, n) == (if rows > 0 {
                block.subrange(0, (rows * widths(s.entries, n)) as int)
            } else {
                Seq::empty()
            })
            &&& v.lost(e, b, s, n) == Seq::<usize>::empty()
        }),
    decreases n,
{
    let s = columnar(t, dict)->0;
    let rs = s.row_size as nat;
    let size = t.sizes[e] as nat;
    let rows = size / rs;
    let block = data_in(event_structures(events[e]), t.group, t.item);
    lemma_bank_stream_count(t, dict);
    lemma_table_once(events, t);
    lemma_table_within_stream(events, t);
    lemma_all_whole(events, t, rs);
    lemma_event_block(events, t, e);
    assert(rows * widths(s.entries, 0) == 0) by (nonlinear_arith)
        requires
            widths(s.entries, 0) == 0,
    ;
    if n == 0 {
        assert(block.subrange(0, 0) =~= Seq::<u8>::empty());
    } else {
        let c = n - 1;
        let m = (n - 1) as nat;
        let w = s.entries[c].width();
        lemma_columns_block(events, t, dict, v, e, b, m);
        lemma_cells_in_stream(t, s, c, e);
        lemma_column_start(t, s, c, e as nat);
        lemma_column_start(t, s, c, (e + 1) as nat);
        let runs = column_runs(t, s, c);
        lemma_concat_at(runs, e);
        lemma_concat_step(runs, e);
        lemma_prefix_sum_monotone(t.sizes, e as nat, events.len());
        lemma_prefix_sum_monotone(t.sizes, (e + 1) as nat, events.len());
        // The rows before the event, and the event's rows.
        let from = prefix_sum(t.sizes, e as nat) / rs;
        assert(v.rows_before(e, b, rs) == from);
        assert(v.size(e, b) == size);
        assert(v.rows_in(e, b, rs) == rows);
        assert((from + rows) * w == from * w + rows * w) by (nonlinear_arith);
        let x = concat(runs);
        assert(v.stream(b, c) == Some(x));
        assert(run_start(runs, e) == from * w);
        assert(runs[e] == cells(t, s, c, e));
        assert(v.column_data(e, b, c, s) == Some(cells(t, s, c, e)));
        if rows > 0 {
            let a = rows * widths(s.entries, m);
            assert(widths(s.entries, n) == widths(s.entries, m) + w);
            assert(rows * widths(s.entries, n) == a + rows * w) by (nonlinear_arith)
                requires
                    widths(s.entries, n) == widths(s.entries, m) + w,
                    a == rows * widths(s.entries, m),
            ;
            assert(rows * s.entries[c].row_offset == a);
            let p = prefix_sum(t.sizes, e as nat) as int;
            assert(cells(t, s, c, e) =~= block.subrange(a as int, (a + rows * w) as int));
            assert(block.subrange(0, a as int) + block.subrange(a as int, (a + rows * w) as int)
                =~= block.subrange(0, (a + rows * w) as int));
        } else {
            assert(rows * w == 0) by (nonlinear_arith)
                requires
                    rows == 0,
            ;
            assert(cells(t, s, c, e) =~= Seq::<u8>::empty());
            assert(Seq::<u8>::empty() + Seq::<u8>::empty() =~= Seq::<u8>::empty());
        }
    }
}

/// The streams of a bank add up to the sizes of its events.
proof fn lemma_no_mismatch(p: SplitParts, events: Seq<Seq<u8>>, dict: DictView, b: int)
    requires
        events_once(events),
        dict.wf(),
        gathered(p.tables, pieces_of(events), events.len()),
        p.presence.len() == events.len() * row_bytes(p.tables.len()),
        p.packed.len() == flat_streams(p.tables, dict).len(),
        lengths(flat_streams(p.tables, dict)) <= u32::MAX,
        0 <= b < p.tables.len(),
    ensures
        !stream_mismatch(
            per_column_dir(p, events, dict),
            column_sizes_base(p.tables.len(), events.len()),
            events.len(),
            column_counts(p.tables, dict),
            lens_of(flat_streams(p.tables, dict)),
            b,
        ),
{
    let ts = p.tables;
    let n = ts.len();
    let flat = flat_streams(ts, dict);
    let counts = column_counts(ts, dict);
    let t = ts[b];
    let part = bank_streams(t, dict);
    lemma_sizes_len(ts, events);
    lemma_per_column_dir_reads_back(p, events, dict);
    lemma_flat_base(ts, dict, n);
    assert(ts.subrange(0, n as int) =~= ts);
    lemma_flat_small(flat);
    assert(bank_sizes(
        per_column_dir(p, events, dict),
        column_sizes_base(n, events.len()),
        events.len(),
        b,
    ) == t.sizes);
    lemma_bank_streams_len(events, t, dict);
    lemma_bank_stream_count(t, dict);
    let from = stream_base(counts, b as nat);
    assert(stream_base(counts, (b + 1) as nat) == from + part.len());
    assert forall|c: int| 0 <= c < part.len() implies #[trigger] part[c] == flat[from + c] by {
        lemma_flat_at(ts, dict, b, c);
    }
    lemma_stream_base(counts, (b + 1) as nat, n);
    lemma_sum_of_lens(flat, part, from as int, part.len());
    assert(part.subrange(0, part.len() as int) =~= part);
    lemma_bank_total(ts, dict, b);
}

/// Every table has a size for each event.
proof fn lemma_sizes_len(ts: Seq<TableView>, events: Seq<Seq<u8>>)
    requires
        gathered(ts, pieces_of(events), events.len()),
    ensures
        forall|b: int| 0 <= b < ts.len() ==> (#[trigger] ts[b]).sizes.len() == events.len(),
{
    assert forall|b: int| 0 <= b < ts.len() implies (#[trigger] ts[b]).sizes.len()
        == events.len() by {
        assert(ts[b] == table_of(pieces_of(events), events.len(), ts[b].group, ts[b].item));
    }
}

/// No stream is longer than all together.
proof fn lemma_flat_small(flat: Seq<Seq<u8>>)
    requires
        lengths(flat) <= u32::MAX,
    ensures
        forall|i: int| 0 <= i < flat.len() ==> (#[trigger] flat[i]).len() <= u32::MAX,
{
    lemma_lengths(flat);
    assert forall|i: int| 0 <= i < flat.len() implies (#[trigger] flat[i]).len() <= u32::MAX by {
        lemma_run_le(flat, i);
    }
}

/// The tables of a per-column record are read back.
proof fn lemma_per_column_decodes(
    out: Seq<u8>,
    events: Seq<Seq<u8>>,
    dict: DictView,
    id: RecordIdent,
    p: SplitParts,
) -> (v: PerColumnView)
    requires
        per_column_written(out, events, dict, id, p),
        events_once(events),
        dict.wf(),
    ensures
        per_column_decoded(out) == Outcome::Done(v),
        v.header.compression == CompressionType::Lz4PerColumn,
        v.events() == events.len(),
        v.banks() == p.tables.len(),
        v.tags == tags_of(events),
        v.presence == p.presence,
        v.cols == column_counts(p.tables, dict),
        v.packed == p.packed,
        v.sizes == lens_of(flat_streams(p.tables, dict)),
        v.offsets.len() == p.tables.len(),
        forall|b: int|
            0 <= b < p.tables.len() ==> #[trigger] v.offsets[b] == cumulative(p.tables[b].sizes),
        forall|b: int|
            0 <= b < p.tables.len() ==> #[trigger] v.descriptors[b] == (BankDescriptor {
                group: p.tables[b].group,
                item: p.tables[b].item,
                data_type: p.tables[b].ty,
            }),
        stream_base(column_counts(p.tables, dict), p.tables.len()) == flat_streams(
            p.tables,
            dict,
        ).len(),
{
    let ts = p.tables;
    let n = ts.len();
    let e = events.len();
    let flat = flat_streams(ts, dict);
    let counts = column_counts(ts, dict);
    let d = per_column_dir(p, events, dict);
    let version = EXT_FORMAT_VERSION_PER_COLUMN;
    let s = split_section(version, n, e, p.dir_packed, d.len(), p.packed);
    let kind = CompressionType::Lz4PerColumn;
    let h = header_of(kind, e, lengths(flat), s.len(), id);
    lemma_header_writable(kind, e, lengths(flat), s.len(), id);
    lemma_framed_reads_back(h, s);
    lemma_sizes_len(ts, events);
    lemma_per_column_dir_len(p, events, dict);
    lemma_per_column_dir_reads_back(p, events, dict);
    lemma_directory_reads_back(
        h,
        version,
        crate::wire::constants::EXT_FORMAT_LEGACY_PER_COLUMN,
        6,
        false,
        n,
        d,
        p.dir_packed,
        p.packed,
    );
    lemma_section_reads_back(version, n, e, p.dir_packed, d.len(), p.packed);
    let dv = DirectoryView { banks: n, dir: d, streams_off: (20 + p.dir_packed.len()) as nat };
    let base = column_sizes_base(n, e);
    lemma_flat_base(ts, dict, n);
    assert(ts.subrange(0, n as int) =~= ts);
    assert(u16_table(d, 4 * n as int, n) == counts);
    assert forall|b: int| 0 <= b < n implies !(#[trigger] stream_mismatch(
        d,
        base,
        e,
        counts,
        lens_of(flat),
        b,
    )) by {
        lemma_no_mismatch(p, events, dict, b);
    }
    let v = per_column_of(h, s, dv)->Done_0;
    assert(per_column_of(h, s, dv) == Outcome::Done(v));
    assert(v.cols =~= counts);
    assert(v.tags =~= tags_of(events));
    assert(v.presence =~= p.presence);
    assert(v.packed =~= p.packed);
    assert(v.sizes =~= lens_of(flat));
    assert forall|b: int| 0 <= b < n implies #[trigger] v.offsets[b] == cumulative(ts[b].sizes) by {
        assert(bank_sizes(d, base, e, b) == ts[b].sizes);
    }
    assert forall|b: int| 0 <= b < n implies #[trigger] v.descriptors[b] == (BankDescriptor {
        group: ts[b].group,
        item: ts[b].item,
        data_type: ts[b].ty,
    }) by {
        assert(v.descriptors[b] == descriptors_of(d, n)[b]);
    }
    v
}

/// A bank of an event is put together again.
proof fn lemma_bank_data_back(
    events: Seq<Seq<u8>>,
    t: TableView,
    dict: DictView,
    v: PerColumnView,
    x: int,
    b: int,
    sc: SchemaView,
)
    requires
        events_once(events),
        dict.wf(),
        t == table_of(pieces_of(events), events.len(), t.group, t.item),
        0 <= x < events.len(),
        columnar(t, dict) is None || columnar(t, dict) == Some(sc),
        v.cols[b] == column_count(t, dict),
        v.offsets[b] == cumulative(t.sizes),
        total(t.sizes) <= u32::MAX,
        forall|c: int|
            0 <= c < bank_streams(t, dict).len() ==> #[trigger] v.stream(b, c) == Some(
                bank_streams(t, dict)[c],
            ),
    ensures
        v.bank_data(x, b, sc) == Some(data_in(event_structures(events[x]), t.group, t.item)),
        v.lost_columns(x, b, sc) == Seq::<usize>::empty(),
{
    let e = events.len();
    lemma_bank_stream_count(t, dict);
    lemma_table_once(events, t);
    lemma_event_block(events, t, x);
    lemma_prefix_sum_monotone(t.sizes, x as nat, e);
    lemma_prefix_sum_monotone(t.sizes, (x + 1) as nat, e);
    let block = data_in(event_structures(events[x]), t.group, t.item);
    let size = t.sizes[x] as nat;
    assert(block.len() == size);
    match columnar(t, dict) {
        None => {
            assert(v.stream(b, 0) == Some(bank_streams(t, dict)[0]));
        },
        Some(_) => {
            assert forall|c: int| 0 <= c < sc.entries.len() implies #[trigger] v.stream(b, c)
                == Some(concat(column_runs(t, sc, c))) by {
                assert(v.stream(b, c) == Some(bank_streams(t, dict)[c]));
            }
            lemma_columns_block(events, t, dict, v, x, b, sc.entries.len());
            let rs = sc.row_size as nat;
            let rows = size / rs;
            lemma_all_whole(events, t, rs);
            assert(t.sizes[x] as nat % rs == 0);
            assert(rows * rs == size) by (nonlinear_arith)
                requires
                    rows == size / rs,
                    size % rs == 0,
                    rs > 0,
            ;
            if rows > 0 {
                lemma_table_within_stream(events, t);
                lemma_cells_in_stream(t, sc, 0, x);
                assert(block.subrange(0, size as int) =~= block);
            } else {
                assert(0 * rs == 0) by (nonlinear_arith);
                assert(block =~= Seq::<u8>::empty());
            }
        },
    }
}

/// A per-column record says what its tables say: banks, tags, presence, column counts; and
/// every bank of every event is put together again, byte for byte.
pub proof fn law_per_column_record_reads_back(
    out: Seq<u8>,
    events: Seq<Seq<u8>>,
    dict: DictView,
    id: RecordIdent,
    p: SplitParts,
) -> (v: PerColumnView)
    requires
        per_column_written(out, events, dict, id, p),
        events_once(events),
        dict.wf(),
    ensures
        per_column_decoded(out) == Outcome::Done(v),
        v.wf(),
        v.sorted(),
        v.tags == tags_of(events),
        v.banks() == p.tables.len(),
        v.events() == events.len(),
        v.cols == column_counts(p.tables, dict),
        forall|b: int|
            0 <= b < v.banks() ==> #[trigger] v.descriptors[b] == (BankDescriptor {
                group: p.tables[b].group,
                item: p.tables[b].item,
                data_type: p.tables[b].ty,
            }),
        forall|e: int, b: int|
            0 <= e < v.events() && 0 <= b < v.banks() ==> #[trigger] v.has(e, b) == (found(
                event_structures(events[e]),
                p.tables[b].group,
                p.tables[b].item,
            ) is Some),
        forall|e: int, b: int, s: SchemaView|
            0 <= e < v.events() && 0 <= b < v.banks() && (columnar(p.tables[b], dict) is None
                || columnar(p.tables[b], dict) == Some(s)) ==> #[trigger] v.bank_data(e, b, s)
                == Some(data_in(event_structures(events[e]), p.tables[b].group, p.tables[b].item))
                && v.lost_columns(e, b, s) == Seq::<usize>::empty(),
{
    let ts = p.tables;
    let n = ts.len();
    let e = events.len();
    let flat = flat_streams(ts, dict);
    let counts = column_counts(ts, dict);
    let v = lemma_per_column_decodes(out, events, dict, id, p);
    lemma_flat_small(flat);
    assert forall|b: int| 0 <= b < n implies offsets_grow(#[trigger] v.offsets[b], e) by {
        lemma_sizes_len(ts, events);
        law_cumulative_monotone(ts[b].sizes);
    }
    assert forall|i: int, j: int| 0 <= i < j < v.banks() implies id_order(
        #[trigger] v.descriptors[i],
    ) < id_order(#[trigger] v.descriptors[j]) by {
        assert(ts[i].order() < ts[j].order());
    }
    assert forall|x: int, b: int| 0 <= x < e && 0 <= b < n implies #[trigger] v.has(x, b) == (
    found(event_structures(events[x]), ts[b].group, ts[b].item) is Some) by {
        lemma_table_once(events, ts[b]);
        assert(present(p.presence, n, x, b) == (b < n && ts[b].present[x]));
    }
    assert forall|b: int, c: int|
        0 <= b < n && 0 <= c < bank_streams(ts[b], dict).len() implies #[trigger] v.stream(b, c)
        == Some(bank_streams(ts[b], dict)[c]) by {
        lemma_flat_at(ts, dict, b, c);
        lemma_bank_stream_count(ts[b], dict);
        let k = stream_base(counts, b as nat) + c;
        assert(packs(p.packed[k], flat[k]));
        law_stream_round_trip(Codec::Lz4Hc, p.packed[k], flat[k]);
        assert(v.sizes[k] == flat[k].len());
    }
    assert forall|x: int, b: int, sc: SchemaView|
        0 <= x < e && 0 <= b < n && (columnar(ts[b], dict) is None || columnar(ts[b], dict) == Some(
            sc,
        )) implies #[trigger] v.bank_data(x, b, sc) == Some(
        data_in(event_structures(events[x]), ts[b].group, ts[b].item),
    ) && v.lost_columns(x, b, sc) == Seq::<usize>::empty() by {
        let t = ts[b];
        lemma_bank_total(ts, dict, b);
        lemma_bank_streams_len(events, t, dict);
        assert forall|c: int| 0 <= c < bank_streams(t, dict).len() implies #[trigger] v.stream(
            b,
            c,
        ) == Some(bank_streams(t, dict)[c]) by {}
        lemma_bank_data_back(events, t, dict, v, x, b, sc);
    }
    v
}

/// No bank is longer than all streams together.
proof fn lemma_bank_total(ts: Seq<TableView>, dict: DictView, b: int)
    requires
        0 <= b < ts.len(),
    ensures
        lengths(bank_streams(ts[b], dict)) <= lengths(flat_streams(ts, dict)),
    decreases ts.len(),
{
    let front = ts.drop_last();
    lemma_lengths_add(flat_streams(front, dict), bank_streams(ts.last(), dict));
    if b < front.len() {
        lemma_bank_total(front, dict, b);
    }
}

proof fn lemma_lengths_add(a: Seq<Seq<u8>>, b: Seq<Seq<u8>>)
    ensures
        lengths(a + b) == lengths(a) + lengths(b),
    decreases b.len(),
{
    if b.len() == 0 {
        assert(a + b =~= a);
    } else {
        lemma_lengths_add(a, b.drop_last());
        assert((a + b).drop_last() =~= a + b.drop_last());
    }
}

} // verus!
