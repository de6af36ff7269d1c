//! What a record gives back of the events it was built from.

#![allow(unused_imports)]

use vstd::prelude::*;
use crate::compress::{law_compression_round_trip, law_stream_round_trip};
use crate::event::event::{
    event_structures, found, lemma_structure_sizes, StructView,
};
use crate::schema::dict::DictView;
use crate::seqs::{concat, lemma_concat_at, lemma_concat_prefix, lemma_concat_step, run_start};
use crate::wire::by_bank::{by_bank_decoded, by_bank_of, size_mismatch, sizes_base, ByBankView};
use crate::wire::bytes::{
    law_le16_round_trip, law_le32_round_trip, le16, le32, lemma_u32_at_same, u16_at, u32_at,
};
use crate::wire::constants::{Codec, CompressionType, EXT_FORMAT_VERSION_BY_BANK};
use crate::wire::record::{block_of, record_decoded, RecordView};
use crate::wire::record_header::{law_record_header_round_trip, RecordHeader};
use crate::wire::split::{
    bank_sizes, descriptors_of, directory_of, fixed_len, packed_streams, section_of, BankDescriptor,
    DirectoryView, Outcome,
};
use crate::wire::tables::{
    cumulative, law_u32_table_round_trip, lemma_u32s_bytes_len, prefix_sum, present, row_bytes,
    total, u32_table, u32s_bytes,
};
use crate::write::gather::{
    bank_stream, event_pieces, gathered, pieces_of, seen, seen_in, size_in, table_of, tags_of,
    Piece, TableView,
};
use crate::write::record::{
    block_written, by_bank_dir, by_bank_written, descriptor_bytes, framed, header_of,
    lemma_by_bank_dir_len, lemma_dir_pieces, lemma_header_writable, lemma_lengths,
    lemma_section_len, lens_of, lengths, packs, pad_of, payload_of, size_bytes, split_section,
    streams_of, zeros, RecordIdent, SplitParts, MAX_BODY,
};

verus! {

/// The running sums of lengths say where runs start.
pub proof fn lemma_prefix_is_start(runs: Seq<Seq<u8>>, k: nat)
    requires
        k <= runs.len(),
        forall|i: int| 0 <= i < runs.len() ==> (#[trigger] runs[i]).len() <= u32::MAX,
    ensures
        prefix_sum(lens_of(runs), k) == run_start(runs, k as int),
    decreases k,
{
    if k > 0 {
        lemma_prefix_is_start(runs, (k - 1) as nat);
        lemma_concat_step(runs, k - 1);
        assert(lens_of(runs)[k - 1] == runs[k - 1].len());
    } else {
        assert(runs.subrange(0, 0) =~= Seq::<Seq<u8>>::empty());
    }
}

/// No run is longer than all together.
pub proof fn lemma_run_le(runs: Seq<Seq<u8>>, k: int)
    requires
        0 <= k < runs.len(),
    ensures
        runs[k].len() <= concat(runs).len(),
{
    lemma_concat_at(runs, k);
}

/// The header of a record that was framed is read back, and its payload is found behind it.
pub proof fn lemma_framed_reads_back(h: RecordHeader, body: Seq<u8>)
    requires
        h.writable(),
        h.header_length == 56,
        h.record_length == 56 + body.len() + pad_of(body.len()),
        h.compressed_data_padding == pad_of(body.len()),
    ensures
        RecordHeader::decoded(framed(h, body)) == Ok::<RecordHeader, crate::error::HipoError>(h),
        framed(h, body).len() == h.record_length,
        section_of(framed(h, body), h) =~= body,
        block_of(framed(h, body), h) =~= (if h.compression == CompressionType::Uncompressed {
            body + zeros(pad_of(body.len()))
        } else {
            body
        }),
{
    let rest = body + zeros(pad_of(body.len()));
    law_record_header_round_trip(h, rest);
    assert(framed(h, body) =~= h.encoded() + rest);
    assert(h.encoded().len() == 56);
}

/// A single-block record gives back the events it was built from, in order and byte for byte.
pub proof fn law_block_record_reads_back(
    out: Seq<u8>,
    events: Seq<Seq<u8>>,
    kind: CompressionType,
    id: RecordIdent,
    packed: Seq<u8>,
    dict: Option<DictView>,
)
    requires
        block_written(out, events, kind, id, packed),
        kind.spec_codec() == Codec::Uncompressed ==> kind == CompressionType::Uncompressed,
    ensures
        record_decoded(out, dict) matches Outcome::Done(v) && v.events() =~= events && v.header
            == header_of(kind, events.len(), concat(events).len(), packed.len(), id),
{
    let payload = payload_of(events);
    let n = events.len();
    let h = header_of(kind, n, concat(events).len(), packed.len(), id);
    let lens = lens_of(events);
    lemma_u32s_bytes_len(lens);
    assert(payload.len() == 4 * n + concat(events).len());
    lemma_header_writable(kind, n, concat(events).len(), packed.len(), id);
    lemma_framed_reads_back(h, packed);
    let block = block_of(out, h);
    assert(h.payload_size() == payload.len());
    if kind.spec_codec() == Codec::Uncompressed {
        assert(block.subrange(0, payload.len() as int) =~= payload);
    } else {
        assert(kind != CompressionType::Uncompressed);
        assert(block == packed);
        law_compression_round_trip(kind.spec_codec(), packed, payload);
    }
    assert(crate::compress::decompressed(kind.spec_codec(), block, h.payload_size()) == Some(
        payload,
    ));
    assert(payload.subrange(0, 0 + 4 * n as int) =~= u32s_bytes(lens));
    law_u32_table_round_trip(payload, 0, lens);
    assert(u32_table(payload, 0, n) =~= lens);
    assert forall|i: int| 0 <= i < n implies (#[trigger] events[i]).len() <= u32::MAX by {
        lemma_run_le(events, i);
    }
    assert forall|k: nat| k <= n implies #[trigger] prefix_sum(lens, k) == run_start(
        events,
        k as int,
    ) && run_start(events, k as int) <= concat(events).len() by {
        lemma_prefix_is_start(events, k);
        lemma_concat_prefix(events, k as int);
    }
    assert(events.subrange(0, n as int) =~= events);
    assert(total(lens) == concat(events).len());
    let v = RecordView { header: h, payload, offsets: cumulative(lens) };
    assert(record_decoded(out, dict) == Outcome::Done(v));
    assert forall|i: int| 0 <= i < n implies #[trigger] v.events()[i] == events[i] by {
        lemma_concat_at(events, i);
        lemma_concat_step(events, i);
        assert(prefix_sum(lens, i as nat) == run_start(events, i));
        assert(prefix_sum(lens, (i + 1) as nat) == run_start(events, i + 1));
        let a = run_start(events, i);
        let b = a + events[i].len();
        assert(payload.subrange(4 * n + a, 4 * n + b) =~= concat(events).subrange(a, b));
        assert(v.event(i) =~= events[i]);
    }
}

/// No event has two structures of one id.
pub open spec fn ids_once(sts: Seq<StructView>) -> bool {
    forall|a: int, b: int|
        0 <= a < b < sts.len() ==> !(#[trigger] sts[a].header.group
            == #[trigger] sts[b].header.group && sts[a].header.item == sts[b].header.item)
}

/// The data of the structure with this id; nothing where there is none.
pub open spec fn data_in(sts: Seq<StructView>, group: u16, item: u8) -> Seq<u8> {
    match found(sts, group, item) {
        Some(st) => st.data,
        None => Seq::empty(),
    }
}

/// One structure more at the end.
proof fn lemma_found_push(sts: Seq<StructView>, x: StructView, group: u16, item: u8)
    ensures
        found(sts.push(x), group, item) == (match found(sts, group, item) {
            Some(f) => Some(f),
            None => if x.header.group == group && x.header.item == item {
                Some(x)
            } else {
                None
            },
        }),
    decreases sts.len(),
{
    let all = sts.push(x);
    if sts.len() == 0 {
        assert(all.drop_first() =~= Seq::<StructView>::empty());
        assert(found(all.drop_first(), group, item) is None);
    } else {
        assert(all.drop_first() =~= sts.drop_first().push(x));
        lemma_found_push(sts.drop_first(), x, group, item);
    }
}

/// What is gathered of an event whose ids occur once: its structure with the id.
proof fn lemma_event_gathered(
    ps: Seq<Piece>,
    e: int,
    sts: Seq<StructView>,
    group: u16,
    item: u8,
)
    requires
        ids_once(sts),
        !seen_in(ps, group, item, e),
        size_in(ps, group, item, e) == 0,
    ensures
        ({
            let now = ps + event_pieces(e, sts);
            &&& bank_stream(now, group, item) == bank_stream(ps, group, item) + data_in(
                sts,
                group,
                item,
            )
            &&& seen_in(now, group, item, e) == (found(sts, group, item) is Some)
            &&& size_in(now, group, item, e) == data_in(sts, group, item).len()
            &&& forall|k: int|
                k != e ==> #[trigger] seen_in(now, group, item, k) == seen_in(ps, group, item, k)
            &&& forall|k: int|
                k != e ==> #[trigger] size_in(now, group, item, k) == size_in(ps, group, item, k)
        }),
    decreases sts.len(),
{
    let now = ps + event_pieces(e, sts);
    if sts.len() == 0 {
        assert(now =~= ps);
    } else {
        let front = sts.drop_last();
        let x = sts.last();
        let before = ps + event_pieces(e, front);
        assert(ids_once(front)) by {
            assert forall|a: int, b: int| 0 <= a < b < front.len() implies !(
            #[trigger] front[a].header.group == #[trigger] front[b].header.group
                && front[a].header.item == front[b].header.item) by {
                assert(sts[a].header.group == front[a].header.group);
                assert(sts[b].header.group == front[b].header.group);
            }
        }
        lemma_event_gathered(ps, e, front, group, item);
        assert(now.drop_last() =~= before);
        assert(now.last() == Piece { event: e, st: x });
        assert(front.push(x) =~= sts);
        lemma_found_push(front, x, group, item);
        if x.header.group == group && x.header.item == item {
            if found(front, group, item) is Some {
                crate::event::event::law_found_iff_present(front, group, item);
                let f = found(front, group, item)->0;
                let k = choose|k: int| 0 <= k < front.len() && front[k] == f;
                assert(sts[k].header.group == f.header.group);
                assert(sts[sts.len() - 1].header.group == group);
                assert(false);
            }
        }
        assert forall|k: int| k != e implies #[trigger] seen_in(now, group, item, k) == seen_in(
            ps,
            group,
            item,
            k,
        ) by {
            assert(seen_in(now, group, item, k) == seen_in(now.drop_last(), group, item, k));
            assert(seen_in(before, group, item, k) == seen_in(ps, group, item, k));
        }
        assert forall|k: int| k != e implies #[trigger] size_in(now, group, item, k) == size_in(
            ps,
            group,
            item,
            k,
        ) by {
            assert(size_in(now, group, item, k) == size_in(now.drop_last(), group, item, k));
            assert(size_in(before, group, item, k) == size_in(ps, group, item, k));
        }
        assert(bank_stream(now, group, item) =~= bank_stream(ps, group, item) + data_in(
            sts,
            group,
            item,
        ));
    }
}

/// No two structures of one event have the same id.
pub open spec fn events_once(events: Seq<Seq<u8>>) -> bool {
    forall|e: int| 0 <= e < events.len() ==> ids_once(#[trigger] event_structures(events[e]))
}

/// The data of one bank, event by event.
pub open spec fn bank_runs(events: Seq<Seq<u8>>, group: u16, item: u8) -> Seq<Seq<u8>> {
    events.map_values(|e: Seq<u8>| data_in(event_structures(e), group, item))
}

/// What is gathered of events whose ids occur once.
pub proof fn lemma_gathered_once(events: Seq<Seq<u8>>, group: u16, item: u8)
    requires
        events_once(events),
    ensures
        bank_stream(pieces_of(events), group, item) == concat(bank_runs(events, group, item)),
        forall|e: int|
            0 <= e < events.len() ==> #[trigger] seen_in(pieces_of(events), group, item, e) == (
            found(event_structures(events[e]), group, item) is Some),
        forall|e: int|
            0 <= e < events.len() ==> #[trigger] size_in(pieces_of(events), group, item, e)
                == bank_runs(events, group, item)[e].len(),
        forall|e: int|
            e >= events.len() ==> !(#[trigger] seen_in(pieces_of(events), group, item, e)),
        forall|e: int|
            e >= events.len() ==> (#[trigger] size_in(pieces_of(events), group, item, e)) == 0,
    decreases events.len(),
{
    let ps = pieces_of(events);
    if events.len() == 0 {
        assert(bank_runs(events, group, item) =~= Seq::<Seq<u8>>::empty());
    } else {
        let front = events.drop_last();
        let e = events.len() - 1;
        let sts = event_structures(events.last());
        assert(events_once(front)) by {
            assert forall|k: int| 0 <= k < front.len() implies ids_once(
                #[trigger] event_structures(front[k]),
            ) by {
                assert(front[k] == events[k]);
                assert(ids_once(event_structures(events[k])));
            }
        }
        assert(ids_once(event_structures(events[e])));
        lemma_gathered_once(front, group, item);
        let before = pieces_of(front);
        assert(!seen_in(before, group, item, e));
        assert(size_in(before, group, item, e) == 0);
        lemma_event_gathered(before, e, sts, group, item);
        assert(ps == before + event_pieces(e, sts));
        let runs = bank_runs(events, group, item);
        assert(runs.drop_last() =~= bank_runs(front, group, item));
        assert forall|k: int| 0 <= k < events.len() implies #[trigger] seen_in(ps, group, item, k)
            == (found(event_structures(events[k]), group, item) is Some) by {
            if k < e {
                assert(front[k] == events[k]);
                assert(seen_in(before, group, item, k) == (found(
                    event_structures(front[k]),
                    group,
                    item,
                ) is Some));
            }
        }
        assert forall|k: int| 0 <= k < events.len() implies #[trigger] size_in(ps, group, item, k)
            == runs[k].len() by {
            if k < e {
                assert(size_in(before, group, item, k) == bank_runs(front, group, item)[k].len());
            }
        }
        assert forall|k: int| k >= events.len() implies !(#[trigger] seen_in(
            ps,
            group,
            item,
            k,
        )) by {
            assert(!seen_in(before, group, item, k));
        }
        assert forall|k: int| k >= events.len() implies (#[trigger] size_in(ps, group, item, k))
            == 0 by {
            assert(size_in(before, group, item, k) == 0);
        }
    }
}

/// A bank's data in an event fits the size field of a structure.
pub proof fn lemma_bank_run_small(events: Seq<Seq<u8>>, group: u16, item: u8, e: int)
    requires
        0 <= e < events.len(),
    ensures
        bank_runs(events, group, item)[e].len() < 0x100_0000,
{
    let ev = events[e];
    let sts = event_structures(ev);
    crate::event::event::law_found_iff_present(sts, group, item);
    if let Some(f) = found(sts, group, item) {
        let k = choose|k: int| 0 <= k < sts.len() && sts[k] == f;
        lemma_structure_sizes(ev, 16, crate::event::event::event_end(ev), k);
    }
}

/// The tables of events whose ids occur once: sizes are those of the bank's data in each event,
/// and the stream is that data laid end to end.
pub proof fn lemma_table_once(events: Seq<Seq<u8>>, t: TableView)
    requires
        events_once(events),
        t == table_of(pieces_of(events), events.len(), t.group, t.item),
    ensures
        t.stream == concat(bank_runs(events, t.group, t.item)),
        t.sizes =~= lens_of(bank_runs(events, t.group, t.item)),
        forall|e: int|
            0 <= e < events.len() ==> #[trigger] t.present[e] == (found(
                event_structures(events[e]),
                t.group,
                t.item,
            ) is Some),
        forall|k: nat|
            k <= events.len() ==> #[trigger] prefix_sum(t.sizes, k) == run_start(
                bank_runs(events, t.group, t.item),
                k as int,
            ),
        total(t.sizes) == t.stream.len(),
{
    let runs = bank_runs(events, t.group, t.item);
    let ps = pieces_of(events);
    lemma_gathered_once(events, t.group, t.item);
    assert forall|e: int| 0 <= e < events.len() implies t.sizes[e] == lens_of(runs)[e] by {
        assert(size_in(ps, t.group, t.item, e) == runs[e].len());
    }
    assert(t.sizes =~= lens_of(runs));
    assert forall|e: int| 0 <= e < events.len() implies #[trigger] t.present[e] == (found(
        event_structures(events[e]),
        t.group,
        t.item,
    ) is Some) by {
        assert(seen_in(ps, t.group, t.item, e) == (found(
            event_structures(events[e]),
            t.group,
            t.item,
        ) is Some));
    }
    assert forall|e: int| 0 <= e < runs.len() implies (#[trigger] runs[e]).len() <= u32::MAX by {
        lemma_bank_run_small(events, t.group, t.item, e);
    }
    assert forall|k: nat| k <= events.len() implies #[trigger] prefix_sum(t.sizes, k) == run_start(
        runs,
        k as int,
    ) by {
        lemma_prefix_is_start(runs, k);
    }
    assert(runs.subrange(0, runs.len() as int) =~= runs);
    assert(prefix_sum(t.sizes, events.len()) == run_start(runs, events.len() as int));
}

/// The words and streams of a section are read back.
pub proof fn lemma_section_reads_back(
    version: u8,
    banks: nat,
    events: nat,
    dir_packed: Seq<u8>,
    dl: nat,
    packed: Seq<Seq<u8>>,
)
    requires
        banks <= u32::MAX,
        events <= u32::MAX,
        dl <= u32::MAX,
        split_section(version, banks, events, dir_packed, dl, packed).len() <= MAX_BODY,
    ensures
        ({
            let s = split_section(version, banks, events, dir_packed, dl, packed);
            &&& s.len() == 20 + dir_packed.len() + concat(packed).len()
            &&& s[0] == version
            &&& u32_at(s, 4) == banks
            &&& u32_at(s, 8) == events
            &&& u32_at(s, 12) == dir_packed.len()
            &&& u32_at(s, 16) == dl
            &&& s.subrange(20, 20 + dir_packed.len() as int) =~= dir_packed
            &&& total(lens_of(packed)) == concat(packed).len()
            &&& packed_streams(s, (20 + dir_packed.len()) as nat, lens_of(packed)) =~= packed
        }),
{
    let s = split_section(version, banks, events, dir_packed, dl, packed);
    lemma_section_len(version, banks, events, dir_packed, dl, packed);
    let (a, b, c, d) = (
        le32(banks as u32),
        le32(events as u32),
        le32(dir_packed.len() as u32),
        le32(dl as u32),
    );
    law_le32_round_trip(banks as u32);
    law_le32_round_trip(events as u32);
    law_le32_round_trip(dir_packed.len() as u32);
    law_le32_round_trip(dl as u32);
    assert(s[4] == a[0] && s[5] == a[1] && s[6] == a[2] && s[7] == a[3]);
    assert(s[8] == b[0] && s[9] == b[1] && s[10] == b[2] && s[11] == b[3]);
    assert(s[12] == c[0] && s[13] == c[1] && s[14] == c[2] && s[15] == c[3]);
    assert(s[16] == d[0] && s[17] == d[1] && s[18] == d[2] && s[19] == d[3]);
    lemma_u32_at_same(s, 4, a, 0);
    lemma_u32_at_same(s, 8, b, 0);
    lemma_u32_at_same(s, 12, c, 0);
    lemma_u32_at_same(s, 16, d, 0);
    let off = (20 + dir_packed.len()) as nat;
    let lens = lens_of(packed);
    assert forall|i: int| 0 <= i < packed.len() implies (#[trigger] packed[i]).len()
        <= u32::MAX by {
        lemma_run_le(packed, i);
    }
    lemma_prefix_is_start(packed, packed.len());
    assert(packed.subrange(0, packed.len() as int) =~= packed);
    assert forall|k: int| 0 <= k < packed.len() implies #[trigger] packed_streams(s, off, lens)[k]
        == packed[k] by {
        lemma_prefix_is_start(packed, k as nat);
        lemma_concat_at(packed, k);
        let p = run_start(packed, k);
        assert(s.subrange(off + p, off + p + packed[k].len()) =~= concat(packed).subrange(
            p,
            p + packed[k].len(),
        ));
    }
}

/// Descriptors at the front of a directory are read back.
pub proof fn lemma_descriptors_read_back(dir: Seq<u8>, ts: Seq<TableView>)
    requires
        descriptor_bytes(ts).len() <= dir.len(),
        dir.subrange(0, descriptor_bytes(ts).len() as int) == descriptor_bytes(ts),
    ensures
        descriptor_bytes(ts).len() == 4 * ts.len(),
        forall|b: int|
            0 <= b < ts.len() ==> #[trigger] descriptors_of(dir, ts.len())[b] == (BankDescriptor {
                group: ts[b].group,
                item: ts[b].item,
                data_type: ts[b].ty,
            }),
    decreases ts.len(),
{
    if ts.len() > 0 {
        let front = ts.drop_last();
        let t = ts.last();
        let g = le16(t.group);
        law_le16_round_trip(t.group);
        let all = descriptor_bytes(ts);
        let fb = descriptor_bytes(front);
        assert(all == fb + g + seq![t.item, t.ty]);
        assert(dir.subrange(0, fb.len() as int) =~= fb) by {
            assert(all.subrange(0, fb.len() as int) =~= fb);
            assert(dir.subrange(0, all.len() as int).subrange(0, fb.len() as int) =~= dir.subrange(
                0,
                fb.len() as int,
            ));
        }
        lemma_descriptors_read_back(dir, front);
        let n = front.len();
        let p = 4 * n as int;
        assert(dir[p] == dir.subrange(0, all.len() as int)[p]);
        assert(dir[p + 1] == dir.subrange(0, all.len() as int)[p + 1]);
        assert(dir[p + 2] == dir.subrange(0, all.len() as int)[p + 2]);
        assert(dir[p + 3] == dir.subrange(0, all.len() as int)[p + 3]);
        assert(all[p] == g[0] && all[p + 1] == g[1] && all[p + 2] == t.item && all[p + 3] == t.ty);
        assert(u16_at(dir, p) == t.group) by {
            reveal(u16_at);
        }
        assert forall|b: int| 0 <= b < ts.len() implies #[trigger] descriptors_of(
            dir,
            ts.len(),
        )[b] == (BankDescriptor { group: ts[b].group, item: ts[b].item, data_type: ts[b].ty }) by {
            if b < n {
                assert(descriptors_of(dir, n)[b] == (BankDescriptor {
                    group: front[b].group,
                    item: front[b].item,
                    data_type: front[b].ty,
                }));
            }
        }
    }
}

/// The size table of a bank is found in the tables of all.
proof fn lemma_size_bytes_at(ts: Seq<TableView>, events: nat, b: int)
    requires
        0 <= b < ts.len(),
        forall|k: int| 0 <= k < ts.len() ==> (#[trigger] ts[k]).sizes.len() == events,
    ensures
        0 <= 4 * (b * events),
        4 * (b * events) + 4 * events <= size_bytes(ts).len(),
        size_bytes(ts).subrange(4 * (b * events), 4 * (b * events) + 4 * events) =~= u32s_bytes(
            ts[b].sizes,
        ),
    decreases ts.len(),
{
    let front = ts.drop_last();
    let n = front.len();
    lemma_dir_pieces(front, events);
    lemma_dir_pieces(ts, events);
    lemma_u32s_bytes_len(ts.last().sizes);
    assert(0 <= 4 * (b * events)) by (nonlinear_arith)
        requires
            b >= 0,
            events >= 0,
    ;
    if b < n {
        lemma_size_bytes_at(front, events, b);
        let a = 4 * (b * events);
        assert(size_bytes(ts).subrange(a, a + 4 * events) =~= size_bytes(front).subrange(
            a,
            a + 4 * events,
        ));
    }
}

/// The size tables of a directory are read back.
pub proof fn lemma_sizes_read_back(
    dir: Seq<u8>,
    base: int,
    ts: Seq<TableView>,
    events: nat,
    b: int,
)
    requires
        0 <= base,
        base + size_bytes(ts).len() <= dir.len(),
        dir.subrange(base, base + size_bytes(ts).len()) == size_bytes(ts),
        0 <= b < ts.len(),
        forall|k: int| 0 <= k < ts.len() ==> (#[trigger] ts[k]).sizes.len() == events,
    ensures
        bank_sizes(dir, base, events, b) =~= ts[b].sizes,
{
    lemma_size_bytes_at(ts, events, b);
    let a = 4 * (b * events);
    assert(dir.subrange(base + a, base + a + 4 * events) =~= dir.subrange(
        base,
        base + size_bytes(ts).len(),
    ).subrange(a, a + 4 * events));
    law_u32_table_round_trip(dir, base + a, ts[b].sizes);
}

/// The directory of a per-bank record is read back.
proof fn lemma_by_bank_dir_reads_back(p: SplitParts, events: Seq<Seq<u8>>)
    requires
        forall|b: int|
            0 <= b < p.tables.len() ==> (#[trigger] p.tables[b]).sizes.len() == events.len(),
        p.presence.len() == events.len() * row_bytes(p.tables.len()),
        p.packed.len() == p.tables.len(),
    ensures
        ({
            let d = by_bank_dir(p, events);
            let n = p.tables.len();
            let e = events.len();
            &&& forall|b: int|
                0 <= b < n ==> #[trigger] descriptors_of(d, n)[b] == (BankDescriptor {
                    group: p.tables[b].group,
                    item: p.tables[b].item,
                    data_type: p.tables[b].ty,
                })
            &&& u32_table(d, 4 * n as int, n) =~= lens_of(p.packed)
            &&& u32_table(d, 8 * n as int, n) =~= lens_of(streams_of(p.tables))
            &&& u32_table(d, 12 * n as int, e) =~= tags_of(events)
            &&& d.subrange(
                (12 * n + 4 * e) as int,
                (12 * n + 4 * e + e * row_bytes(n)) as int,
            ) =~= p.presence
            &&& forall|b: int|
                0 <= b < n ==> #[trigger] bank_sizes(d, sizes_base(n, e), e, b)
                    == p.tables[b].sizes
        }),
{
    let d = by_bank_dir(p, events);
    let n = p.tables.len();
    let e = events.len();
    lemma_by_bank_dir_len(p, events);
    lemma_dir_pieces(p.tables, e);
    lemma_u32s_bytes_len(lens_of(p.packed));
    lemma_u32s_bytes_len(lens_of(streams_of(p.tables)));
    lemma_u32s_bytes_len(tags_of(events));
    assert(e * row_bytes(n) >= 0) by (nonlinear_arith);
    assert(4 * (n * e) >= 0) by (nonlinear_arith);
    assert(d.subrange(0, 4 * n as int) =~= descriptor_bytes(p.tables));
    lemma_descriptors_read_back(d, p.tables);
    assert(d.subrange(4 * n as int, (4 * n + 4 * n) as int) =~= u32s_bytes(lens_of(p.packed)));
    law_u32_table_round_trip(d, 4 * n as int, lens_of(p.packed));
    assert(d.subrange(8 * n as int, (8 * n + 4 * n) as int) =~= u32s_bytes(
        lens_of(streams_of(p.tables)),
    ));
    law_u32_table_round_trip(d, 8 * n as int, lens_of(streams_of(p.tables)));
    assert(d.subrange(12 * n as int, (12 * n + 4 * e) as int) =~= u32s_bytes(tags_of(events)));
    law_u32_table_round_trip(d, 12 * n as int, tags_of(events));
    let base = sizes_base(n, e);
    assert(d.subrange(base, base + size_bytes(p.tables).len()) =~= size_bytes(p.tables));
    assert forall|b: int| 0 <= b < n implies #[trigger] bank_sizes(d, base, e, b)
        == p.tables[b].sizes by {
        lemma_sizes_read_back(d, base, p.tables, e, b);
    }
}

/// The directory of a split record is read back from its section.
pub proof fn lemma_directory_reads_back(
    h: RecordHeader,
    version: u8,
    legacy: u8,
    per_bank: nat,
    by_bank: bool,
    banks: nat,
    dir: Seq<u8>,
    dir_packed: Seq<u8>,
    packed: Seq<Seq<u8>>,
)
    requires
        banks <= u32::MAX,
        dir.len() <= u32::MAX,
        split_section(version, banks, h.event_count as nat, dir_packed, dir.len(), packed).len()
            <= MAX_BODY,
        packs(dir_packed, dir),
        h.compression.spec_codec() == Codec::Lz4Hc,
        dir.len() >= fixed_len(per_bank, banks, h.event_count as nat),
    ensures
        directory_of(
            h,
            split_section(version, banks, h.event_count as nat, dir_packed, dir.len(), packed),
            version,
            legacy,
            per_bank,
            by_bank,
        ) == Outcome::Done(
            DirectoryView { banks, dir, streams_off: (20 + dir_packed.len()) as nat },
        ),
{
    lemma_section_reads_back(
        version,
        banks,
        h.event_count as nat,
        dir_packed,
        dir.len(),
        packed,
    );
    law_stream_round_trip(Codec::Lz4Hc, dir_packed, dir);
}

/// A per-bank record says what its tables say: banks, tags, presence, and streams.
pub proof fn law_by_bank_record_reads_back(
    out: Seq<u8>,
    events: Seq<Seq<u8>>,
    id: RecordIdent,
    p: SplitParts,
) -> (v: ByBankView)
    requires
        by_bank_written(out, events, id, p),
        events_once(events),
    ensures
        by_bank_decoded(out) == Outcome::Done(v),
        v.wf(),
        v.tags == tags_of(events),
        v.banks() == p.tables.len(),
        v.events() == events.len(),
        forall|b: int|
            0 <= b < v.banks() ==> #[trigger] v.descriptors[b] == (BankDescriptor {
                group: p.tables[b].group,
                item: p.tables[b].item,
                data_type: p.tables[b].ty,
            }),
        forall|e: int, b: int|
            0 <= e < v.events() && 0 <= b < v.banks() ==> #[trigger] v.has(e, b) == (found(
                event_structures(events[e]),
                p.tables[b].group,
                p.tables[b].item,
            ) is Some),
        forall|e: int, b: int|
            0 <= e < v.events() && 0 <= b < v.banks() ==> #[trigger] v.bank_data(e, b) == Some(
                data_in(event_structures(events[e]), p.tables[b].group, p.tables[b].item),
            ),
{
    let ts = p.tables;
    let n = ts.len();
    let e = events.len();
    let ps = pieces_of(events);
    let d = by_bank_dir(p, events);
    let s = split_section(
        EXT_FORMAT_VERSION_BY_BANK,
        n,
        e,
        p.dir_packed,
        d.len(),
        p.packed,
    );
    let kind = CompressionType::Lz4PerBank;
    let data = lengths(streams_of(ts));
    let h = header_of(kind, e, data, s.len(), id);
    lemma_header_writable(kind, e, data, s.len(), id);
    lemma_framed_reads_back(h, s);
    assert forall|b: int| 0 <= b < n implies (#[trigger] ts[b]).sizes.len() == e by {
        assert(ts[b] == table_of(ps, e, ts[b].group, ts[b].item));
    }
    lemma_by_bank_dir_len(p, events);
    lemma_by_bank_dir_reads_back(p, events);
    lemma_directory_reads_back(
        h,
        EXT_FORMAT_VERSION_BY_BANK,
        crate::wire::constants::EXT_FORMAT_LEGACY_BY_BANK,
        12,
        true,
        n,
        d,
        p.dir_packed,
        p.packed,
    );
    lemma_section_reads_back(
        EXT_FORMAT_VERSION_BY_BANK,
        n,
        e,
        p.dir_packed,
        d.len(),
        p.packed,
    );
    let off = (20 + p.dir_packed.len()) as nat;
    let dv = DirectoryView { banks: n, dir: d, streams_off: off };
    let base = sizes_base(n, e);
    let sizes = u32_table(d, 8 * n as int, n);
    lemma_lengths(streams_of(ts));
    assert forall|b: int| 0 <= b < n implies !(#[trigger] size_mismatch(d, base, e, sizes, b)) by {
        assert(bank_sizes(d, base, e, b) == ts[b].sizes);
        lemma_table_once(events, ts[b]);
        lemma_run_le(streams_of(ts), b);
        assert(streams_of(ts)[b] == ts[b].stream);
        assert(sizes[b] == lens_of(streams_of(ts))[b]);
    }
    let v = by_bank_of(h, s, dv)->Done_0;
    assert(by_bank_of(h, s, dv) == Outcome::Done(v));
    assert(by_bank_decoded(out) == Outcome::Done(v));
    assert forall|b: int| 0 <= b < n implies crate::wire::by_bank::offsets_ok(
        #[trigger] v.offsets[b],
        e,
        v.sizes[b],
    ) by {
        crate::wire::tables::law_cumulative_monotone(bank_sizes(d, base, e, b));
        assert(!size_mismatch(d, base, e, sizes, b));
    }
    assert forall|x: int, b: int| 0 <= x < e && 0 <= b < n implies #[trigger] v.has(x, b) == (
    found(event_structures(events[x]), ts[b].group, ts[b].item) is Some) by {
        lemma_table_once(events, ts[b]);
        assert(present(p.presence, n, x, b) == (b < n && ts[b].present[x]));
    }
    assert forall|x: int, b: int| 0 <= x < e && 0 <= b < n implies #[trigger] v.bank_data(x, b)
        == Some(data_in(event_structures(events[x]), ts[b].group, ts[b].item)) by {
        let t = ts[b];
        let runs = bank_runs(events, t.group, t.item);
        lemma_table_once(events, t);
        lemma_run_le(streams_of(ts), b);
        assert(streams_of(ts)[b] == t.stream);
        assert(sizes[b] == t.stream.len());
        assert(packs(p.packed[b], streams_of(ts)[b]));
        law_stream_round_trip(Codec::Lz4Hc, p.packed[b], t.stream);
        assert(v.stream(b) == Some(t.stream));
        assert(bank_sizes(d, base, e, b) == t.sizes);
        assert(v.offsets[b] == cumulative(t.sizes));
        assert(prefix_sum(t.sizes, x as nat) == run_start(runs, x));
        assert(prefix_sum(t.sizes, (x + 1) as nat) == run_start(runs, x + 1));
        lemma_concat_at(runs, x);
        lemma_concat_step(runs, x);
        lemma_concat_prefix(runs, x + 1);
        assert(runs[x] == data_in(event_structures(events[x]), t.group, t.item));
    }
    v
}

/// Every structure of every event has a bank in the record, and no bank is listed twice.
pub proof fn law_gathered_banks_cover(ts: Seq<TableView>, events: Seq<Seq<u8>>, e: int, k: int)
    requires
        gathered(ts, pieces_of(events), events.len()),
        0 <= e < events.len(),
        0 <= k < event_structures(events[e]).len(),
    ensures
        exists|b: int|
            0 <= b < ts.len() && (#[trigger] ts[b]).group == event_structures(
                events[e],
            )[k].header.group && ts[b].item == event_structures(events[e])[k].header.item,
{
    let st = event_structures(events[e])[k];
    lemma_piece_seen(events, e, k);
    assert(seen(pieces_of(events), st.header.group, st.header.item));
}

/// A structure of an event is among the pieces.
proof fn lemma_piece_seen(events: Seq<Seq<u8>>, e: int, k: int)
    requires
        0 <= e < events.len(),
        0 <= k < event_structures(events[e]).len(),
    ensures
        seen(
            pieces_of(events),
            event_structures(events[e])[k].header.group,
            event_structures(events[e])[k].header.item,
        ),
    decreases events.len(),
{
    let front = events.drop_last();
    let last = events.len() - 1;
    let st = event_structures(events[e])[k];
    let (g, i) = (st.header.group, st.header.item);
    let tail = event_pieces(last, event_structures(events.last()));
    if e < last {
        assert(front[e] == events[e]);
        lemma_piece_seen(front, e, k);
        lemma_seen_append(pieces_of(front), tail, g, i);
    } else {
        lemma_seen_at(pieces_of(front) + tail, pieces_of(front).len() + k, g, i);
    }
}

proof fn lemma_seen_append(a: Seq<Piece>, b: Seq<Piece>, g: u16, i: u8)
    requires
        seen(a, g, i),
    ensures
        seen(a + b, g, i),
    decreases b.len(),
{
    if b.len() == 0 {
        assert(a + b =~= a);
    } else {
        lemma_seen_append(a, b.drop_last(), g, i);
        assert((a + b).drop_last() =~= a + b.drop_last());
    }
}

proof fn lemma_seen_at(ps: Seq<Piece>, k: int, g: u16, i: u8)
    requires
        0 <= k < ps.len(),
        ps[k].is(g, i),
    ensures
        seen(ps, g, i),
    decreases ps.len(),
{
    if k < ps.len() - 1 {
        lemma_seen_at(ps.drop_last(), k, g, i);
    }
}

} // verus!
