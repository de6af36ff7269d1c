//! Normalisation of a big-endian record's decompressed payload to little-endian.
//!
//! A record says in its header's magic word which byte order it was written in. A big-endian
//! payload is swapped once, in place, right after decompression, so that everything after it
//! reads little-endian layout. What is swapped, in payload order:
//!
//! - the index array, one word per event;
//! - the size, tag and reserved words of each event header (the magic is character data, but a
//!   writer that stored it as a word leaves it reversed, so a reversed magic is put right);
//! - the group and length words of each structure header;
//! - each structure's data, element by element, by the columns of its schema, or by its inline
//!   format string where it is composite.
//!
//! A structure that is neither composite nor in the dictionary has no known layout: its data
//! stays as it is.

use vstd::prelude::*;
use crate::event::composite::parse_format_bytes;
#[allow(unused_imports)]
use crate::event::composite::{field_sizes, field_types, lemma_field_sizes_monotone};
#[allow(unused_imports)]
use crate::event::event::header_at;
use crate::event::event::StructureHeader;
use crate::schema::dict::Dict;
#[allow(unused_imports)]
use crate::schema::dict::DictView;
use crate::schema::types::DataType;
#[allow(unused_imports)]
use crate::schema::types::EntryView;
use crate::wire::bytes::read_u32_le;
#[allow(unused_imports)]
use crate::wire::bytes::u32_at;
use crate::wire::constants::{FILE_INDEX_GROUP, FILE_INDEX_ITEM};
use crate::wire::record_header::RecordHeader;

verus! {

/// `s` with the `w` bytes from `off` on in reverse; `s` where it has no such bytes.
pub open spec fn reversed_at(s: Seq<u8>, off: int, w: int) -> Seq<u8> {
    if 0 <= off && off + w <= s.len() {
        Seq::new(
            s.len(),
            |k: int|
                if off <= k < off + w {
                    s[2 * off + w - 1 - k]
                } else {
                    s[k]
                },
        )
    } else {
        s
    }
}

/// `s` with each of the `n` elements of `elem` bytes from `off` on reversed.
pub open spec fn swapped_run(s: Seq<u8>, off: int, n: nat, elem: int) -> Seq<u8>
    decreases n,
{
    if n == 0 {
        s
    } else {
        reversed_at(swapped_run(s, off, (n - 1) as nat, elem), off + (n - 1) * elem, elem)
    }
}

/// Swapping keeps the length.
pub proof fn lemma_swapped_run_len(s: Seq<u8>, off: int, n: nat, elem: int)
    ensures
        swapped_run(s, off, n, elem).len() == s.len(),
    decreases n,
{
    if n > 0 {
        lemma_swapped_run_len(s, off, (n - 1) as nat, elem);
    }
}

/// Reversing bytes behind a run does not disturb the run.
proof fn lemma_reverse_commutes(s: Seq<u8>, off: int, n: nat, elem: int, at: int)
    requires
        0 <= off,
        elem > 0,
        off + n * elem <= at,
        at + elem <= s.len(),
    ensures
        swapped_run(reversed_at(s, at, elem), off, n, elem) =~= reversed_at(
            swapped_run(s, off, n, elem),
            at,
            elem,
        ),
    decreases n,
{
    if n > 0 {
        let m = (n - 1) as nat;
        assert(n * elem == m * elem + elem && m * elem >= 0) by (nonlinear_arith)
            requires
                n == m + 1,
                elem > 0,
                m >= 0,
        ;
        lemma_reverse_commutes(s, off, m, elem, at);
        lemma_swapped_run_len(s, off, m, elem);
        lemma_swapped_run_len(reversed_at(s, at, elem), off, m, elem);
        let t = swapped_run(s, off, m, elem);
        let p = off + m * elem;
        assert(reversed_at(reversed_at(t, at, elem), p, elem) =~= reversed_at(
            reversed_at(t, p, elem),
            at,
            elem,
        ));
    }
}

/// Swapping the elements of a run twice leaves it as it was.
pub proof fn law_swap_is_an_involution(s: Seq<u8>, off: int, n: nat, elem: int)
    requires
        0 <= off,
        elem > 0,
        off + n * elem <= s.len(),
    ensures
        swapped_run(swapped_run(s, off, n, elem), off, n, elem) =~= s,
    decreases n,
{
    if n > 0 {
        let m = (n - 1) as nat;
        assert(n * elem == m * elem + elem && m * elem >= 0) by (nonlinear_arith)
            requires
                n == m + 1,
                elem > 0,
                m >= 0,
        ;
        let p = off + m * elem;
        let t = swapped_run(s, off, m, elem);
        lemma_swapped_run_len(s, off, m, elem);
        law_swap_is_an_involution(s, off, m, elem);
        lemma_reverse_commutes(t, off, m, elem, p);
        assert(reversed_at(reversed_at(s, p, elem), p, elem) =~= s);
    }
}

/// One column: bytes per element, and elements per row.
pub struct ColumnShape {
    pub elem: usize,
    pub length: u32,
}

/// `s` with the columns from number `i` on swapped. They lie one after the other from `off`
/// on, with `rows` rows each, and the first that does not end by `end` stops the walk.
pub open spec fn columns_swapped(
    s: Seq<u8>,
    off: int,
    end: int,
    rows: nat,
    cols: Seq<(nat, nat)>,
    i: nat,
) -> Seq<u8>
    decreases cols.len() - i,
{
    if i >= cols.len() {
        s
    } else {
        let elem = cols[i as int].0;
        let n = rows * cols[i as int].1;
        if off + n * elem > end {
            s
        } else {
            columns_swapped(
                swapped_run(s, off, n, elem as int),
                off + n * elem,
                end,
                rows,
                cols,
                i + 1,
            )
        }
    }
}

/// The columns of the file-index bank: position, length, entries, two user words.
pub open spec fn index_columns() -> Seq<(nat, nat)> {
    seq![(8, 1), (4, 1), (4, 1), (8, 1), (8, 1)]
}

/// The columns of a schema.
pub open spec fn schema_columns(entries: Seq<EntryView>) -> Seq<(nat, nat)> {
    entries.map_values(|e: EntryView| (e.ty.spec_size(), e.length as nat))
}

/// `s` with the first `k` fields of the row at `base` swapped.
pub open spec fn fields_swapped(s: Seq<u8>, base: int, types: Seq<DataType>, k: nat) -> Seq<u8>
    decreases k,
{
    if k == 0 {
        s
    } else {
        reversed_at(
            fields_swapped(s, base, types, (k - 1) as nat),
            base + field_sizes(types, (k - 1) as nat),
            types[k - 1].spec_size() as int,
        )
    }
}

/// `s` with the fields of the first `n` rows from `base` on swapped.
pub open spec fn rows_swapped(s: Seq<u8>, base: int, types: Seq<DataType>, n: nat) -> Seq<u8>
    decreases n,
{
    if n == 0 {
        s
    } else {
        fields_swapped(
            rows_swapped(s, base, types, (n - 1) as nat),
            base + (n - 1) * field_sizes(types, types.len()),
            types,
            types.len(),
        )
    }
}

/// `s` with the composite data in `[start, end)` swapped, whose format string has
/// `format_size` bytes. A format that cannot be read leaves everything as it is.
pub open spec fn composite_swapped(s: Seq<u8>, start: int, end: int, format_size: int) -> Seq<u8> {
    let format = s.subrange(start, start + format_size);
    let types = field_types(vstd::utf8::decode_utf8(format));
    if format_size > end - start || !vstd::utf8::valid_utf8(format) || types.len() == 0 {
        s
    } else {
        let w = field_sizes(types, types.len());
        rows_swapped(
            s,
            start + format_size,
            types,
            ((end - start - format_size) / w as int) as nat,
        )
    }
}

/// `s` with the data in `[start, end)` of the structure with header `h` swapped.
pub open spec fn structure_swapped(
    s: Seq<u8>,
    start: int,
    end: int,
    h: StructureHeader,
    dict: Option<DictView>,
) -> Seq<u8> {
    if start >= end {
        s
    } else if h.header_size > 0 {
        composite_swapped(s, start, end, h.header_size as int)
    } else if h.group == FILE_INDEX_GROUP && h.item == FILE_INDEX_ITEM {
        columns_swapped(s, start, end, ((end - start) / 32) as nat, index_columns(), 0)
    } else {
        match dict {
            None => s,
            Some(d) => match d.by_id(h.group, h.item) {
                None => s,
                Some(schema) => if schema.row_size == 0 {
                    s
                } else {
                    columns_swapped(
                        s,
                        start,
                        end,
                        ((end - start) / schema.row_size as int) as nat,
                        schema_columns(schema.entries),
                        0,
                    )
                },
            },
        }
    }
}

/// `s` with the structures from `pos` on swapped, up to the first that does not end by `end`,
/// of which the header alone is swapped.
pub open spec fn structures_swapped(
    s: Seq<u8>,
    pos: int,
    end: int,
    dict: Option<DictView>,
) -> Seq<u8>
    decreases end - pos,
{
    if pos + 8 > end {
        s
    } else {
        let t = reversed_at(reversed_at(s, pos, 2), pos + 4, 4);
        let h = header_at(t, pos);
        if pos + 8 + h.data_size > end {
            t
        } else {
            structures_swapped(
                structure_swapped(t, pos + 8, pos + 8 + h.data_size, h, dict),
                pos + 8 + h.data_size,
                end,
                dict,
            )
        }
    }
}

/// `s` with the magic at `off` put right.
pub open spec fn magic_righted(s: Seq<u8>, off: int) -> Seq<u8> {
    if s[off] == 0x54 && s[off + 1] == 0x4E && s[off + 2] == 0x56 && s[off + 3] == 0x45 {
        reversed_at(s, off, 4)
    } else {
        s
    }
}

/// `s` with the event in `[off, end)` swapped.
pub open spec fn event_swapped(s: Seq<u8>, off: int, end: int, dict: Option<DictView>) -> Seq<u8> {
    if end - off < 16 {
        s
    } else {
        let t = reversed_at(
            reversed_at(reversed_at(magic_righted(s, off), off + 4, 4), off + 8, 4),
            off + 12,
            4,
        );
        let size = u32_at(t, off + 4);
        let stop = if size < end - off {
            off + size
        } else {
            end
        };
        structures_swapped(t, off + 16, stop, dict)
    }
}

/// `s` with the events from number `i` on swapped, the first of which starts at `off`. Their
/// lengths stand in the index array, which is little-endian by now; the first event that does
/// not end within `s` stops the walk.
pub open spec fn events_swapped(
    s: Seq<u8>,
    off: int,
    i: nat,
    events: nat,
    dict: Option<DictView>,
) -> Seq<u8>
    decreases events - i,
{
    if i >= events {
        s
    } else {
        let size = if 4 * i + 4 <= s.len() {
            u32_at(s, 4 * i as int)
        } else {
            0
        };
        if off + size > s.len() {
            s
        } else {
            events_swapped(
                event_swapped(s, off, off + size, dict),
                off + size,
                i + 1,
                events,
                dict,
            )
        }
    }
}

/// The little-endian form of the big-endian payload `s`.
pub open spec fn payload_swapped(s: Seq<u8>, h: RecordHeader, dict: Option<DictView>) -> Seq<u8> {
    let index = if h.index_array_length < s.len() {
        h.index_array_length as nat
    } else {
        s.len()
    };
    let t = swapped_run(s, 0, index / 4, 4);
    if h.data_start() >= s.len() {
        t
    } else {
        events_swapped(t, h.data_start() as int, 0, h.event_count as nat, dict)
    }
}

/// Reverse the `w` bytes from `off` on.
fn swap_at(buf: &mut Vec<u8>, off: usize, w: usize)
    requires
        off + w <= old(buf).len(),
    ensures
        final(buf)@ == reversed_at(old(buf)@, off as int, w as int),
        final(buf).len() == old(buf).len(),
{
    let ghost s = buf@;
    let mut i: usize = 0;
    while i < w / 2
        invariant
            i <= w / 2,
            off + w <= buf.len(),
            buf.len() == s.len(),
            forall|k: int|
                0 <= k < s.len() ==> buf@[k] == (if off <= k < off + i || off + w - i <= k < off
                    + w {
                    s[2 * off + w - 1 - k]
                } else {
                    s[k]
                }),
        decreases w / 2 - i,
    {
        let a: u8 = buf[off + i];
        let b: u8 = buf[off + w - 1 - i];
        buf.set(off + i, b);
        buf.set(off + w - 1 - i, a);
        i = i + 1;
    }
    assert(buf@ =~= reversed_at(s, off as int, w as int));
}

/// Reverse each of the `n` elements of `elem` bytes from `off` on.
fn swap_elements(buf: &mut Vec<u8>, off: usize, n: usize, elem: usize)
    requires
        off + n * elem <= old(buf).len(),
        elem > 0,
    ensures
        final(buf)@ == swapped_run(old(buf)@, off as int, n as nat, elem as int),
        final(buf).len() == old(buf).len(),
{
    let ghost s = buf@;
    let mut at: usize = off;
    let mut k: usize = 0;
    while k < n
        invariant
            k <= n,
            elem > 0,
            at == off + k * elem,
            off + n * elem <= s.len(),
            buf.len() == s.len(),
            buf@ == swapped_run(s, off as int, k as nat, elem as int),
        decreases n - k,
    {
        assert((k + 1) * elem == k * elem + elem && (k + 1) * elem <= n * elem) by (nonlinear_arith)
            requires
                0 <= k < n,
                elem > 0,
        ;
        swap_at(buf, at, elem);
        at = at + elem;
        k = k + 1;
    }
}

/// What a list of columns says.
spec fn shapes(cols: Seq<ColumnShape>) -> Seq<(nat, nat)> {
    cols.map_values(|c: ColumnShape| (c.elem as nat, c.length as nat))
}

/// Swap columns that lie one after the other from `start` on.
fn swap_columns(buf: &mut Vec<u8>, start: usize, end: usize, rows: u32, cols: &[ColumnShape])
    requires
        start <= end <= old(buf).len(),
        forall|i: int| 0 <= i < cols.len() ==> 1 <= (#[trigger] cols@[i]).elem <= 8,
    ensures
        final(buf)@ == columns_swapped(
            old(buf)@,
            start as int,
            end as int,
            rows as nat,
            shapes(cols@),
            0,
        ),
        final(buf).len() == old(buf).len(),
{
    let ghost goal = columns_swapped(
        buf@,
        start as int,
        end as int,
        rows as nat,
        shapes(cols@),
        0,
    );
    let mut off: usize = start;
    let mut i: usize = 0;
    while i < cols.len()
        invariant
            i <= cols.len(),
            start <= off <= end,
            end <= buf.len(),
            buf.len() == old(buf).len(),
            forall|k: int| 0 <= k < cols.len() ==> 1 <= (#[trigger] cols@[k]).elem <= 8,
            goal == columns_swapped(
                buf@,
                off as int,
                end as int,
                rows as nat,
                shapes(cols@),
                i as nat,
            ),
            goal == columns_swapped(
                old(buf)@,
                start as int,
                end as int,
                rows as nat,
                shapes(cols@),
                0,
            ),
        decreases cols.len() - i,
    {
        let elem: usize = cols[i].elem;
        let (r, l, e): (u128, u128, u128) = (rows as u128, cols[i].length as u128, elem as u128);
        assert(r * l <= 0xffff_ffff * 0xffff_ffff && r * l >= 0) by (nonlinear_arith)
            requires
                0 <= r <= 0xffff_ffff,
                0 <= l <= 0xffff_ffff,
        ;
        let n: u128 = r * l;
        assert(n * e <= 8 * 0xffff_ffff * 0xffff_ffff && n * e >= 0 && n * e >= n)
            by (nonlinear_arith)
            requires
                0 <= n <= 0xffff_ffff * 0xffff_ffff,
                1 <= e <= 8,
        ;
        let span: u128 = n * e;
        assert(shapes(cols@)[i as int] == (elem as nat, cols@[i as int].length as nat));
        if span > (end - off) as u128 {
            return;
        }
        swap_elements(buf, off, n as usize, elem);
        off = off + span as usize;
        i = i + 1;
    }
}

/// Swap the rows of a composite structure.
fn swap_composite(buf: &mut Vec<u8>, start: usize, end: usize, format_size: u8)
    requires
        start <= end <= old(buf).len(),
    ensures
        final(buf)@ == composite_swapped(
            old(buf)@,
            start as int,
            end as int,
            format_size as int,
        ),
        final(buf).len() == old(buf).len(),
{
    let ghost s = buf@;
    let fs: usize = format_size as usize;
    if fs > end - start {
        return;
    }
    let format = match parse_format_bytes(
        vstd::slice::slice_subrange(buf.as_slice(), start, start + fs),
    ) {
        Ok(f) => f,
        Err(_) => {
            return;
        },
    };
    let ghost types = format.types();
    let w: usize = format.row_size as usize;
    proof {
        lemma_field_sizes_monotone(types, 1, types.len());
        assert(field_sizes(types, 1) == field_sizes(types, 0) + types[0].spec_size());
        assert(w > 0);
    }
    let base: usize = start + fs;
    let rows: usize = (end - base) / w;
    assert(rows * w <= end - base) by (nonlinear_arith)
        requires
            w > 0,
            rows == (end - base) as int / w as int,
            end >= base,
    ;
    let mut at: usize = base;
    let mut r: usize = 0;
    while r < rows
        invariant
            r <= rows,
            rows * w <= end - base,
            w == field_sizes(types, types.len()),
            types == format.types(),
            format.wf(),
            at == base + r * w,
            end <= buf.len(),
            base <= end,
            buf.len() == s.len(),
            buf@ == rows_swapped(s, base as int, types, r as nat),
        decreases rows - r,
    {
        assert((r + 1) * w == r * w + w && (r + 1) * w <= rows * w) by (nonlinear_arith)
            requires
                0 <= r < rows,
                w >= 0,
        ;
        let ghost row_before = buf@;
        let mut k: usize = 0;
        while k < format.fields.len()
            invariant
                k <= format.fields.len(),
                types == format.types(),
                format.wf(),
                w == field_sizes(types, types.len()),
                at + w <= buf.len(),
                buf.len() == s.len(),
                buf@ == fields_swapped(row_before, at as int, types, k as nat),
            decreases format.fields.len() - k,
        {
            proof {
                lemma_field_sizes_monotone(types, (k + 1) as nat, types.len());
                assert(types[k as int] == format.fields@[k as int].ty);
            }
            let f = format.fields[k];
            swap_at(buf, at + f.row_offset as usize, f.ty.size());
            k = k + 1;
        }
        at = at + w;
        r = r + 1;
    }
}

/// What an optional dictionary says.
pub open spec fn dict_view(dict: Option<&Dict>) -> Option<DictView> {
    match dict {
        Some(d) => Some(d@),
        None => None,
    }
}

/// Swap the data of one structure.
fn swap_structure(
    buf: &mut Vec<u8>,
    start: usize,
    end: usize,
    h: &StructureHeader,
    dict: Option<&Dict>,
)
    requires
        start <= end <= old(buf).len(),
        end - start < 0x100_0000,
    ensures
        final(buf)@ == structure_swapped(
            old(buf)@,
            start as int,
            end as int,
            *h,
            dict_view(dict),
        ),
        final(buf).len() == old(buf).len(),
{
    if start == end {
        return;
    }
    if h.header_size > 0 {
        swap_composite(buf, start, end, h.header_size);
        return;
    }
    let mut cols: Vec<ColumnShape> = Vec::new();
    if h.group == FILE_INDEX_GROUP && h.item == FILE_INDEX_ITEM {
        cols.push(ColumnShape { elem: 8, length: 1 });
        cols.push(ColumnShape { elem: 4, length: 1 });
        cols.push(ColumnShape { elem: 4, length: 1 });
        cols.push(ColumnShape { elem: 8, length: 1 });
        cols.push(ColumnShape { elem: 8, length: 1 });
        assert(shapes(cols@) =~= index_columns());
        swap_columns(buf, start, end, ((end - start) / 32) as u32, cols.as_slice());
        return;
    }
    let d = match dict {
        Some(d) => d,
        None => {
            return;
        },
    };
    let schema = match d.get_by_id(h.group, h.item) {
        Some(s) => s,
        None => {
            return;
        },
    };
    let row_size: usize = schema.row_size() as usize;
    if row_size == 0 {
        return;
    }
    let entries = schema.entries();
    let mut i: usize = 0;
    while i < entries.len()
        invariant
            i <= entries.len(),
            cols.len() == i,
            forall|k: int|
                0 <= k < i ==> (#[trigger] cols@[k]).elem == entries@[k].ty.spec_size()
                    && cols@[k].length == entries@[k].length && 1 <= cols@[k].elem <= 8,
        decreases entries.len() - i,
    {
        cols.push(ColumnShape { elem: entries[i].ty.size(), length: entries[i].length });
        i = i + 1;
    }
    proof {
        assert forall|k: int| 0 <= k < cols.len() implies shapes(cols@)[k] == schema_columns(
            schema@.entries,
        )[k] by {
            assert(entries@[k]@ == schema@.entries[k]);
        }
        assert(shapes(cols@) =~= schema_columns(schema@.entries));
    }
    let rows: usize = (end - start) / row_size;
    assert(rows <= end - start) by (nonlinear_arith)
        requires
            row_size >= 1,
            rows == (end - start) as int / row_size as int,
            end >= start,
    ;
    swap_columns(buf, start, end, rows as u32, cols.as_slice());
}

/// Swap one event: its header words, then every structure it holds.
fn swap_event(buf: &mut Vec<u8>, off: usize, end: usize, dict: Option<&Dict>)
    requires
        off <= end <= old(buf).len(),
    ensures
        final(buf)@ == event_swapped(old(buf)@, off as int, end as int, dict_view(dict)),
        final(buf).len() == old(buf).len(),
{
    if end - off < 16 {
        return;
    }
    let ghost goal = event_swapped(buf@, off as int, end as int, dict_view(dict));
    // A reversed `EVNT`.
    if buf[off] == 0x54 && buf[off + 1] == 0x4E && buf[off + 2] == 0x56 && buf[off + 3] == 0x45 {
        swap_at(buf, off, 4);
    }
    swap_at(buf, off + 4, 4);
    swap_at(buf, off + 8, 4);
    swap_at(buf, off + 12, 4);
    let size: usize = read_u32_le(buf.as_slice(), off + 4) as usize;
    let stop: usize = if size < end - off {
        off + size
    } else {
        end
    };
    let mut pos: usize = off + 16;
    while pos <= stop && stop - pos >= 8
        invariant
            stop <= buf.len(),
            pos <= stop || pos == off + 16,
            buf.len() == old(buf).len(),
            off + 16 <= end <= buf.len(),
            goal == structures_swapped(buf@, pos as int, stop as int, dict_view(dict)),
            goal == event_swapped(old(buf)@, off as int, end as int, dict_view(dict)),
        decreases stop - pos,
    {
        swap_at(buf, pos, 2);
        swap_at(buf, pos + 4, 4);
        let h = StructureHeader::parse_at(buf.as_slice(), pos);
        let start: usize = pos + 8;
        let n: usize = h.data_size as usize;
        if n > stop - start {
            return;
        }
        swap_structure(buf, start, start + n, &h, dict);
        pos = start + n;
    }
}

/// Normalise a big-endian record payload to little-endian, in place. What cannot be
/// interpreted keeps its bytes.
pub fn normalize_be_payload(payload: &mut Vec<u8>, header: &RecordHeader, dict: Option<&Dict>)
    ensures
        final(payload)@ == payload_swapped(old(payload)@, *header, dict_view(dict)),
        final(payload).len() == old(payload).len(),
{
    let ghost goal = payload_swapped(payload@, *header, dict_view(dict));
    let index: usize = if (header.index_array_length as usize) < payload.len() {
        header.index_array_length as usize
    } else {
        payload.len()
    };
    swap_elements(payload, 0, index / 4, 4);
    let data_start: u64 = header.index_array_length as u64 + header.user_header_length as u64
        + header.user_header_padding as u64;
    if data_start >= payload.len() as u64 {
        return;
    }
    let mut off: usize = data_start as usize;
    let n: usize = header.event_count as usize;
    let mut i: usize = 0;
    while i < n
        invariant
            i <= n,
            n == header.event_count,
            off <= payload.len(),
            payload.len() == old(payload).len(),
            goal == events_swapped(payload@, off as int, i as nat, n as nat, dict_view(dict)),
            goal == payload_swapped(old(payload)@, *header, dict_view(dict)),
        decreases n - i,
    {
        let size: usize = if i < payload.len() / 4 {
            read_u32_le(payload.as_slice(), 4 * i) as usize
        } else {
            0
        };
        if size > payload.len() - off {
            return;
        }
        swap_event(payload, off, off + size, dict);
        off = off + size;
        i = i + 1;
    }
}

} // verus!
