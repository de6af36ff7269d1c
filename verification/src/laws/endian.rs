//! Records in the other byte order: every number is turned round where it stands.

use vstd::prelude::*;
#[allow(unused_imports)]
use crate::event::composite::{field_sizes, field_types, lemma_field_sizes_monotone};
#[allow(unused_imports)]
use crate::event::event::{header_at, StructureHeader};
#[allow(unused_imports)]
use crate::laws::bytes::{law_u16_at_bytes, law_u32_at_bytes};
#[allow(unused_imports)]
use crate::laws::composites::{fields_take, lemma_fields_take};
#[allow(unused_imports)]
use crate::laws::headers::four;
use crate::schema::dict::Dict;
#[allow(unused_imports)]
use crate::schema::dict::DictView;
#[allow(unused_imports)]
use crate::schema::types::{DataType, EntryView, SchemaView};
#[allow(unused_imports)]
use crate::wire::bytes::u32_at;
use crate::wire::endian::normalize_be_payload;
#[allow(unused_imports)]
use crate::wire::endian::{
    columns_swapped, dict_view, event_swapped, events_swapped, fields_swapped, index_columns,
    magic_righted, payload_swapped, reversed_at, rows_swapped, schema_columns, structure_swapped,
    structures_swapped, swapped_run,
};
use crate::wire::record_header::RecordHeader;

verus! {

/// `a` and `b` are as long as each other and the same but for the bytes from `from` up to `to`.
pub open spec fn same_outside(a: Seq<u8>, b: Seq<u8>, from: int, to: int) -> bool {
    &&& a.len() == b.len()
    &&& forall|k: int| 0 <= k < b.len() && !(from <= k < to) ==> #[trigger] a[k] == b[k]
}

/// The `w` bytes of `a` from `at` on are those of `b` in reverse.
pub open spec fn turned(a: Seq<u8>, b: Seq<u8>, at: int, w: int) -> bool {
    forall|j: int| 0 <= j < w ==> #[trigger] a[at + j] == b[at + w - 1 - j]
}

/// The `w` bytes of `a` from `at` on are those of `b`.
pub open spec fn unturned(a: Seq<u8>, b: Seq<u8>, at: int, w: int) -> bool {
    forall|j: int| 0 <= j < w ==> #[trigger] a[at + j] == b[at + j]
}

proof fn lemma_reversed(s: Seq<u8>, off: int, w: int)
    requires
        0 <= off,
        0 <= w,
        off + w <= s.len(),
    ensures
        same_outside(reversed_at(s, off, w), s, off, off + w),
        turned(reversed_at(s, off, w), s, off, w),
{
}

proof fn lemma_run(s: Seq<u8>, off: int, n: nat, elem: int)
    requires
        0 <= off,
        elem > 0,
        off + n * elem <= s.len(),
    ensures
        same_outside(swapped_run(s, off, n, elem), s, off, off + n * elem),
        forall|k: int|
            0 <= k < n ==> turned(swapped_run(s, off, n, elem), s, off + #[trigger] (k * elem), elem),
    decreases n,
{
    assert(n * elem >= 0) by (nonlinear_arith)
        requires
            elem > 0,
            n >= 0,
    ;
    if n > 0 {
        let m = (n - 1) as nat;
        assert(n * elem == m * elem + elem && m * elem >= 0) by (nonlinear_arith)
            requires
                n == m + 1,
                elem > 0,
                m >= 0,
        ;
        lemma_run(s, off, m, elem);
        let t = swapped_run(s, off, m, elem);
        let p = off + m * elem;
        lemma_reversed(t, p, elem);
        let u = swapped_run(s, off, n, elem);
        assert(u == reversed_at(t, p, elem));
        assert forall|k: int| 0 <= k < n implies turned(u, s, off + #[trigger] (k * elem), elem) by {
            if k < m {
                assert(k * elem + elem <= m * elem && k * elem >= 0) by (nonlinear_arith)
                    requires
                        0 <= k < m,
                        elem > 0,
                ;
                assert(turned(t, s, off + k * elem, elem));
                assert forall|j: int| 0 <= j < elem implies #[trigger] u[off + k * elem + j] == s[off
                    + k * elem + elem - 1 - j] by {
                    assert(u[off + k * elem + j] == t[off + k * elem + j]);
                }
            } else {
                assert(k == m);
                assert forall|j: int| 0 <= j < elem implies #[trigger] u[p + j] == s[p + elem - 1
                    - j] by {
                    assert(u[p + j] == t[p + elem - 1 - j]);
                    assert(t[p + elem - 1 - j] == s[p + elem - 1 - j]);
                }
            }
        }
    } else {
        assert(0 * elem == 0) by (nonlinear_arith);
    }
}

/// The bytes of the columns from number `i` up to `c`, with `rows` rows each.
pub open spec fn columns_take(cols: Seq<(nat, nat)>, rows: nat, i: int, c: int) -> int
    decreases c - i,
{
    if i >= c {
        0
    } else {
        rows * cols[i].1 * cols[i].0 + columns_take(cols, rows, i + 1, c)
    }
}

proof fn lemma_take_nonneg(cols: Seq<(nat, nat)>, rows: nat, i: int, c: int)
    ensures
        columns_take(cols, rows, i, c) >= 0,
    decreases c - i,
{
    if i < c {
        lemma_take_nonneg(cols, rows, (i + 1) as int, c);
        assert(rows * cols[i].1 * cols[i].0 >= 0) by (nonlinear_arith);
    }
}

#[verifier::rlimit(30)]
#[verifier::spinoff_prover]
proof fn lemma_columns(
    s: Seq<u8>,
    off: int,
    end: int,
    rows: nat,
    cols: Seq<(nat, nat)>,
    i: nat,
    c: int,
)
    requires
        0 <= off <= end <= s.len(),
        forall|j: int| 0 <= j < cols.len() ==> (#[trigger] cols[j]).0 > 0,
    ensures
        ({
            let r = columns_swapped(s, off, end, rows, cols, i);
            let at = off + columns_take(cols, rows, i as int, c);
            &&& same_outside(r, s, off, end)
            &&& i <= c < cols.len() && off + columns_take(cols, rows, i as int, c + 1) <= end
                ==> forall|k: int|
                0 <= k < rows * cols[c].1 ==> turned(
                    r,
                    s,
                    at + #[trigger] (k * cols[c].0),
                    cols[c].0 as int,
                )
        }),
    decreases cols.len() - i,
{
    if i < cols.len() {
        assert(cols[i as int].0 > 0);
        let elem = cols[i as int].0;
        let n = rows * cols[i as int].1;
        assert(n >= 0 && n * elem >= 0) by (nonlinear_arith)
            requires
                n == rows * cols[i as int].1,
                elem > 0,
        ;
        lemma_take_nonneg(cols, rows, (i + 1) as int, c);
        lemma_take_nonneg(cols, rows, (i + 1) as int, c + 1);
        let r = columns_swapped(s, off, end, rows, cols, i);
        if off + n * elem <= end {
            lemma_run(s, off, n, elem as int);
            let t = swapped_run(s, off, n, elem as int);
            let next = off + n * elem;
            lemma_columns(t, next, end, rows, cols, i + 1, c);
            assert(same_outside(r, s, off, end)) by {
                assert forall|k: int| 0 <= k < s.len() && !(off <= k < end) implies #[trigger] r[k]
                    == s[k] by {
                    assert(r[k] == t[k]);
                    assert(t[k] == s[k]);
                }
            }
            if i <= c < cols.len() && off + columns_take(cols, rows, i as int, c + 1) <= end {
                let w = cols[c].0 as int;
                let at = off + columns_take(cols, rows, i as int, c);
                if c == i {
                    assert forall|k: int| 0 <= k < rows * cols[c].1 implies turned(
                        r,
                        s,
                        at + #[trigger] (k * cols[c].0),
                        w,
                    ) by {
                        let x = at + k * w;
                        assert(turned(t, s, off + k * w, w));
                        assert(k * w >= 0 && k * w + w <= n * w) by (nonlinear_arith)
                            requires
                                0 <= k < n,
                                w > 0,
                        ;
                        assert forall|j: int| 0 <= j < w implies #[trigger] r[x + j] == s[x + w - 1
                            - j] by {
                            assert(r[x + j] == t[x + j]);
                        }
                    }
                } else {
                    assert forall|k: int| 0 <= k < rows * cols[c].1 implies turned(
                        r,
                        s,
                        at + #[trigger] (k * cols[c].0),
                        w,
                    ) by {
                        let x = at + k * w;
                        assert(turned(r, t, next + columns_take(cols, rows, (i + 1) as int, c) + k * w, w));
                        assert(k * w >= 0 && k * w + w <= rows * cols[c].1 * w) by (nonlinear_arith)
                            requires
                                0 <= k < rows * cols[c].1,
                                w > 0,
                        ;
                        lemma_take_last(cols, rows, (i + 1) as int, c);
                        assert forall|j: int| 0 <= j < w implies #[trigger] r[x + j] == s[x + w - 1
                            - j] by {
                            assert(r[x + j] == t[x + w - 1 - j]);
                            assert(t[x + w - 1 - j] == s[x + w - 1 - j]);
                        }
                    }
                }
            }
        }
    }
}

proof fn lemma_take_last(cols: Seq<(nat, nat)>, rows: nat, i: int, c: int)
    requires
        i <= c,
    ensures
        columns_take(cols, rows, i, c + 1) == columns_take(cols, rows, i, c) + rows * cols[c].1
            * cols[c].0,
    decreases c - i,
{
    reveal_with_fuel(columns_take, 3);
    if i < c {
        lemma_take_last(cols, rows, i + 1, c);
    }
}

proof fn lemma_fields(s: Seq<u8>, base: int, types: Seq<DataType>, k: nat, f: nat)
    requires
        0 <= base,
        k <= types.len(),
        base + field_sizes(types, k) <= s.len(),
    ensures
        f < k ==> turned(
            fields_swapped(s, base, types, k),
            s,
            base + field_sizes(types, f),
            types[f as int].spec_size() as int,
        ),
        same_outside(
            fields_swapped(s, base, types, k),
            s,
            base,
            base + field_sizes(types, k),
        ),
    decreases k,
{
    if k > 0 {
        let m = (k - 1) as nat;
        lemma_fields(s, base, types, m, f);
        let t = fields_swapped(s, base, types, m);
        lemma_reversed(t, base + field_sizes(types, m), types[k - 1].spec_size() as int);
        let u = fields_swapped(s, base, types, k);
        if f < k {
            let at = base + field_sizes(types, f);
            let w = types[f as int].spec_size() as int;
            lemma_field_sizes_monotone(types, f + 1, k);
            if f < m {
                lemma_field_sizes_monotone(types, f + 1, m);
            }
            assert forall|j: int| 0 <= j < w implies #[trigger] u[at + j] == s[at + w - 1 - j] by {
                if f < m {
                    assert(u[at + j] == t[at + j]);
                } else {
                    assert(u[at + j] == t[at + w - 1 - j]);
                }
            }
        }
        assert forall|x: int| 0 <= x < s.len() && !(base <= x < base + field_sizes(types, k)) implies
            #[trigger] u[x] == s[x] by {
            assert(u[x] == t[x]);
            assert(t[x] == s[x]);
        }
    }
}

proof fn lemma_rows_turned(
    s: Seq<u8>,
    base: int,
    types: Seq<DataType>,
    n: nat,
    row: nat,
    f: nat,
)
    requires
        0 <= base,
        base + n * field_sizes(types, types.len()) <= s.len(),
    ensures
        row < n && f < types.len() ==> turned(
            rows_swapped(s, base, types, n),
            s,
            base + row * field_sizes(types, types.len()) + field_sizes(types, f),
            types[f as int].spec_size() as int,
        ),
        same_outside(
            rows_swapped(s, base, types, n),
            s,
            base,
            base + n * field_sizes(types, types.len()),
        ),
    decreases n,
{
    let w = field_sizes(types, types.len());
    if n > 0 {
        let m = (n - 1) as nat;
        assert(n * w == m * w + w && m * w >= 0) by (nonlinear_arith)
            requires
                n == m + 1,
        ;
        lemma_rows_turned(s, base, types, m, row, f);
        let t = rows_swapped(s, base, types, m);
        lemma_fields(t, base + m * w, types, types.len(), f);
        let u = rows_swapped(s, base, types, n);
        if row < n && f < types.len() {
            let at = base + row * w + field_sizes(types, f);
            let z = types[f as int].spec_size() as int;
            lemma_field_sizes_monotone(types, f + 1, types.len());
            assert(row * w >= 0 && (row < m ==> row * w + w <= m * w)) by (nonlinear_arith)
                requires
                    row <= m,
            ;
            assert forall|j: int| 0 <= j < z implies #[trigger] u[at + j] == s[at + z - 1 - j] by {
                if row < m {
                    assert(u[at + j] == t[at + j]);
                } else {
                    assert(u[at + j] == t[at + z - 1 - j]);
                    assert(t[at + z - 1 - j] == s[at + z - 1 - j]);
                }
            }
        }
        assert forall|x: int| 0 <= x < s.len() && !(base <= x < base + n * w) implies #[trigger] u[x]
            == s[x] by {
            assert(u[x] == t[x]);
            assert(t[x] == s[x]);
        }
    } else {
        assert(0 * w == 0) by (nonlinear_arith);
    }
}

proof fn lemma_structure(
    s: Seq<u8>,
    start: int,
    end: int,
    h: StructureHeader,
    dict: Option<DictView>,
)
    requires
        0 <= start <= end <= s.len(),
    ensures
        same_outside(structure_swapped(s, start, end, h, dict), s, start, end),
{
    if start < end {
        if h.header_size > 0 {
            let f = h.header_size as int;
            let format = s.subrange(start, start + f);
            let types = field_types(vstd::utf8::decode_utf8(format));
            if f <= end - start && vstd::utf8::valid_utf8(format) && types.len() > 0 {
                let w = field_sizes(types, types.len());
                lemma_field_sizes_monotone(types, 1, types.len());
                reveal_with_fuel(field_sizes, 3);
                let n = ((end - start - f) / w as int) as nat;
                assert(n * w <= end - start - f) by (nonlinear_arith)
                    requires
                        w > 0,
                        end - start - f >= 0,
                        n == (end - start - f) / w as int,
                ;
                lemma_rows_turned(s, start + f, types, n, 0, 0);
            }
        } else if h.group == 32111 && h.item == 1 {
            lemma_columns(
                s,
                start,
                end,
                ((end - start) / 32) as nat,
                index_columns(),
                0,
                0,
            );
        } else if let Some(d) = dict {
            if let Some(schema) = d.by_id(h.group, h.item) {
                if schema.row_size > 0 {
                    lemma_columns(
                        s,
                        start,
                        end,
                        ((end - start) / schema.row_size as int) as nat,
                        schema_columns(schema.entries),
                        0,
                        0,
                    );
                }
            }
        }
    }
}

/// The length of the data of a structure whose header is still in the other byte order.
pub open spec fn turned_length(s: Seq<u8>, x: int) -> int {
    s[x + 5] * 0x1_0000 + s[x + 6] * 0x100 + s[x + 7]
}

/// A header that is turned round says what its bytes say in the other byte order.
proof fn lemma_turned_header(s: Seq<u8>, x: int)
    requires
        0 <= x,
        x + 8 <= s.len(),
    ensures
        ({
            let t = reversed_at(reversed_at(s, x, 2), x + 4, 4);
            let h = header_at(t, x);
            &&& same_outside(t, s, x, x + 8)
            &&& t[x] == s[x + 1] && t[x + 1] == s[x]
            &&& t[x + 2] == s[x + 2] && t[x + 3] == s[x + 3]
            &&& turned(t, s, x + 4, 4)
            &&& h.group == s[x] * 0x100 + s[x + 1]
            &&& h.item == s[x + 2]
            &&& h.data_size == turned_length(s, x)
            &&& h.header_size == s[x + 4]
        }),
{
    let a = reversed_at(s, x, 2);
    let t = reversed_at(a, x + 4, 4);
    law_u16_at_bytes(t, x);
    law_u32_at_bytes(t, x + 4);
    assert(t[x + 4] == s[x + 7] && t[x + 5] == s[x + 6]);
    assert(t[x + 6] == s[x + 5] && t[x + 7] == s[x + 4]);
    assert forall|j: int| 0 <= j < 4 implies #[trigger] t[x + 4 + j] == s[x + 4 + 4 - 1 - j] by {}
}

proof fn lemma_structures(s: Seq<u8>, pos: int, end: int, dict: Option<DictView>)
    requires
        0 <= pos,
        end <= s.len(),
    ensures
        same_outside(structures_swapped(s, pos, end, dict), s, pos, end),
    decreases end - pos,
{
    if pos + 8 <= end {
        lemma_turned_header(s, pos);
        let t = reversed_at(reversed_at(s, pos, 2), pos + 4, 4);
        let h = header_at(t, pos);
        let next = pos + 8 + h.data_size;
        let r = structures_swapped(s, pos, end, dict);
        if next <= end {
            lemma_structure(t, pos + 8, next, h, dict);
            let u = structure_swapped(t, pos + 8, next, h, dict);
            lemma_structures(u, next, end, dict);
            assert forall|k: int| 0 <= k < s.len() && !(pos <= k < end) implies #[trigger] r[k]
                == s[k] by {
                assert(r[k] == u[k]);
                assert(u[k] == t[k]);
                assert(t[k] == s[k]);
            }
        }
    }
}

/// The structures of an event in the other byte order: `at[m]` is where structure `m` starts, and
/// each starts where the one before it ends.
pub open spec fn follow_turned(s: Seq<u8>, at: Seq<int>, end: int) -> bool {
    &&& forall|m: int| 0 <= m < at.len() - 1 ==> #[trigger] follows(s, at, m)
    &&& at.len() > 0 ==> at.last() + 8 + turned_length(s, at.last()) <= end && at.last() + 8 <= end
}

/// Structure `m + 1` starts where structure `m` ends.
pub open spec fn follows(s: Seq<u8>, at: Seq<int>, m: int) -> bool {
    at[m + 1] == at[m] + 8 + turned_length(s, at[m])
}

/// What becomes of the last of the structures that follow each other: its header is turned round,
/// and its data is what is made of the data of one structure.
proof fn lemma_walk(s: Seq<u8>, pos: int, end: int, dict: Option<DictView>, at: Seq<int>) -> (before: Seq<
    u8,
>)
    requires
        0 <= pos,
        end <= s.len(),
        at.len() > 0,
        at[0] == pos,
        follow_turned(s, at, end),
    ensures
        ({
            let x = at.last();
            let t = reversed_at(reversed_at(before, x, 2), x + 4, 4);
            let h = header_at(t, x);
            let u = structure_swapped(t, x + 8, x + 8 + h.data_size, h, dict);
            let r = structures_swapped(s, pos, end, dict);
            &&& pos <= x
            &&& before.len() == s.len()
            &&& forall|k: int| x <= k < s.len() ==> #[trigger] before[k] == s[k]
            &&& h.data_size == turned_length(s, x)
            &&& forall|k: int| x <= k < x + 8 + h.data_size ==> #[trigger] r[k] == u[k]
        }),
    decreases at.len(),
{
    let x = at.last();
    let m = at.len() - 1;
    if at.len() > 1 {
        assert(follows(s, at, 0));
        lemma_increasing(s, at, m);
        assert(at[1] <= x);
    }
    assert(pos + 8 + turned_length(s, pos) <= end && pos + 8 <= end);
    lemma_turned_header(s, pos);
    let t = reversed_at(reversed_at(s, pos, 2), pos + 4, 4);
    let h = header_at(t, pos);
    let next = pos + 8 + h.data_size;
    lemma_structure(t, pos + 8, next, h, dict);
    let u = structure_swapped(t, pos + 8, next, h, dict);
    let r = structures_swapped(s, pos, end, dict);
    if at.len() == 1 {
        assert(x == pos);
        lemma_structures(u, next, end, dict);
        assert(r == structures_swapped(u, next, end, dict));
        assert forall|k: int| x <= k < x + 8 + h.data_size implies #[trigger] r[k] == u[k] by {}
        s
    } else {
        let rest = at.drop_first();
        assert forall|k: int| next <= k < s.len() implies #[trigger] u[k] == s[k] by {
            assert(u[k] == t[k]);
        }
        assert(follow_turned(u, rest, end)) by {
            assert forall|j: int| 0 <= j < rest.len() - 1 implies #[trigger] follows(
                u,
                rest,
                j,
            ) by {
                assert(follows(s, at, j + 1));
                lemma_increasing_from(s, at, 1, j + 1);
                assert(rest[j] == at[j + 1] && rest[j + 1] == at[j + 2]);
                lemma_increasing_from(s, at, j + 2, m);
                assert(at[j + 1] + 8 + turned_length(s, at[j + 1]) <= x);
            }
            assert(rest.last() == x);
        }
        assert(next <= x && x + 8 <= s.len());
        assert(u[x + 5] == s[x + 5] && u[x + 6] == s[x + 6] && u[x + 7] == s[x + 7]);
        assert(turned_length(u, x) == turned_length(s, x));
        let before = lemma_walk(u, next, end, dict, rest);
        assert(r == structures_swapped(u, next, end, dict));
        assert forall|k: int| x <= k < s.len() implies #[trigger] before[k] == s[k] by {
            assert(before[k] == u[k]);
        }
        before
    }
}

proof fn lemma_increasing(s: Seq<u8>, at: Seq<int>, m: int)
    requires
        1 <= m < at.len(),
        forall|j: int| 0 <= j < at.len() - 1 ==> #[trigger] follows(s, at, j),
    ensures
        at[0] + 8 <= at[1] <= at[m],
    decreases m,
{
    assert(follows(s, at, 0));
    if m > 1 {
        lemma_increasing(s, at, m - 1);
        assert(follows(s, at, m - 1));
    }
}

proof fn lemma_increasing_from(s: Seq<u8>, at: Seq<int>, a: int, m: int)
    requires
        0 <= a <= m < at.len(),
        forall|j: int| 0 <= j < at.len() - 1 ==> #[trigger] follows(s, at, j),
    ensures
        at[a] <= at[m],
    decreases m - a,
{
    if a < m {
        lemma_increasing_from(s, at, a, m - 1);
        assert(follows(s, at, m - 1));
    }
}

proof fn lemma_event_header(s: Seq<u8>, off: int)
    requires
        0 <= off,
        off + 16 <= s.len(),
    ensures
        ({
            let t = reversed_at(
                reversed_at(reversed_at(magic_righted(s, off), off + 4, 4), off + 8, 4),
                off + 12,
                4,
            );
            &&& same_outside(t, s, off, off + 16)
            &&& turned(t, s, off + 4, 4) && turned(t, s, off + 8, 4) && turned(t, s, off + 12, 4)
            &&& if s[off] == 0x54 && s[off + 1] == 0x4e && s[off + 2] == 0x56 && s[off + 3] == 0x45 {
                t[off] == 0x45 && t[off + 1] == 0x56 && t[off + 2] == 0x4e && t[off + 3] == 0x54
            } else {
                unturned(t, s, off, 4)
            }
        }),
{
    let a = magic_righted(s, off);
    let b = reversed_at(a, off + 4, 4);
    let c = reversed_at(b, off + 8, 4);
    let t = reversed_at(c, off + 12, 4);
    assert forall|j: int| 0 <= j < 4 implies #[trigger] t[off + 4 + j] == s[off + 4 + 4 - 1 - j] by {}
    assert forall|j: int| 0 <= j < 4 implies #[trigger] t[off + 8 + j] == s[off + 8 + 4 - 1 - j] by {}
    assert forall|j: int| 0 <= j < 4 implies #[trigger] t[off + 12 + j] == s[off + 12 + 4 - 1
        - j] by {}
}

proof fn lemma_event(s: Seq<u8>, off: int, end: int, dict: Option<DictView>)
    requires
        0 <= off <= end <= s.len(),
    ensures
        same_outside(event_swapped(s, off, end, dict), s, off, end),
{
    if end - off >= 16 {
        lemma_event_header(s, off);
        let t = reversed_at(
            reversed_at(reversed_at(magic_righted(s, off), off + 4, 4), off + 8, 4),
            off + 12,
            4,
        );
        let size = u32_at(t, off + 4);
        let stop = if size < end - off {
            off + size
        } else {
            end
        };
        lemma_structures(t, off + 16, stop, dict);
        let r = event_swapped(s, off, end, dict);
        assert forall|k: int| 0 <= k < s.len() && !(off <= k < end) implies #[trigger] r[k]
            == s[k] by {
            assert(r[k] == t[k]);
            assert(t[k] == s[k]);
        }
    }
}

proof fn lemma_events_after(s: Seq<u8>, off: int, i: nat, events: nat, dict: Option<DictView>)
    requires
        0 <= off <= s.len(),
    ensures
        same_outside(events_swapped(s, off, i, events, dict), s, off, s.len() as int),
    decreases events - i,
{
    if i < events {
        let size = if 4 * i + 4 <= s.len() {
            u32_at(s, 4 * i as int)
        } else {
            0
        };
        if off + size <= s.len() {
            lemma_event(s, off, off + size, dict);
            let u = event_swapped(s, off, off + size, dict);
            lemma_events_after(u, off + size, i + 1, events, dict);
            let r = events_swapped(s, off, i, events, dict);
            assert forall|k: int| 0 <= k < s.len() && !(off <= k < s.len()) implies #[trigger] r[k]
                == s[k] by {
                assert(r[k] == u[k]);
                assert(u[k] == s[k]);
            }
        }
    }
}

/// The lengths of the events from number `i` up to `k`, in the byte order of the machine.
spec fn lengths_between(s: Seq<u8>, i: int, k: int) -> int
    decreases k - i,
{
    if i >= k {
        0
    } else {
        u32_at(s, 4 * i) + lengths_between(s, i + 1, k)
    }
}

proof fn lemma_lengths_same(s: Seq<u8>, t: Seq<u8>, i: int, k: int)
    requires
        0 <= i,
        4 * k <= s.len(),
        s.len() == t.len(),
        forall|x: int| 0 <= x < 4 * k ==> #[trigger] s[x] == t[x],
    ensures
        lengths_between(s, i, k) == lengths_between(t, i, k) >= 0,
    decreases k - i,
{
    if i < k {
        lemma_lengths_same(s, t, i + 1, k);
        assert(s[4 * i] == t[4 * i] && s[4 * i + 1] == t[4 * i + 1]);
        assert(s[4 * i + 2] == t[4 * i + 2] && s[4 * i + 3] == t[4 * i + 3]);
        crate::wire::bytes::lemma_u32_at_same(s, 4 * i, t, 4 * i);
    }
}

/// What becomes of event `k`, from the state in which event `i` is the next.
proof fn lemma_event_at(
    s: Seq<u8>,
    off: int,
    i: nat,
    events: nat,
    dict: Option<DictView>,
    k: nat,
) -> (before: Seq<u8>)
    requires
        i <= k < events,
        4 * (k + 1) <= off <= s.len(),
        off + lengths_between(s, i as int, (k + 1) as int) <= s.len(),
    ensures
        ({
            let p = off + lengths_between(s, i as int, k as int);
            let q = p + u32_at(s, 4 * k as int);
            let r = events_swapped(s, off, i, events, dict);
            &&& off <= p <= q <= s.len()
            &&& before.len() == s.len()
            &&& forall|x: int| p <= x < s.len() ==> #[trigger] before[x] == s[x]
            &&& forall|x: int|
                p <= x < q ==> #[trigger] r[x] == event_swapped(before, p, q, dict)[x]
            &&& forall|x: int| 0 <= x < off ==> #[trigger] r[x] == s[x]
        }),
    decreases k - i,
{
    let size = u32_at(s, 4 * i as int);
    lemma_lengths_same(s, s, i as int, k as int);
    lemma_lengths_same(s, s, (i + 1) as int, (k + 1) as int);
    lemma_lengths_last(s, i as int, k as int);
    assert(off + size <= s.len());
    lemma_event(s, off, off + size, dict);
    let u = event_swapped(s, off, off + size, dict);
    let r = events_swapped(s, off, i, events, dict);
    assert(r == events_swapped(u, off + size, i + 1, events, dict));
    if i == k {
        lemma_events_after(u, off + size, i + 1, events, dict);
        assert forall|x: int| off <= x < off + size implies #[trigger] r[x] == u[x] by {}
        assert forall|x: int| 0 <= x < off implies #[trigger] r[x] == s[x] by {
            assert(r[x] == u[x]);
            assert(u[x] == s[x]);
        }
        s
    } else {
        assert forall|x: int| 0 <= x < 4 * (k + 1) implies #[trigger] u[x] == s[x] by {}
        lemma_lengths_same(u, s, (i + 1) as int, (k + 1) as int);
        lemma_lengths_same(u, s, (i + 1) as int, k as int);
        crate::wire::bytes::lemma_u32_at_same(u, 4 * k as int, s, 4 * k as int);
        let before = lemma_event_at(u, off + size, i + 1, events, dict, k);
        assert forall|x: int| off + lengths_between(s, i as int, k as int) <= x < s.len() implies
            #[trigger] before[x] == s[x] by {
            assert(before[x] == u[x]);
            assert(u[x] == s[x]);
        }
        assert forall|x: int| 0 <= x < off implies #[trigger] r[x] == s[x] by {
            assert(r[x] == u[x]);
            assert(u[x] == s[x]);
        }
        before
    }
}

proof fn lemma_lengths_last(s: Seq<u8>, i: int, k: int)
    requires
        i <= k,
    ensures
        lengths_between(s, i, k + 1) == lengths_between(s, i, k) + u32_at(s, 4 * k),
    decreases k - i,
{
    reveal_with_fuel(lengths_between, 3);
    if i < k {
        lemma_lengths_last(s, i + 1, k);
    }
}

/// The lengths of the first `k` events, as a payload in the other byte order has them.
pub open spec fn turned_lengths(s: Seq<u8>, k: int) -> int
    decreases k,
{
    if k <= 0 {
        0
    } else {
        turned_lengths(s, k - 1) + four(s, 4 * (k - 1), true)
    }
}

proof fn lemma_turned_word(a: Seq<u8>, b: Seq<u8>, i: int)
    requires
        turned(a, b, i, 4),
    ensures
        u32_at(a, i) == four(b, i, true),
{
    law_u32_at_bytes(a, i);
    reveal(four);
    assert(a[i + 0] == b[i + 4 - 1 - 0] && a[i + 1] == b[i + 4 - 1 - 1]);
    assert(a[i + 2] == b[i + 4 - 1 - 2] && a[i + 3] == b[i + 4 - 1 - 3]);
}

proof fn lemma_turned_lengths(t: Seq<u8>, s: Seq<u8>, k: nat)
    requires
        forall|j: int| 0 <= j < k ==> turned(t, s, #[trigger] (j * 4), 4),
    ensures
        lengths_between(t, 0, k as int) == turned_lengths(s, k as int),
    decreases k,
{
    if k > 0 {
        let m = (k - 1) as nat;
        lemma_turned_lengths(t, s, m);
        lemma_lengths_last(t, 0, m as int);
        assert(turned(t, s, (m * 4) as int, 4));
        lemma_turned_word(t, s, 4 * m as int);
    }
}

/// Where event `k` of a payload in the other byte order starts and ends: behind the index, the user
/// header and its padding, and the events before it.
pub open spec fn event_bounds(s: Seq<u8>, h: RecordHeader, k: int) -> (int, int) {
    let data = h.index_array_length + h.user_header_length + h.user_header_padding;
    (data + turned_lengths(s, k), data + turned_lengths(s, k + 1))
}

/// Event `k` of a payload lies within it, and its length in the index.
pub open spec fn has_event(s: Seq<u8>, h: RecordHeader, k: int) -> bool {
    &&& 0 <= k < h.event_count
    &&& 4 * (k + 1) <= h.index_array_length
    &&& h.index_array_length + h.user_header_length + h.user_header_padding < s.len()
    &&& event_bounds(s, h, k).1 <= s.len()
}

/// The state of a payload right before event `k` is turned round.
#[verifier::rlimit(30)]
#[verifier::spinoff_prover]
proof fn lemma_payload(s: Seq<u8>, h: RecordHeader, dict: Option<DictView>, k: nat) -> (before: Seq<
    u8,
>)
    requires
        has_event(s, h, k as int),
    ensures
        ({
            let (p, q) = event_bounds(s, h, k as int);
            let r = payload_swapped(s, h, dict);
            &&& 0 <= p <= q <= s.len()
            &&& before.len() == s.len()
            &&& forall|x: int| p <= x < s.len() ==> #[trigger] before[x] == s[x]
            &&& forall|x: int|
                p <= x < q ==> #[trigger] r[x] == event_swapped(before, p, q, dict)[x]
            &&& turned(r, s, 4 * k as int, 4)
        }),
{
    let index = h.index_array_length as nat;
    let n = index / 4;
    let data = h.data_start() as int;
    let t = swapped_run(s, 0, n, 4);
    lemma_run(s, 0, n, 4);
    assert forall|j: int| 0 <= j < k + 1 implies turned(t, s, #[trigger] (j * 4), 4) by {
        assert(turned(t, s, 0 + j * 4, 4));
    }
    lemma_turned_lengths(t, s, k);
    lemma_turned_lengths(t, s, k + 1);
    lemma_lengths_last(t, 0, k as int);
    assert(t.len() == s.len());
    let before = lemma_event_at(t, data, 0, h.event_count as nat, dict, k);
    let r = payload_swapped(s, h, dict);
    assert(r == events_swapped(t, data, 0, h.event_count as nat, dict));
    let (p, q) = event_bounds(s, h, k as int);
    assert forall|x: int| p <= x < s.len() implies #[trigger] before[x] == s[x] by {
        assert(before[x] == t[x]);
        assert(t[x] == s[x]);
    }
    assert(turned(r, s, 4 * k as int, 4)) by {
        assert(turned(t, s, (k * 4) as int, 4));
        assert forall|j: int| 0 <= j < 4 implies #[trigger] r[4 * k + j] == s[4 * k + 4 - 1 - j] by {
            assert(r[4 * k + j] == t[4 * k + j]);
            assert(t[k * 4 + j] == s[k * 4 + 4 - 1 - j]);
        }
    }
    before
}

/// In a payload of the other byte order, the length of every event in the index is turned round,
/// and so are the length, the tag and the last word of the event's header. The letters of the
/// header stay, or are put right where they were turned round.
pub proof fn law_event_is_turned<'b>(
    payload: &'b mut Vec<u8>,
    header: &RecordHeader,
    dict: Option<&Dict>,
    k: nat,
)
    requires
        call_ensures(normalize_be_payload, (payload, header, dict), ()),
        has_event(old(payload)@, *header, k as int),
    ensures
        ({
            let s = old(payload)@;
            let r = final(payload)@;
            let (p, q) = event_bounds(s, *header, k as int);
            &&& r.len() == s.len()
            &&& turned(r, s, 4 * k as int, 4)
            &&& q - p >= 16 ==> {
                &&& turned(r, s, p + 4, 4)
                &&& turned(r, s, p + 8, 4)
                &&& turned(r, s, p + 12, 4)
                &&& if s[p] == 0x54 && s[p + 1] == 0x4e && s[p + 2] == 0x56 && s[p + 3] == 0x45 {
                    r[p] == 0x45 && r[p + 1] == 0x56 && r[p + 2] == 0x4e && r[p + 3] == 0x54
                } else {
                    unturned(r, s, p, 4)
                }
            }
        }),
{
    let s = old(payload)@;
    let r = final(payload)@;
    let d = dict_view(dict);
    let before = lemma_payload(s, *header, d, k);
    let (p, q) = event_bounds(s, *header, k as int);
    if q - p >= 16 {
        lemma_event_header(before, p);
        let t = reversed_at(
            reversed_at(reversed_at(magic_righted(before, p), p + 4, 4), p + 8, 4),
            p + 12,
            4,
        );
        let size = u32_at(t, p + 4);
        let stop = if size < q - p {
            p + size
        } else {
            q
        };
        lemma_structures(t, p + 16, stop, d);
        let u = event_swapped(before, p, q, d);
        assert forall|x: int| p <= x < p + 16 implies #[trigger] r[x] == t[x] by {
            assert(r[x] == u[x]);
        }
        assert forall|x: int| p <= x < p + 16 implies #[trigger] before[x] == s[x] by {}
    }
}

/// The structures at the places `at` follow each other from behind the header of event `k` on.
pub open spec fn structures_of(s: Seq<u8>, h: RecordHeader, k: int, at: Seq<int>) -> bool {
    let (p, q) = event_bounds(s, h, k);
    let size = four(s, p + 4, true);
    &&& q - p >= 16
    &&& at.len() > 0
    &&& at[0] == p + 16
    &&& follow_turned(
        s,
        at,
        if size < q - p {
            p + size
        } else {
            q
        },
    )
}

/// The state of a payload right before the data of the last of the structures is turned round.
#[verifier::rlimit(50)]
#[verifier::spinoff_prover]
proof fn lemma_structure_at(
    s: Seq<u8>,
    header: RecordHeader,
    d: Option<DictView>,
    k: nat,
    at: Seq<int>,
) -> (t: Seq<u8>)
    requires
        has_event(s, header, k as int),
        structures_of(s, header, k as int, at),
    ensures
        ({
            let r = payload_swapped(s, header, d);
            let x = at.last();
            let len = turned_length(s, x);
            let h = header_at(t, x);
            let v = structure_swapped(t, x + 8, x + 8 + len, h, d);
            &&& 0 <= x && 0 <= len && x + 8 + len <= s.len() == t.len()
            &&& forall|y: int| x + 8 <= y < s.len() ==> #[trigger] t[y] == s[y]
            &&& forall|y: int| x + 8 <= y < x + 8 + len ==> #[trigger] r[y] == v[y]
            &&& h.group == s[x] * 0x100 + s[x + 1] && h.item == s[x + 2]
            &&& h.header_size == s[x + 4]
            &&& r[x] == s[x + 1] && r[x + 1] == s[x]
            &&& r[x + 2] == s[x + 2] && r[x + 3] == s[x + 3]
            &&& turned(r, s, x + 4, 4)
        }),
{
    let r = payload_swapped(s, header, d);
    let before = lemma_payload(s, header, d, k);
    let (p, q) = event_bounds(s, header, k as int);
    lemma_event_header(before, p);
    let t0 = reversed_at(
        reversed_at(reversed_at(magic_righted(before, p), p + 4, 4), p + 8, 4),
        p + 12,
        4,
    );
    lemma_turned_word(t0, before, p + 4);
    assert(four(before, p + 4, true) == four(s, p + 4, true)) by {
        assert(before[p + 4] == s[p + 4] && before[p + 5] == s[p + 5]);
        assert(before[p + 6] == s[p + 6] && before[p + 7] == s[p + 7]);
        reveal(four);
    }
    let size = u32_at(t0, p + 4);
    let stop = if size < q - p {
        p + size
    } else {
        q
    };
    assert forall|x: int| p + 16 <= x < s.len() implies #[trigger] t0[x] == s[x] by {
        assert(t0[x] == before[x]);
        assert(before[x] == s[x]);
    }
    lemma_follow_same(s, t0, at, stop, p + 16);
    let b2 = lemma_walk(t0, p + 16, stop, d, at);
    let u = event_swapped(before, p, q, d);
    assert(u == structures_swapped(t0, p + 16, stop, d));
    let x = at.last();
    let len = turned_length(s, x);
    assert(x >= p + 16 && x + 8 + len <= stop <= q);
    assert(t0[x + 5] == s[x + 5] && t0[x + 6] == s[x + 6] && t0[x + 7] == s[x + 7]);
    assert forall|y: int| x <= y < s.len() implies #[trigger] b2[y] == s[y] by {
        assert(b2[y] == t0[y]);
        assert(t0[y] == s[y]);
    }
    lemma_turned_header(b2, x);
    let t = reversed_at(reversed_at(b2, x, 2), x + 4, 4);
    let h = header_at(t, x);
    lemma_structure(t, x + 8, x + 8 + h.data_size, h, d);
    let v = structure_swapped(t, x + 8, x + 8 + h.data_size, h, d);
    assert(b2[x] == s[x] && b2[x + 1] == s[x + 1] && b2[x + 2] == s[x + 2] && b2[x + 3] == s[x + 3]);
    assert(b2[x + 4] == s[x + 4] && b2[x + 5] == s[x + 5]);
    assert(b2[x + 6] == s[x + 6] && b2[x + 7] == s[x + 7]);
    assert(h.data_size == len);
    assert forall|y: int| x <= y < x + 8 + len implies #[trigger] r[y] == v[y] by {
        assert(r[y] == u[y]);
    }
    assert forall|y: int| x <= y < x + 8 implies #[trigger] v[y] == t[y] by {}
    assert(r[x] == v[x] && r[x + 1] == v[x + 1] && r[x + 2] == v[x + 2] && r[x + 3] == v[x + 3]);
    assert(turned(r, s, x + 4, 4)) by {
        assert forall|j: int| 0 <= j < 4 implies #[trigger] r[x + 4 + j] == s[x + 4 + 4 - 1 - j] by {
            assert(r[x + 4 + j] == v[x + 4 + j]);
            assert(v[x + 4 + j] == t[x + 4 + j]);
            assert(t[x + 4 + j] == b2[x + 4 + 4 - 1 - j]);
            assert(b2[x + 4 + 4 - 1 - j] == s[x + 4 + 4 - 1 - j]);
        }
    }
    assert forall|y: int| x + 8 <= y < s.len() implies #[trigger] t[y] == s[y] by {
        assert(t[y] == b2[y]);
    }
    t
}

/// In a payload of the other byte order, the structures of an event are found by the lengths in
/// their headers as they stand there. The group and the length of each are turned round; item and
/// type stay. The data of a bank that the dictionary does not know stay as they are.
pub proof fn law_structure_is_turned<'b>(
    payload: &'b mut Vec<u8>,
    header: &RecordHeader,
    dict: Option<&Dict>,
    k: nat,
    at: Seq<int>,
)
    requires
        call_ensures(normalize_be_payload, (payload, header, dict), ()),
        has_event(old(payload)@, *header, k as int),
        structures_of(old(payload)@, *header, k as int, at),
    ensures
        ({
            let s = old(payload)@;
            let r = final(payload)@;
            let x = at.last();
            let id = s[x] * 0x100 + s[x + 1];
            &&& r[x] == s[x + 1] && r[x + 1] == s[x]
            &&& r[x + 2] == s[x + 2] && r[x + 3] == s[x + 3]
            &&& turned(r, s, x + 4, 4)
            &&& s[x + 4] == 0 && !(id == 32111 && s[x + 2] == 1) && (match dict {
                None => true,
                Some(d) => d@.by_id(id as u16, s[x + 2]) is None,
            }) ==> unturned(r, s, x + 8, turned_length(s, x))
        }),
{
    let s = old(payload)@;
    let t = lemma_structure_at(s, *header, dict_view(dict), k, at);
    let x = at.last();
    let len = turned_length(s, x);
    let h = header_at(t, x);
    let id = s[x] * 0x100 + s[x + 1];
    assert(h.group == id as u16);
    if s[x + 4] == 0 && !(id == 32111 && s[x + 2] == 1) && (match dict {
        None => true,
        Some(d) => d@.by_id(id as u16, s[x + 2]) is None,
    }) {
        assert(structure_swapped(t, x + 8, x + 8 + len, h, dict_view(dict)) == t);
    }
}

/// Every element of every column of a bank that the dictionary knows is turned round: the columns
/// lie one behind the other, each with as many elements as there are rows.
#[verifier::spinoff_prover]
pub proof fn law_bank_is_turned<'b>(
    payload: &'b mut Vec<u8>,
    header: &RecordHeader,
    dict: &Dict,
    k: nat,
    at: Seq<int>,
    schema: SchemaView,
    c: int,
    e: int,
)
    requires
        call_ensures(normalize_be_payload, (payload, header, Some(dict)), ()),
        has_event(old(payload)@, *header, k as int),
        structures_of(old(payload)@, *header, k as int, at),
        ({
            let s = old(payload)@;
            let x = at.last();
            let id = s[x] * 0x100 + s[x + 1];
            let rows = (turned_length(s, x) / schema.row_size as int) as nat;
            let cols = bank_columns(schema);
            &&& s[x + 4] == 0
            &&& !(id == 32111 && s[x + 2] == 1)
            &&& dict@.by_id(id as u16, s[x + 2]) == Some(schema)
            &&& schema.row_size > 0
            &&& 0 <= c < cols.len()
            &&& columns_take(cols, rows, 0, c + 1) <= turned_length(s, x)
            &&& 0 <= e < rows * cols[c].1
        }),
    ensures
        ({
            let s = old(payload)@;
            let x = at.last();
            let rows = (turned_length(s, x) / schema.row_size as int) as nat;
            let cols = bank_columns(schema);
            turned(
                final(payload)@,
                s,
                x + 8 + columns_take(cols, rows, 0, c) + e * cols[c].0,
                cols[c].0 as int,
            )
        }),
{
    let s = old(payload)@;
    let r = final(payload)@;
    let t = lemma_structure_at(s, *header, Some(dict@), k, at);
    let x = at.last();
    let len = turned_length(s, x);
    let h = header_at(t, x);
    let rows = (len / schema.row_size as int) as nat;
    let cols = bank_columns(schema);
    let id = s[x] * 0x100 + s[x + 1];
    assert(h.group == id as u16);
    crate::laws::bytes::law_element_types();
    assert(schema_columns(schema.entries) =~= cols);
    lemma_elements_turned(r, s, t, x + 8, len, rows, cols, c, e);
}

/// The columns of a bank: the bytes of an element, and the elements of a row.
pub open spec fn bank_columns(schema: SchemaView) -> Seq<(nat, nat)> {
    schema.entries.map_values(
        |e: EntryView| (crate::laws::banks::type_bytes(e.ty) as nat, e.length as nat),
    )
}

proof fn lemma_elements_turned(
    r: Seq<u8>,
    s: Seq<u8>,
    t: Seq<u8>,
    from: int,
    len: int,
    rows: nat,
    cols: Seq<(nat, nat)>,
    c: int,
    e: int,
)
    requires
        0 <= from,
        0 <= len,
        from + len <= s.len() == t.len(),
        forall|j: int| 0 <= j < cols.len() ==> (#[trigger] cols[j]).0 > 0,
        forall|y: int| from <= y < s.len() ==> #[trigger] t[y] == s[y],
        len > 0 ==> forall|y: int|
            from <= y < from + len ==> #[trigger] r[y] == columns_swapped(
                t,
                from,
                from + len,
                rows,
                cols,
                0,
            )[y],
        0 <= c < cols.len(),
        columns_take(cols, rows, 0, c + 1) <= len,
        0 <= e < rows * cols[c].1,
    ensures
        turned(r, s, from + columns_take(cols, rows, 0, c) + e * cols[c].0, cols[c].0 as int),
{
    lemma_columns(t, from, from + len, rows, cols, 0, c);
    let v = columns_swapped(t, from, from + len, rows, cols, 0);
    let w = cols[c].0 as int;
    let y = from + columns_take(cols, rows, 0, c) + e * cols[c].0;
    assert(turned(v, t, y, w));
    lemma_take_nonneg(cols, rows, 0, c);
    lemma_take_last(cols, rows, 0, c);
    assert(e * w >= 0 && e * w + w <= rows * cols[c].1 * w) by (nonlinear_arith)
        requires
            0 <= e < rows * cols[c].1,
            w > 0,
    ;
    assert forall|j: int| 0 <= j < w implies #[trigger] r[y + j] == s[y + w - 1 - j] by {
        assert(r[y + j] == v[y + j]);
        assert(v[y + j] == t[y + w - 1 - j]);
        assert(t[y + w - 1 - j] == s[y + w - 1 - j]);
    }
}

/// The bank of the record index, 32111/1, has its columns in every file: positions of eight bytes,
/// lengths and entries of four, and two user words of eight. Each element is turned round.
#[verifier::spinoff_prover]
pub proof fn law_index_bank_is_turned<'b>(
    payload: &'b mut Vec<u8>,
    header: &RecordHeader,
    dict: Option<&Dict>,
    k: nat,
    at: Seq<int>,
    row: int,
)
    requires
        call_ensures(normalize_be_payload, (payload, header, dict), ()),
        has_event(old(payload)@, *header, k as int),
        structures_of(old(payload)@, *header, k as int, at),
        ({
            let s = old(payload)@;
            let x = at.last();
            &&& s[x + 4] == 0
            &&& s[x] * 0x100 + s[x + 1] == 32111 && s[x + 2] == 1
            &&& 0 <= row < turned_length(s, x) / 32
        }),
    ensures
        ({
            let s = old(payload)@;
            let r = final(payload)@;
            let x = at.last() + 8;
            let n = turned_length(s, at.last()) / 32;
            &&& turned(r, s, x + 8 * row, 8)
            &&& turned(r, s, x + 8 * n + 4 * row, 4)
            &&& turned(r, s, x + 12 * n + 4 * row, 4)
            &&& turned(r, s, x + 16 * n + 8 * row, 8)
            &&& turned(r, s, x + 24 * n + 8 * row, 8)
        }),
{
    let s = old(payload)@;
    let r = final(payload)@;
    let t = lemma_structure_at(s, *header, dict_view(dict), k, at);
    let x = at.last();
    let len = turned_length(s, x);
    let n = len / 32;
    let cols = index_columns();
    let m = n as nat;
    assert(columns_take(cols, m, 0, 0) == 0);
    lemma_take_last(cols, m, 0, 0);
    lemma_take_last(cols, m, 0, 1);
    lemma_take_last(cols, m, 0, 2);
    lemma_take_last(cols, m, 0, 3);
    lemma_take_last(cols, m, 0, 4);
    assert(m * 1 * 8 == 8 * n && m * 1 * 4 == 4 * n) by (nonlinear_arith)
        requires
            m == n,
    ;
    assert(cols[0] == (8nat, 1nat) && cols[1] == (4nat, 1nat) && cols[2] == (4nat, 1nat) && cols[3]
        == (8nat, 1nat) && cols[4] == (8nat, 1nat));
    assert(columns_take(cols, m, 0, 1) == 8 * n);
    assert(columns_take(cols, m, 0, 2) == 12 * n);
    assert(columns_take(cols, m, 0, 3) == 16 * n);
    assert(columns_take(cols, m, 0, 4) == 24 * n);
    assert(columns_take(cols, m, 0, 5) == 32 * n);
    lemma_elements_turned(r, s, t, x + 8, len, m, cols, 0, row);
    lemma_elements_turned(r, s, t, x + 8, len, m, cols, 1, row);
    lemma_elements_turned(r, s, t, x + 8, len, m, cols, 2, row);
    lemma_elements_turned(r, s, t, x + 8, len, m, cols, 3, row);
    lemma_elements_turned(r, s, t, x + 8, len, m, cols, 4, row);
}

/// A composite structure keeps its format, and every field of every row behind it is turned round.
/// The fields are those of the letters of the format.
#[verifier::spinoff_prover]
pub proof fn law_composite_is_turned<'b>(
    payload: &'b mut Vec<u8>,
    header: &RecordHeader,
    dict: Option<&Dict>,
    k: nat,
    at: Seq<int>,
    row: nat,
    field: nat,
)
    requires
        call_ensures(normalize_be_payload, (payload, header, dict), ()),
        has_event(old(payload)@, *header, k as int),
        structures_of(old(payload)@, *header, k as int, at),
        ({
            let s = old(payload)@;
            let x = at.last();
            let f = s[x + 4] as int;
            let format = s.subrange(x + 8, x + 8 + f);
            let types = field_types(vstd::utf8::decode_utf8(format));
            let w = fields_take(types, types.len() as int);
            &&& 0 < f <= turned_length(s, x)
            &&& vstd::utf8::valid_utf8(format)
            &&& field < types.len()
            &&& row * w + w <= turned_length(s, x) - f
        }),
    ensures
        ({
            let s = old(payload)@;
            let r = final(payload)@;
            let x = at.last();
            let f = s[x + 4] as int;
            let types = field_types(vstd::utf8::decode_utf8(s.subrange(x + 8, x + 8 + f)));
            let w = fields_take(types, types.len() as int);
            &&& unturned(r, s, x + 8, f)
            &&& turned(
                r,
                s,
                x + 8 + f + row * w + fields_take(types, field as int),
                crate::laws::banks::type_bytes(types[field as int]) as int,
            )
        }),
{
    let s = old(payload)@;
    let r = final(payload)@;
    let t = lemma_structure_at(s, *header, dict_view(dict), k, at);
    let x = at.last();
    let len = turned_length(s, x);
    let f = s[x + 4] as int;
    let format = s.subrange(x + 8, x + 8 + f);
    assert(format =~= t.subrange(x + 8, x + 8 + f));
    let types = field_types(vstd::utf8::decode_utf8(format));
    let w = field_sizes(types, types.len());
    crate::laws::bytes::law_element_types();
    lemma_fields_take(types, types.len());
    lemma_fields_take(types, field);
    lemma_field_sizes_monotone(types, 1, types.len());
    reveal_with_fuel(field_sizes, 3);
    let n = ((len - f) / w as int) as nat;
    assert(n * w <= len - f && row < n) by (nonlinear_arith)
        requires
            w > 0,
            len - f >= 0,
            row * w + w <= len - f,
            n == (len - f) / w as int,
    ;
    lemma_rows_turned(t, x + 8 + f, types, n, row, field);
    let v = rows_swapped(t, x + 8 + f, types, n);
    assert(v == structure_swapped(t, x + 8, x + 8 + len, header_at(t, x), dict_view(dict)));
    let y = x + 8 + f + row * w + field_sizes(types, field);
    let z = types[field as int].spec_size() as int;
    lemma_field_sizes_monotone(types, field + 1, types.len());
    assert(row * w >= 0) by (nonlinear_arith);
    assert forall|j: int| 0 <= j < z implies #[trigger] r[y + j] == s[y + z - 1 - j] by {
        assert(r[y + j] == v[y + j]);
        assert(v[y + j] == t[y + z - 1 - j]);
        assert(t[y + z - 1 - j] == s[y + z - 1 - j]);
    }
    assert forall|j: int| 0 <= j < f implies #[trigger] r[x + 8 + j] == s[x + 8 + j] by {
        assert(r[x + 8 + j] == v[x + 8 + j]);
        assert(v[x + 8 + j] == t[x + 8 + j]);
    }
}

proof fn lemma_follow_same(s: Seq<u8>, t: Seq<u8>, at: Seq<int>, end: int, from: int)
    requires
        follow_turned(s, at, end),
        at.len() > 0,
        at[0] == from,
        end <= s.len(),
        s.len() == t.len(),
        forall|x: int| from <= x < s.len() ==> #[trigger] t[x] == s[x],
        from >= 0,
    ensures
        follow_turned(t, at, end),
        at.last() >= from,
{
    let m = at.len() - 1;
    lemma_increasing_from(s, at, 0, m);
    assert forall|j: int| 0 <= j < at.len() - 1 implies #[trigger] follows(t, at, j) by {
        assert(follows(s, at, j));
        lemma_increasing_from(s, at, 0, j);
        lemma_increasing_from(s, at, j + 1, m);
        let y = at[j];
        assert(y >= from && y + 8 <= end);
        assert(t[y + 5] == s[y + 5] && t[y + 6] == s[y + 6] && t[y + 7] == s[y + 7]);
    }
    let y = at.last();
    assert(t[y + 5] == s[y + 5] && t[y + 6] == s[y + 6] && t[y + 7] == s[y + 7]);
}

} // verus!
