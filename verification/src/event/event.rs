//! `Event<'a>`: a borrowed view over the bytes of an event.

use vstd::prelude::*;
use vstd::slice::slice_subrange;
use crate::wire::bytes::{read_u16_le, read_u32_le};
#[allow(unused_imports)]
use crate::wire::bytes::{
    law_le16_round_trip, law_le32_round_trip, le16, le32, u16_at, u32_at,
};

verus! {

/// Decoded 8-byte structure header.
#[derive(Debug, Copy, Clone, Eq, PartialEq, Structural)]
pub struct StructureHeader {
    pub group: u16,
    pub item: u8,
    pub ty: u8,
    /// Data size in bytes, excluding the 8-byte header.
    pub data_size: u32,
    /// Inline header size (composite banks). Zero for plain banks.
    pub header_size: u8,
}

/// One structure of an event: its header and its data.
#[verifier::ext_equal]
pub struct StructView {
    pub header: StructureHeader,
    pub data: Seq<u8>,
}

/// The structure header at byte `pos` of `s`: group, item, type, and a length word whose low
/// 24 bits are the data size and whose top byte is the inline header size.
pub open spec fn header_at(s: Seq<u8>, pos: int) -> StructureHeader {
    StructureHeader {
        group: u16_at(s, pos),
        item: s[pos + 2],
        ty: s[pos + 3],
        data_size: (u32_at(s, pos + 4) % 0x100_0000) as u32,
        header_size: (u32_at(s, pos + 4) / 0x100_0000) as u8,
    }
}

/// A whole structure stands at byte `pos` of `s`, before `end`.
pub open spec fn structure_fits(s: Seq<u8>, pos: int, end: int) -> bool {
    pos + 8 <= end && pos + 8 + header_at(s, pos).data_size <= end
}

/// The structure at byte `pos` of `s`.
pub open spec fn structure_at(s: Seq<u8>, pos: int) -> StructView {
    StructView {
        header: header_at(s, pos),
        data: s.subrange(pos + 8, pos + 8 + header_at(s, pos).data_size),
    }
}

/// Where the structure after the one at `pos` starts.
pub open spec fn next_structure(s: Seq<u8>, pos: int) -> int {
    pos + 8 + header_at(s, pos).data_size
}

/// The structures of `s` from byte `pos` on, up to the first that does not end by `end`.
pub open spec fn structures(s: Seq<u8>, pos: int, end: int) -> Seq<StructView>
    decreases end - pos,
{
    if structure_fits(s, pos, end) {
        seq![structure_at(s, pos)] + structures(s, next_structure(s, pos), end)
    } else {
        Seq::empty()
    }
}

/// Where the structures of the event `s` end: at the size in its header, or at its last byte
/// where that comes first. An event shorter than its header has no structures.
pub open spec fn event_end(s: Seq<u8>) -> int {
    let size = event_size(s);
    if size < s.len() {
        size as int
    } else {
        s.len() as int
    }
}

/// The size in the header of the event `s`; zero where there is no header.
pub open spec fn event_size(s: Seq<u8>) -> u32 {
    if s.len() < 16 {
        0
    } else {
        u32_at(s, 4)
    }
}

/// The tag in the header of the event `s`; zero where there is no header.
pub open spec fn event_tag(s: Seq<u8>) -> u32 {
    if s.len() < 16 {
        0
    } else {
        u32_at(s, 8)
    }
}

/// The structures of the event `s`, in order.
pub open spec fn event_structures(s: Seq<u8>) -> Seq<StructView> {
    structures(s, 16, event_end(s))
}

/// The first structure with this id.
pub open spec fn found(st: Seq<StructView>, group: u16, item: u8) -> Option<StructView>
    decreases st.len(),
{
    if st.len() == 0 {
        None
    } else if st[0].header.group == group && st[0].header.item == item {
        Some(st[0])
    } else {
        found(st.drop_first(), group, item)
    }
}

/// A structure is found exactly where some structure has the id.
pub proof fn law_found_iff_present(st: Seq<StructView>, group: u16, item: u8)
    ensures
        found(st, group, item) is Some <==> exists|i: int|
            0 <= i < st.len() && (#[trigger] st[i]).header.group == group && st[i].header.item
                == item,
        found(st, group, item) matches Some(f) ==> f.header.group == group && f.header.item == item
            && st.contains(f),
    decreases st.len(),
{
    if st.len() > 0 {
        let rest = st.drop_first();
        law_found_iff_present(rest, group, item);
        if st[0].header.group == group && st[0].header.item == item {
            assert(st.contains(st[0]));
        } else {
            if found(rest, group, item) is Some {
                let i = choose|i: int|
                    0 <= i < rest.len() && (#[trigger] rest[i]).header.group == group
                        && rest[i].header.item == item;
                assert(st[i + 1] == rest[i]);
                let f = found(rest, group, item)->0;
                let k = choose|k: int| 0 <= k < rest.len() && rest[k] == f;
                assert(st[k + 1] == f);
            }
            if exists|i: int|
                0 <= i < st.len() && (#[trigger] st[i]).header.group == group && st[i].header.item
                    == item {
                let i = choose|i: int|
                    0 <= i < st.len() && (#[trigger] st[i]).header.group == group
                        && st[i].header.item == item;
                assert(rest[i - 1] == st[i]);
            }
        }
    }
}

/// Every structure of an event lies within it, and its data has the size that its header says.
pub proof fn lemma_structure_sizes(s: Seq<u8>, pos: int, end: int, i: int)
    requires
        0 <= pos,
        end <= s.len(),
        0 <= i < structures(s, pos, end).len(),
    ensures
        structures(s, pos, end)[i].data.len() == structures(s, pos, end)[i].header.data_size,
        structures(s, pos, end)[i].data.len() < 0x100_0000,
    decreases end - pos,
{
    if i > 0 {
        lemma_structure_sizes(s, next_structure(s, pos), end, i - 1);
    }
}

/// The structures of an event that is followed by other bytes are the same.
pub proof fn lemma_structures_same(s: Seq<u8>, t: Seq<u8>, d: int, pos: int, end: int)
    requires
        0 <= pos,
        0 <= pos + d,
        end <= s.len(),
        end + d <= t.len(),
        forall|k: int| pos <= k < end ==> s[k] == #[trigger] t[k + d],
    ensures
        structures(s, pos, end) =~= structures(t, pos + d, end + d),
    decreases end - pos,
{
    if pos + 8 <= end {
        assert(forall|k: int| pos <= k < end ==> s[k] == #[trigger] t[k + d]);
        assert(s[pos] == t[pos + d] && s[pos + 1] == t[pos + 1 + d] && s[pos + 2] == t[pos + 2 + d]
            && s[pos + 3] == t[pos + 3 + d] && s[pos + 4] == t[pos + 4 + d] && s[pos + 5] == t[pos
            + 5 + d] && s[pos + 6] == t[pos + 6 + d] && s[pos + 7] == t[pos + 7 + d]);
        assert(u16_at(s, pos) == u16_at(t, pos + d)) by {
            reveal(u16_at);
        }
        crate::wire::bytes::lemma_u32_at_same(s, pos + 4, t, pos + d + 4);
        assert(header_at(s, pos) == header_at(t, pos + d));
        if structure_fits(s, pos, end) {
            let next = next_structure(s, pos);
            let n = header_at(s, pos).data_size as int;
            assert forall|k: int| 0 <= k < n implies structure_at(s, pos).data[k] == structure_at(
                t,
                pos + d,
            ).data[k] by {
                assert(s[pos + 8 + k] == t[pos + 8 + k + d]);
            }
            assert(structure_at(s, pos).data =~= structure_at(t, pos + d).data);
            lemma_structures_same(s, t, d, next, end);
        }
    }
}

impl StructView {
    /// The data has the size that the header says, and that size fits its field.
    pub open spec fn sized(self) -> bool {
        self.data.len() == self.header.data_size && self.data.len() < 0x100_0000
    }
}

/// The bytes of a structure: header, then data.
pub open spec fn struct_bytes(st: StructView) -> Seq<u8> {
    le16(st.header.group) + seq![st.header.item, st.header.ty] + le32(
        (st.header.header_size * 0x100_0000 + st.header.data_size) as u32,
    ) + st.data
}

/// The bytes of the structures, one after the other.
pub open spec fn structs_bytes(sts: Seq<StructView>) -> Seq<u8>
    decreases sts.len(),
{
    if sts.len() == 0 {
        Seq::empty()
    } else {
        struct_bytes(sts[0]) + structs_bytes(sts.drop_first())
    }
}

/// Structures written one after the other are read back one after the other.
pub proof fn lemma_structures_of_bytes(s: Seq<u8>, pos: int, sts: Seq<StructView>)
    requires
        0 <= pos <= s.len(),
        s.subrange(pos, s.len() as int) == structs_bytes(sts),
        forall|i: int| 0 <= i < sts.len() ==> (#[trigger] sts[i]).sized(),
    ensures
        structures(s, pos, s.len() as int) =~= sts,
    decreases sts.len(),
{
    let tail = s.subrange(pos, s.len() as int);
    assert(tail.len() == s.len() - pos);
    if sts.len() > 0 {
        let st = sts[0];
        let rest = sts.drop_first();
        let word = (st.header.header_size * 0x100_0000 + st.header.data_size) as u32;
        let b = struct_bytes(st);
        assert(st.sized());
        law_le16_round_trip(st.header.group);
        law_le32_round_trip(word);
        assert(b.len() == 8 + st.data.len());
        assert(tail == b + structs_bytes(rest));
        assert forall|k: int| 0 <= k < b.len() implies s[pos + k] == b[k] by {
            assert(s[pos + k] == tail[k]);
        }
        assert(u16_at(s, pos) == st.header.group) by {
            reveal(u16_at);
            let g = le16(st.header.group);
            assert(b[0] == g[0] && b[1] == g[1]);
            assert(s[pos + 0] == b[0] && s[pos + 1] == b[1]);
        }
        assert(u32_at(s, pos + 4) == word) by {
            let w = le32(word);
            assert(b[4] == w[0] && b[5] == w[1] && b[6] == w[2] && b[7] == w[3]);
            assert(s[pos + 4] == b[4] && s[pos + 5] == b[5] && s[pos + 6] == b[6] && s[pos + 7]
                == b[7]);
            crate::wire::bytes::lemma_u32_at_same(s, pos + 4, w, 0);
        }
        assert(s[pos + 2] == b[2] && s[pos + 3] == b[3]);
        assert(header_at(s, pos) == st.header);
        assert(structure_at(s, pos).data =~= st.data) by {
            assert forall|k: int| 0 <= k < st.data.len() implies s[pos + 8 + k] == st.data[k] by {
                assert(s[pos + (8 + k)] == b[8 + k]);
            }
        }
        let next = pos + b.len();
        assert(s.subrange(next, s.len() as int) =~= structs_bytes(rest)) by {
            assert(tail.subrange(b.len() as int, tail.len() as int) =~= structs_bytes(rest));
        }
        lemma_structures_of_bytes(s, next, rest);
        assert(structure_at(s, pos) == st);
        assert(seq![st] + rest =~= sts);
    }
}

impl StructureHeader {
    pub fn parse(buf: &[u8]) -> (r: Option<Self>)
        ensures
            r == (if buf.len() < 8 {
                None
            } else {
                Some(header_at(buf@, 0))
            }),
    {
        if buf.len() < 8 {
            return None;
        }
        Some(Self::parse_at(buf, 0))
    }

    /// The header at `buf[pos..pos + 8]`.
    pub fn parse_at(buf: &[u8], pos: usize) -> (r: Self)
        requires
            pos + 8 <= buf.len(),
        ensures
            r == header_at(buf@, pos as int),
            r.data_size < 0x100_0000,
    {
        let length: u32 = read_u32_le(buf, pos + 4);
        StructureHeader {
            group: read_u16_le(buf, pos),
            item: buf[pos + 2],
            ty: buf[pos + 3],
            data_size: length % 0x100_0000,
            header_size: (length / 0x100_0000) as u8,
        }
    }
}

/// Borrowed view over the bytes of an event.
#[derive(Debug, Copy, Clone)]
pub struct Event<'a> {
    buf: &'a [u8],
}

impl<'a> View for Event<'a> {
    type V = Seq<u8>;

    closed spec fn view(&self) -> Seq<u8> {
        self.buf@
    }
}

impl<'a> Event<'a> {
    /// Wrap a byte slice as an event. Nothing is validated before the structures are walked.
    pub fn new(buf: &'a [u8]) -> (r: Self)
        ensures
            r@ == buf@,
    {
        Event { buf }
    }

    pub fn raw(&self) -> (r: &'a [u8])
        ensures
            r@ == self@,
    {
        self.buf
    }

    pub fn size(&self) -> (r: u32)
        ensures
            r == event_size(self@),
    {
        if self.buf.len() < 16 {
            return 0;
        }
        read_u32_le(self.buf, 4)
    }

    pub fn tag(&self) -> (r: u32)
        ensures
            r == event_tag(self@),
    {
        if self.buf.len() < 16 {
            return 0;
        }
        read_u32_le(self.buf, 8)
    }

    /// Find the first structure with `(group, item)`: its header, and its data.
    pub fn find(&self, group: u16, item: u8) -> (r: Option<(StructureHeader, &'a [u8])>)
        ensures
            match r {
                Some((h, d)) => found(event_structures(self@), group, item) == Some(
                    StructView { header: h, data: d@ },
                ) && d.len() == h.data_size && d.len() < 0x100_0000,
                None => found(event_structures(self@), group, item) is None,
            },
    {
        let mut it = self.iter_structures();
        loop
            invariant
                it.inv(),
                found(event_structures(self@), group, item) == found(it@, group, item),
            decreases it.left(),
        {
            match it.next() {
                Some((h, d)) => {
                    if h.group == group && h.item == item {
                        return Some((h, d));
                    }
                },
                None => {
                    return None;
                },
            }
        }
    }

    /// True if a structure with the given identifier exists in the event.
    pub fn has(&self, group: u16, item: u8) -> (r: bool)
        ensures
            r == (found(event_structures(self@), group, item) is Some),
    {
        self.find(group, item).is_some()
    }

    /// A walk over the structures, in order.
    pub fn iter_structures(&self) -> (r: StructureIter<'a>)
        ensures
            r.inv(),
            r@ == event_structures(self@),
    {
        let size: usize = self.size() as usize;
        let end: usize = if size < self.buf.len() {
            size
        } else {
            self.buf.len()
        };
        StructureIter { buf: self.buf, pos: 16, end }
    }

    /// All structures, in order.
    pub fn structures(&self) -> (r: Vec<(StructureHeader, &'a [u8])>)
        ensures
            r.len() == event_structures(self@).len(),
            forall|i: int|
                0 <= i < r.len() ==> (#[trigger] r@[i]).0 == event_structures(self@)[i].header
                    && r@[i].1@ == event_structures(self@)[i].data,
    {
        let mut out: Vec<(StructureHeader, &'a [u8])> = Vec::new();
        let mut it = self.iter_structures();
        let ghost all = event_structures(self@);
        loop
            invariant
                it.inv(),
                all == event_structures(self@),
                out.len() + it@.len() == all.len(),
                it@ =~= all.subrange(out.len() as int, all.len() as int),
                forall|i: int|
                    0 <= i < out.len() ==> (#[trigger] out@[i]).0 == all[i].header && out@[i].1@
                        == all[i].data,
            decreases it.left(),
        {
            let ghost before = it@;
            match it.next() {
                Some(p) => {
                    assert(before[0] == all[out.len() as int]);
                    out.push(p);
                },
                None => {
                    return out;
                },
            }
        }
    }
}

/// A walk over the structures of an event.
#[derive(Debug, Clone, Copy)]
pub struct StructureIter<'a> {
    buf: &'a [u8],
    pos: usize,
    end: usize,
}

impl<'a> View for StructureIter<'a> {
    type V = Seq<StructView>;

    /// The structures still to come.
    closed spec fn view(&self) -> Seq<StructView> {
        structures(self.buf@, self.pos as int, self.end as int)
    }
}

impl<'a> StructureIter<'a> {
    /// The walk stays within its bytes.
    pub closed spec fn inv(self) -> bool {
        self.end <= self.buf.len()
    }

    /// Bytes still to walk.
    pub closed spec fn left(self) -> nat {
        if self.pos <= self.end {
            (self.end - self.pos) as nat
        } else {
            0
        }
    }

    /// Byte position of the next structure.
    pub closed spec fn at(self) -> int {
        self.pos as int
    }

    /// The next structure, if there is one. A structure that is cut off ends the walk.
    pub fn next(&mut self) -> (r: Option<(StructureHeader, &'a [u8])>)
        requires
            old(self).inv(),
        ensures
            final(self).inv(),
            match r {
                Some((h, d)) => {
                    &&& old(self)@.len() > 0
                    &&& old(self)@[0] == (StructView { header: h, data: d@ })
                    &&& final(self)@ == old(self)@.drop_first()
                    &&& final(self).left() < old(self).left()
                    &&& d.len() == h.data_size
                    &&& d.len() < 0x100_0000
                },
                None => old(self)@.len() == 0 && *final(self) == *old(self),
            },
    {
        if self.pos > self.end || self.end - self.pos < 8 {
            return None;
        }
        let hdr = StructureHeader::parse_at(self.buf, self.pos);
        let size: usize = hdr.data_size as usize;
        let start: usize = self.pos + 8;
        if size > self.end - start {
            return None;
        }
        let data = slice_subrange(self.buf, start, start + size);
        let ghost before = self@;
        self.pos = start + size;
        assert(before.drop_first() =~= self@);
        Some((hdr, data))
    }
}

} // verus!
