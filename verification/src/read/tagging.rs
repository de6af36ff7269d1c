//! Changing event tags in place: which four bytes of which file to overwrite.
//!
//! Only events of uncompressed records can be changed so. Every update is checked before any
//! byte is named, so that a bad one leaves all files as they are.

use vstd::prelude::*;
use crate::error::{HipoError, Result};
#[allow(unused_imports)]
use crate::event::event::event_tag;
#[allow(unused_imports)]
use crate::event::view::EventView;
use crate::read::chain::Chain;
#[allow(unused_imports)]
use crate::read::chain::{events_base, law_one_place, lemma_in_file, ChainView, Place};
#[allow(unused_imports)]
use crate::read::inner::{header_in, record_in, FileView};
use crate::read::source::{unexpected_eof, ReadAt};
#[allow(unused_imports)]
use crate::read::stored::{stored_decoded, StoredView};
use crate::wire::bytes::read_u32_le;
#[allow(unused_imports)]
use crate::wire::bytes::{
    law_le32_round_trip, le32, lemma_u32_at_same, lemma_u32_at_spliced, spliced, u32_at,
    Endianness,
};
use crate::wire::constants::{CompressionType, EH_TAG};
#[allow(unused_imports)]
use crate::schema::dict::DictView;
#[allow(unused_imports)]
use crate::wire::event_index::numbered;
#[allow(unused_imports)]
use crate::wire::record::{block_of, law_decoded_record_is_wf, record_decoded, RecordView};
#[allow(unused_imports)]
use crate::wire::record_header::{lemma_header_bytes, RecordHeader};
#[allow(unused_imports)]
use crate::wire::split::Outcome;
use crate::wire::tables::{cumulate, read_u32_table};
#[allow(unused_imports)]
use crate::wire::tables::{cumulative, u32_table};

verus! {

/// `EVNT`, as a little-endian word: the first four bytes of every event.
pub const EVENT_MAGIC: u32 = 0x544E_5645;

/// Four bytes to overwrite: a new tag, at a byte of a file of the chain.
#[derive(Debug, Clone, Copy, PartialEq, Eq, Structural)]
pub struct TagPatch {
    pub file: usize,
    pub offset: u64,
    pub tag: u32,
}

/// The name of a compression, for messages.
pub open spec fn spec_label(c: CompressionType) -> &'static str {
    match c {
        CompressionType::Uncompressed => "none",
        CompressionType::Lz4 => "lz4",
        CompressionType::Lz4Best => "lz4best",
        CompressionType::Gzip => "gzip",
        CompressionType::ZstdPerChunk => "zstd",
        CompressionType::ZstdPerBank => "zstdperbank",
        CompressionType::ZstdPerColumn => "zstdpercolumn",
        CompressionType::Lz4PerBank => "lz4perbank",
        CompressionType::Lz4PerColumn => "lz4percolumn",
        CompressionType::Lz4FastPerBank => "lz4fastperbank",
        CompressionType::Lz4FastPerColumn => "lz4fastpercolumn",
        CompressionType::GzipPerBank => "gzipperbank",
        CompressionType::GzipPerColumn => "gzippercolumn",
        CompressionType::NonePerBank => "noneperbank",
        CompressionType::NonePerColumn => "nonepercolumn",
    }
}

/// The name of a compression, for messages.
pub fn compression_label(c: CompressionType) -> (r: &'static str)
    ensures
        r == spec_label(c),
{
    match c {
        CompressionType::Uncompressed => "none",
        CompressionType::Lz4 => "lz4",
        CompressionType::Lz4Best => "lz4best",
        CompressionType::Gzip => "gzip",
        CompressionType::ZstdPerChunk => "zstd",
        CompressionType::ZstdPerBank => "zstdperbank",
        CompressionType::ZstdPerColumn => "zstdpercolumn",
        CompressionType::Lz4PerBank => "lz4perbank",
        CompressionType::Lz4PerColumn => "lz4percolumn",
        CompressionType::Lz4FastPerBank => "lz4fastperbank",
        CompressionType::Lz4FastPerColumn => "lz4fastpercolumn",
        CompressionType::GzipPerBank => "gzipperbank",
        CompressionType::GzipPerColumn => "gzippercolumn",
        CompressionType::NonePerBank => "noneperbank",
        CompressionType::NonePerColumn => "nonepercolumn",
    }
}

/// Where the events of an uncompressed record lie.
pub struct LayoutView {
    /// Where the data section starts, counted from the start of the record.
    pub start: int,
    /// Where each event starts within the data section, and where the last one ends.
    pub offsets: Seq<u32>,
}

/// Where the events of the record at byte `off` of the file `f` lie; nothing where the record is
/// compressed or its index array is not there.
pub open spec fn layout_in(f: Seq<u8>, off: int) -> Option<LayoutView> {
    match header_in(f, off) {
        Err(_) => None,
        Ok(h) => if h.compression != CompressionType::Uncompressed || h.index_array_length
            > h.record_length - h.header_length || off + h.header_length + h.index_array_length
            > f.len() {
            None
        } else {
            Some(
                LayoutView {
                    start: h.header_length + h.data_start(),
                    offsets: cumulative(
                        u32_table(
                            f,
                            off + h.header_length,
                            (h.index_array_length / 4) as nat,
                        ),
                    ),
                },
            )
        },
    }
}

/// `e` is the error that looking for the events of the record ends with.
pub open spec fn layout_fault(f: Seq<u8>, off: int, e: HipoError) -> bool {
    match header_in(f, off) {
        Err(err) => e == err,
        Ok(h) => if h.compression != CompressionType::Uncompressed {
            e == (HipoError::InPlaceTagUnsupported {
                offset: off as u64,
                compression: spec_label(h.compression),
            })
        } else if h.index_array_length > h.record_length - h.header_length {
            e == (HipoError::CorruptRecord {
                offset: off as u64,
                reason: "index array larger than record payload",
            })
        } else {
            e is Io
        },
    }
}

/// Where event `e` of the record at byte `off` starts, as a byte of the file; nothing where the
/// record has no such event, or no event with a tag starts there.
pub open spec fn event_start(f: Seq<u8>, off: int, l: LayoutView, e: int) -> Option<int> {
    let at = off + l.start + l.offsets[e];
    if e < l.offsets.len() && at + 12 <= f.len() && u32_at(f, at) == EVENT_MAGIC {
        Some(at)
    } else {
        None
    }
}

/// `err` is the error that looking for event `e` ends with.
pub open spec fn event_fault(f: Seq<u8>, off: int, l: LayoutView, e: int, err: HipoError) -> bool {
    let at = off + l.start + l.offsets[e];
    if e >= l.offsets.len() {
        err == (HipoError::CorruptRecord {
            offset: 0,
            reason: "event index past record event count during in-place tag patch",
        })
    } else if at + 12 > f.len() {
        err is Io
    } else {
        err == (HipoError::CorruptRecord {
            offset: at as u64,
            reason: "event header magic mismatch during in-place tag patch",
        })
    }
}

/// Where the events of an uncompressed record lie.
#[derive(Debug)]
struct RecordLayout {
    start: u64,
    offsets: Vec<u32>,
}

impl View for RecordLayout {
    type V = LayoutView;

    closed spec fn view(&self) -> LayoutView {
        LayoutView { start: self.start as int, offsets: self.offsets@ }
    }
}

/// A resolved update: the file, where its record starts, the event in the record, the tag.
#[derive(Debug, Clone, Copy)]
struct Target {
    file: usize,
    record_offset: u64,
    event: u32,
    tag: u32,
}

impl ChainView {
    /// The file of update `u`, where its record starts, and the event in the record.
    pub open spec fn target(self, idx: int) -> (int, int, int) {
        let p = choose|p: Place| self.is_place(idx, p);
        (p.file, self.files[p.file].info.spans[p.record].file_offset as int, p.event)
    }

    /// The patch does what update `u` asks for.
    pub open spec fn patches(self, u: (u64, u32), p: TagPatch) -> bool {
        let (f, off, e) = self.target(u.0 as int);
        let bytes = self.files[f].bytes;
        &&& u.0 < self.total()
        &&& layout_in(bytes, off) is Some
        &&& event_start(bytes, off, layout_in(bytes, off)->0, e) is Some
        &&& p.file == f
        &&& p.offset == event_start(bytes, off, layout_in(bytes, off)->0, e)->0 + EH_TAG
        &&& p.tag == u.1
    }

    /// Update `k` is the first that names an event which the chain does not have.
    pub open spec fn beyond_at(self, us: Seq<(u64, u32)>, k: int, e: HipoError) -> bool {
        &&& 0 <= k < us.len()
        &&& forall|j: int| 0 <= j < k ==> (#[trigger] us[j]).0 < self.total()
        &&& us[k].0 >= self.total()
        &&& e == (HipoError::EventIndexOutOfRange { index: us[k].0, total: self.total() as u64 })
    }

    /// Every update names an event of the chain.
    pub open spec fn all_within(self, us: Seq<(u64, u32)>) -> bool {
        forall|j: int| 0 <= j < us.len() ==> (#[trigger] us[j]).0 < self.total()
    }

    /// The record of update `u` can be changed in place.
    pub open spec fn changeable(self, u: (u64, u32)) -> bool {
        layout_in(self.files[self.target(u.0 as int).0].bytes, self.target(u.0 as int).1) is Some
    }

    /// Update `k` is the first whose record cannot be changed in place, and `e` is the error.
    pub open spec fn unchangeable_at(self, us: Seq<(u64, u32)>, k: int, e: HipoError) -> bool {
        &&& 0 <= k < us.len()
        &&& forall|j: int| 0 <= j < k ==> self.changeable(#[trigger] us[j])
        &&& !self.changeable(us[k])
        &&& layout_fault(
            self.files[self.target(us[k].0 as int).0].bytes,
            self.target(us[k].0 as int).1,
            e,
        )
    }

    /// Every record can be changed in place, but no event starts where update `k` has one, and
    /// `e` is the error.
    pub open spec fn unfound_at(self, us: Seq<(u64, u32)>, k: int, e: HipoError) -> bool {
        let (f, off, ev) = self.target(us[k].0 as int);
        let bytes = self.files[f].bytes;
        &&& 0 <= k < us.len()
        &&& forall|j: int| 0 <= j < us.len() ==> self.changeable(#[trigger] us[j])
        &&& event_start(bytes, off, layout_in(bytes, off)->0, ev) is None
        &&& event_fault(bytes, off, layout_in(bytes, off)->0, ev, e)
    }

    /// What the patches of updates are. Numbers are checked first, then records, then events.
    pub open spec fn patches_end(self, us: Seq<(u64, u32)>, r: Result<Vec<TagPatch>>) -> bool {
        match r {
            Ok(ps) => ps.len() == us.len() && forall|k: int|
                0 <= k < ps.len() ==> self.patches(us[k], #[trigger] ps@[k]),
            Err(e) => {
                ||| exists|k: int| #[trigger] self.beyond_at(us, k, e)
                ||| self.all_within(us) && exists|k: int| #[trigger] self.unchangeable_at(us, k, e)
                ||| self.all_within(us) && exists|k: int| #[trigger] self.unfound_at(us, k, e)
            },
        }
    }
}

/// The layout of a record of a file.
#[derive(Debug)]
struct KnownLayout {
    file: usize,
    offset: u64,
    layout: RecordLayout,
}

/// The layout of this record, where it is among those known.
fn known_at(known: &Vec<KnownLayout>, file: usize, offset: u64) -> (r: Option<usize>)
    ensures
        r matches Some(i) ==> i < known.len() && known@[i as int].file == file
            && known@[i as int].offset == offset,
{
    let mut i: usize = known.len();
    while i > 0
        invariant
            i <= known.len(),
        decreases i,
    {
        i = i - 1;
        if known[i].file == file && known[i].offset == offset {
            return Some(i);
        }
    }
    None
}

impl<S: ReadAt> Chain<S> {
    /// Target `t` is that of update `u`.
    spec fn is_target(self, u: (u64, u32), t: Target) -> bool {
        &&& u.0 < self@.total()
        &&& t.tag == u.1
        &&& t.file < self@.files.len()
        &&& self@.target(u.0 as int) == (t.file as int, t.record_offset as int, t.event as int)
    }

    /// The layout is that of its record.
    spec fn is_layout(self, k: KnownLayout) -> bool {
        layout_in(self@.files[k.file as int].bytes, k.offset as int) == Some(k.layout@)
    }

    /// Find the event of every update.
    fn resolve_targets(&self, updates: &[(u64, u32)]) -> (r: Result<Vec<Target>>)
        ensures
            match r {
                Ok(ts) => ts.len() == updates.len() && forall|k: int|
                    0 <= k < ts.len() ==> self.is_target(updates@[k], #[trigger] ts@[k]),
                Err(e) => exists|k: int| #[trigger] self@.beyond_at(updates@, k, e),
            },
    {
        let _ = self.event_offsets();
        let mut out: Vec<Target> = Vec::new();
        let mut k: usize = 0;
        while k < updates.len()
            invariant
                k <= updates.len(),
                out.len() == k,
                forall|i: int|
                    0 <= i < self@.files.len() ==> numbered((#[trigger] self@.files[i]).info.spans),
                forall|j: int| 0 <= j < k ==> self.is_target(updates@[j], #[trigger] out@[j]),
            decreases updates.len() - k,
        {
            let (idx, tag) = updates[k];
            match self.locate(idx) {
                Some((f, rec, e)) => {
                    let offset: u64 = self.file(f).index().records()[rec].file_offset;
                    proof {
                        let p = Place { file: f as int, record: rec as int, event: e as int };
                        let q = choose|q: Place| self@.is_place(idx as int, q);
                        law_one_place(self@, idx as int, p, q);
                    }
                    out.push(Target { file: f, record_offset: offset, event: e, tag });
                },
                None => {
                    let e = HipoError::EventIndexOutOfRange {
                        index: idx,
                        total: self.event_count(),
                    };
                    proof {
                        assert forall|j: int| 0 <= j < k implies (#[trigger] updates@[j]).0
                            < self@.total() by {
                            assert(self.is_target(updates@[j], out@[j]));
                        }
                        assert(self@.beyond_at(updates@, k as int, e));
                    }
                    return Err(e);
                },
            }
            k = k + 1;
        }
        Ok(out)
    }

    /// Find the events of the record at `off` of file `f`.
    fn read_layout(&self, f: usize, off: u64) -> (r: Result<RecordLayout>)
        requires
            f < self@.files.len(),
        ensures
            self@.intact() || r is Ok ==> match layout_in(self@.files[f as int].bytes, off as int) {
                Some(l) => r is Ok && r->Ok_0@ == l,
                None => r is Err && layout_fault(
                    self@.files[f as int].bytes,
                    off as int,
                    r->Err_0,
                ),
            },
    {
        let inner = self.file(f);
        let ghost bytes = self@.files[f as int].bytes;
        proof {
            assert(self@.intact() ==> self@.files[f as int].intact);
        }
        let h = match inner.read_record_header(off) {
            Ok(h) => h,
            Err(e) => {
                return Err(e);
            },
        };
        if h.compression != CompressionType::Uncompressed {
            return Err(
                HipoError::InPlaceTagUnsupported {
                    offset: off,
                    compression: compression_label(h.compression),
                },
            );
        }
        if h.index_array_length as u64 > h.payload_bytes() {
            return Err(
                HipoError::CorruptRecord {
                    offset: off,
                    reason: "index array larger than record payload",
                },
            );
        }
        let n: usize = h.index_array_length as usize;
        let end: u128 = off as u128 + h.header_length as u128 + n as u128;
        if end > inner.len() as u128 {
            return Err(HipoError::Io(unexpected_eof()));
        }
        let index = match inner.read_bytes(off + h.header_length as u64, n) {
            Ok(index) => index,
            Err(e) => {
                return Err(e);
            },
        };
        let sizes = read_u32_table(index.as_slice(), 0, n / 4);
        proof {
            let at = off + h.header_length;
            let count = (h.index_array_length / 4) as nat;
            assert forall|i: int| 0 <= i < count implies #[trigger] u32_table(index@, 0, count)[i]
                == u32_table(bytes, at, count)[i] by {
                lemma_u32_at_same(index@, 4 * i, bytes, at + 4 * i);
            }
            assert(sizes@ =~= u32_table(bytes, at, count));
        }
        let start: u64 = h.header_length as u64 + h.index_array_length as u64
            + h.user_header_length as u64 + h.user_header_padding as u64;
        Ok(RecordLayout { start, offsets: cumulate(sizes.as_slice()) })
    }

    /// Find where an event starts, and check that one does.
    fn find_event(&self, t: &Target, l: &RecordLayout) -> (r: Result<u64>)
        requires
            t.file < self@.files.len(),
        ensures
            r matches Ok(at) ==> at <= u64::MAX - 12,
            self@.intact() || r is Ok ==> ({
                let bytes = self@.files[t.file as int].bytes;
                match event_start(bytes, t.record_offset as int, l@, t.event as int) {
                    Some(at) => r is Ok && r->Ok_0 == at,
                    None => r is Err && event_fault(
                        bytes,
                        t.record_offset as int,
                        l@,
                        t.event as int,
                        r->Err_0,
                    ),
                }
            }),
    {
        let e: usize = t.event as usize;
        if e >= l.offsets.len() {
            return Err(
                HipoError::CorruptRecord {
                    offset: 0,
                    reason: "event index past record event count during in-place tag patch",
                },
            );
        }
        proof {
            assert(self@.intact() ==> self@.files[t.file as int].intact);
        }
        let inner = self.file(t.file);
        let at: u128 = t.record_offset as u128 + l.start as u128 + l.offsets[e] as u128;
        if at + 12 > inner.len() as u128 {
            return Err(HipoError::Io(unexpected_eof()));
        }
        let at: u64 = at as u64;
        let head = match inner.read_bytes(at, 12) {
            Ok(head) => head,
            Err(e) => {
                return Err(e);
            },
        };
        proof {
            lemma_u32_at_same(head@, 0, self@.files[t.file as int].bytes, at as int);
        }
        if read_u32_le(head.as_slice(), 0) != EVENT_MAGIC {
            return Err(
                HipoError::CorruptRecord {
                    offset: at,
                    reason: "event header magic mismatch during in-place tag patch",
                },
            );
        }
        Ok(at)
    }

    /// The bytes to overwrite so that events get new tags: `(number, tag)` pairs, in order. Each
    /// number must be that of an event of the chain, and its record uncompressed. All updates
    /// are checked; where one fails there are no patches at all.
    pub fn tag_patches(&self, updates: &[(u64, u32)]) -> (r: Result<Vec<TagPatch>>)
        ensures
            self@.intact() || r is Ok || !self@.all_within(updates@) ==> self@.patches_end(
                updates@,
                r,
            ),
    {
        let targets = match self.resolve_targets(updates) {
            Ok(targets) => targets,
            Err(e) => {
                return Err(e);
            },
        };
        proof {
            assert forall|j: int| 0 <= j < updates.len() implies (#[trigger] updates@[j]).0
                < self@.total() by {
                assert(self.is_target(updates@[j], targets@[j]));
            }
            assert(self@.all_within(updates@));
        }
        let mut known: Vec<KnownLayout> = Vec::new();
        let mut which: Vec<usize> = Vec::new();
        let mut k: usize = 0;
        while k < targets.len()
            invariant
                k <= targets.len(),
                which.len() == k,
                targets.len() == updates.len(),
                self@.all_within(updates@),
                forall|j: int|
                    0 <= j < targets.len() ==> self.is_target(updates@[j], #[trigger] targets@[j]),
                forall|i: int| 0 <= i < known.len() ==> self.is_layout(#[trigger] known@[i]),
                forall|j: int|
                    0 <= j < k ==> (#[trigger] which@[j]) < known.len() && known@[which@[j] as int].file
                        == targets@[j].file && known@[which@[j] as int].offset
                        == targets@[j].record_offset,
            decreases targets.len() - k,
        {
            let t = targets[k];
            assert(self.is_target(updates@[k as int], t));
            match known_at(&known, t.file, t.record_offset) {
                Some(i) => {
                    which.push(i);
                },
                None => {
                    let layout = match self.read_layout(t.file, t.record_offset) {
                        Ok(layout) => layout,
                        Err(e) => {
                            proof {
                                if self@.intact() {
                                    assert forall|j: int| 0 <= j < k implies self@.changeable(
                                        #[trigger] updates@[j],
                                    ) by {
                                        assert(self.is_target(updates@[j], targets@[j]));
                                        assert(self.is_layout(known@[which@[j] as int]));
                                    }
                                    assert(self@.unchangeable_at(updates@, k as int, e));
                                }
                            }
                            return Err(e);
                        },
                    };
                    let ghost before = known@;
                    known.push(KnownLayout { file: t.file, offset: t.record_offset, layout });
                    which.push(known.len() - 1);
                    proof {
                        assert forall|i: int| 0 <= i < known.len() implies self.is_layout(
                            #[trigger] known@[i],
                        ) by {
                            if i < before.len() {
                                assert(known@[i] == before[i]);
                            }
                        }
                        assert forall|j: int| 0 <= j < k + 1 implies (#[trigger] which@[j])
                            < known.len() && known@[which@[j] as int].file == targets@[j].file
                            && known@[which@[j] as int].offset == targets@[j].record_offset by {
                            if j < k {
                                assert(known@[which@[j] as int] == before[which@[j] as int]);
                            }
                        }
                    }
                },
            }
            k = k + 1;
        }
        let mut out: Vec<TagPatch> = Vec::new();
        let mut k: usize = 0;
        while k < targets.len()
            invariant
                k <= targets.len(),
                out.len() == k,
                which.len() == targets.len(),
                targets.len() == updates.len(),
                self@.all_within(updates@),
                forall|j: int|
                    0 <= j < targets.len() ==> self.is_target(updates@[j], #[trigger] targets@[j]),
                forall|i: int| 0 <= i < known.len() ==> self.is_layout(#[trigger] known@[i]),
                forall|j: int|
                    0 <= j < targets.len() ==> (#[trigger] which@[j]) < known.len()
                        && known@[which@[j] as int].file == targets@[j].file
                        && known@[which@[j] as int].offset == targets@[j].record_offset,
                forall|j: int|
                    0 <= j < k ==> self@.patches(updates@[j], #[trigger] out@[j]),
            decreases targets.len() - k,
        {
            let t = targets[k];
            assert(self.is_target(updates@[k as int], t));
            let w: usize = which[k];
            assert(self.is_layout(known@[w as int]));
            match self.find_event(&t, &known[w].layout) {
                Ok(at) => {
                    let offset: u64 = at + EH_TAG as u64;
                    out.push(TagPatch { file: t.file, offset, tag: t.tag });
                },
                Err(e) => {
                    proof {
                        if self@.intact() {
                            assert forall|j: int| 0 <= j < updates.len() implies self@.changeable(
                                #[trigger] updates@[j],
                            ) by {
                                assert(self.is_target(updates@[j], targets@[j]));
                                assert(self.is_layout(known@[which@[j] as int]));
                            }
                            assert(self@.unfound_at(updates@, k as int, e));
                        }
                    }
                    return Err(e);
                },
            }
            k = k + 1;
        }
        Ok(out)
    }
}

/// Bytes outside the ones that are overwritten stay.
proof fn lemma_spliced_index(s: Seq<u8>, at: int, b: Seq<u8>)
    requires
        0 <= at,
        at + b.len() <= s.len(),
    ensures
        spliced(s, at, b).len() == s.len(),
        forall|i: int| 0 <= i < at ==> #[trigger] spliced(s, at, b)[i] == s[i],
        forall|i: int| at <= i < at + b.len() ==> #[trigger] spliced(s, at, b)[i] == b[i - at],
        forall|i: int| at + b.len() <= i < s.len() ==> #[trigger] spliced(s, at, b)[i] == s[i],
{
}

/// Overwriting lies within a part, or next to it.
proof fn lemma_spliced_part(s: Seq<u8>, at: int, b: Seq<u8>, from: int, to: int)
    requires
        0 <= from <= to <= s.len(),
        0 <= at,
        at + b.len() <= s.len(),
    ensures
        from <= at && at + b.len() <= to ==> spliced(s, at, b).subrange(from, to) =~= spliced(
            s.subrange(from, to),
            at - from,
            b,
        ),
        to <= at || at + b.len() <= from ==> spliced(s, at, b).subrange(from, to) =~= s.subrange(
            from,
            to,
        ),
{
    lemma_spliced_index(s, at, b);
    if from <= at && at + b.len() <= to {
        lemma_spliced_index(s.subrange(from, to), at - from, b);
    }
}

/// What an uncompressed little-endian record says after four bytes of its data section were
/// overwritten.
proof fn lemma_record_spliced(
    src: Seq<u8>,
    dict: Option<DictView>,
    p: int,
    b: Seq<u8>,
)
    requires
        RecordHeader::decoded(src) matches Ok(h) && h.compression == CompressionType::Uncompressed
            && h.endianness == Endianness::Little && h.header_length >= 56 && 4 * h.event_count
            <= h.index_array_length,
        record_decoded(src, dict) is Done,
        ({
            let v = record_decoded(src, dict)->Done_0;
            v.header.data_start() <= p && p + b.len() <= v.payload.len()
        }),
    ensures
        ({
            let v = record_decoded(src, dict)->Done_0;
            let t = spliced(src, v.header.header_length + p, b);
            &&& RecordHeader::decoded(t) == RecordHeader::decoded(src)
            &&& t.len() == src.len()
            &&& record_decoded(t, dict) == Outcome::Done(
                RecordView { payload: spliced(v.payload, p, b), ..v },
            )
        }),
{
    let h = RecordHeader::decoded(src)->Ok_0;
    let v = record_decoded(src, dict)->Done_0;
    let at = h.header_length + p;
    let t = spliced(src, at, b);
    let block = block_of(src, h);
    assert(v.payload == block.subrange(0, h.payload_size() as int));
    assert(v.payload.len() == h.payload_size());
    assert(block == src.subrange(h.header_length as int, h.record_length as int));
    lemma_spliced_index(src, at, b);
    lemma_header_bytes(src, t);
    lemma_spliced_part(src, at, b, h.header_length as int, h.record_length as int);
    lemma_spliced_part(block, p, b, 0, h.payload_size() as int);
    assert(block_of(t, h) == spliced(block, p, b));
    let w = spliced(v.payload, p, b);
    lemma_spliced_index(v.payload, p, b);
    assert(spliced(block, p, b).subrange(0, h.payload_size() as int) == w);
    let n = h.event_count as nat;
    assert forall|i: int| 0 <= i < n implies #[trigger] u32_table(w, 0, n)[i] == u32_table(
        v.payload,
        0,
        n,
    )[i] by {
        lemma_u32_at_same(w, 4 * i, v.payload, 4 * i);
    }
    assert(u32_table(w, 0, n) =~= u32_table(v.payload, 0, n));
}

/// Changing a tag in place does that and no more: the event reads back with the new tag and its
/// other bytes as they were, and so do all other events of the record.
pub proof fn law_patch_sets_tag(
    f: Seq<u8>,
    off: int,
    dict: Option<DictView>,
    l: LayoutView,
    e: int,
    at: int,
    tag: u32,
)
    requires
        0 <= off,
        record_in(f, off) is Ok,
        ({
            let h = record_in(f, off)->Ok_0.0;
            &&& h.endianness == Endianness::Little
            &&& h.header_length >= 56
            &&& h.index_array_length == 4 * h.event_count
        }),
        layout_in(f, off) == Some(l),
        event_start(f, off, l, e) == Some(at),
        ({
            let decoded = record_decoded(record_in(f, off)->Ok_0.1, dict);
            decoded is Done && 0 <= e < decoded->Done_0.header.event_count
                && decoded->Done_0.event(e).len() >= 16
        }),
    ensures
        ({
            let g = spliced(f, at + EH_TAG, le32(tag));
            let v = record_decoded(record_in(f, off)->Ok_0.1, dict)->Done_0;
            let again = record_decoded(record_in(g, off)->Ok_0.1, dict);
            &&& g.len() == f.len()
            &&& record_in(g, off) is Ok
            &&& again is Done
            &&& again->Done_0.header == v.header
            &&& event_tag(again->Done_0.event(e)) == tag
            &&& again->Done_0.event(e) == spliced(v.event(e), 8, le32(tag))
            &&& forall|i: int|
                0 <= i < v.header.event_count && i != e ==> #[trigger] again->Done_0.event(i)
                    == v.event(i)
        }),
{
    let (h, src) = record_in(f, off)->Ok_0;
    let v = record_decoded(src, dict)->Done_0;
    let b = le32(tag);
    law_le32_round_trip(tag);
    lemma_header_part(f, off, src);
    law_decoded_record_is_wf(src, h, dict);
    // The layout counts events as the record does.
    let n = h.event_count as nat;
    assert(v.payload.len() == h.payload_size());
    assert forall|i: int| 0 <= i < n implies #[trigger] u32_table(v.payload, 0, n)[i] == u32_table(
        f,
        off + h.header_length,
        n,
    )[i] by {
        lemma_u32_at_same(v.payload, 4 * i, f, off + h.header_length + 4 * i);
    }
    assert(u32_table(v.payload, 0, n) =~= u32_table(f, off + h.header_length, n));
    assert((h.index_array_length / 4) as nat == n);
    assert(l.offsets == v.offsets);
    let d = v.header.data_start() as int;
    let p = d + v.offsets[e] + 8;
    assert(at == off + h.header_length + d + v.offsets[e]);
    assert(v.offsets[e] <= v.offsets[e + 1] <= v.offsets.last());
    lemma_record_spliced(src, dict, p, b);
    // The record of the changed file is the changed record.
    let g = spliced(f, at + EH_TAG, b);
    lemma_spliced_index(f, at + EH_TAG, b);
    lemma_spliced_part(f, at + EH_TAG, b, off, off + h.record_length);
    lemma_spliced_part(f, at + EH_TAG, b, off, off + 56);
    let t = spliced(src, h.header_length + p, b);
    assert(g.subrange(off, off + h.record_length) == t);
    assert(header_in(g, off) == header_in(f, off));
    let w = record_decoded(t, dict)->Done_0;
    lemma_spliced_part(v.payload, p, b, d + v.offsets[e], d + v.offsets[e + 1]);
    assert(w.event(e) == spliced(v.event(e), 8, b));
    lemma_u32_at_spliced(v.event(e), 8, tag);
    assert forall|i: int| 0 <= i < v.header.event_count && i != e implies #[trigger] w.event(i)
        == v.event(i) by {
        assert(v.offsets[i] <= v.offsets[i + 1] <= v.offsets.last());
        if i < e {
            assert(v.offsets[i + 1] <= v.offsets[e]);
        } else {
            assert(v.offsets[e + 1] <= v.offsets[i]);
        }
        lemma_spliced_part(v.payload, p, b, d + v.offsets[i], d + v.offsets[i + 1]);
    }
}

/// The header of a record is that of its bytes.
proof fn lemma_header_part(f: Seq<u8>, off: int, src: Seq<u8>)
    requires
        0 <= off,
        record_in(f, off) matches Ok(p) && p.1 == src && p.0.header_length >= 56,
    ensures
        RecordHeader::decoded(src) == Ok::<RecordHeader, HipoError>(record_in(f, off)->Ok_0.0),
        src.len() >= 56,
{
    let h = record_in(f, off)->Ok_0.0;
    assert(src == f.subrange(off, off + h.record_length));
    lemma_header_bytes(f.subrange(off, off + 56), src);
}

/// A chain after one of its files was patched on disk: what opening the file found is as it was.
pub open spec fn patched(c: ChainView, p: TagPatch) -> ChainView {
    let f = p.file as int;
    ChainView {
        files: c.files.update(
            f,
            FileView {
                bytes: spliced(c.files[f].bytes, p.offset as int, le32(p.tag)),
                ..c.files[f]
            },
        ),
        ..c
    }
}

/// The record at byte `off` of the file `f` is in little-endian order, its header is whole, and its
/// index array lists its events and nothing else.
pub open spec fn plain_record(f: Seq<u8>, off: int) -> bool {
    record_in(f, off) matches Ok((h, _)) && h.endianness == Endianness::Little && h.header_length
        >= 56 && h.index_array_length == 4 * h.event_count
}

/// A patch moves no event.
proof fn lemma_patch_moves_nothing(c: ChainView, p: TagPatch, n: nat)
    requires
        p.file < c.files.len(),
        n <= c.files.len(),
    ensures
        events_base(patched(c, p).files, n) == events_base(c.files, n),
        forall|i: int|
            0 <= i < c.files.len() ==> (#[trigger] patched(c, p).files[i]).info == c.files[i].info,
    decreases n,
{
    if n > 0 {
        lemma_patch_moves_nothing(c, p, (n - 1) as nat);
    }
}

/// An event of a chain is found at its place, and after a patch at the same.
proof fn lemma_place_after_patch(c: ChainView, p: TagPatch, idx: int, at: Place)
    requires
        forall|i: int| 0 <= i < c.files.len() ==> numbered((#[trigger] c.files[i]).info.spans),
        p.file < c.files.len(),
        c.is_place(idx, at),
    ensures
        idx < c.total(),
        c.event_at(idx) == c.event_in(at),
        patched(c, p).event_at(idx) == patched(c, p).event_in(at),
        forall|q: Place| #[trigger] c.is_place(idx, q) ==> q == at,
{
    let d = patched(c, p);
    lemma_in_file(c, idx, at);
    crate::read::chain::lemma_base_monotone(c.files, (at.file + 1) as nat, c.files.len());
    lemma_patch_moves_nothing(c, p, c.files.len());
    assert forall|q: Place| #[trigger] c.is_place(idx, q) implies q == at by {
        law_one_place(c, idx, at, q);
    }
    assert forall|q: Place| #[trigger] d.is_place(idx, q) implies c.is_place(idx, q) by {
        lemma_patch_moves_nothing(c, p, q.file as nat);
    }
    assert(d.is_place(idx, at)) by {
        lemma_patch_moves_nothing(c, p, at.file as nat);
    }
}

/// The record of a patched event before and after the patch.
#[verifier::rlimit(60)]
#[verifier::spinoff_prover]
proof fn lemma_patched_record(c: ChainView, u: (u64, u32), p: TagPatch, at: Place) -> (r: (
    RecordView,
    RecordView,
))
    requires
        forall|i: int| 0 <= i < c.files.len() ==> numbered((#[trigger] c.files[i]).info.spans),
        c.patches(u, p),
        c.is_place(u.0 as int, at),
        plain_record(
            c.files[at.file].bytes,
            c.files[at.file].info.spans[at.record].file_offset as int,
        ),
        c.event_at(u.0 as int) matches Some(EventView::Bytes(b)) && b.len() >= 16,
    ensures
        c.record_of(at.file, at.record) == Some(StoredView::Chunk(r.0)),
        patched(c, p).record_of(at.file, at.record) == Some(StoredView::Chunk(r.1)),
        r.1.header == r.0.header,
        0 <= at.event < r.0.header.event_count,
        r.1.event(at.event) == spliced(r.0.event(at.event), 8, le32(u.1)),
        event_tag(r.1.event(at.event)) == u.1,
        forall|i: int|
            0 <= i < r.0.header.event_count && i != at.event ==> #[trigger] r.1.event(i)
                == r.0.event(i),
{
    let d = patched(c, p);
    lemma_place_after_patch(c, p, u.0 as int, at);
    assert(c.is_place(u.0 as int, choose|q: Place| c.is_place(u.0 as int, q)));
    let (f, e) = (at.file, at.event);
    let bytes = c.files[f].bytes;
    let span = c.files[f].info.spans[at.record];
    let off = span.file_offset as int;
    assert(c.target(u.0 as int) == (f, off, e));
    let l = layout_in(bytes, off)->0;
    let start = event_start(bytes, off, l, e)->0;
    let (h, src) = record_in(bytes, off)->Ok_0;
    lemma_header_part(bytes, off, src);
    let v = record_decoded(src, Some(c.dict))->Done_0;
    assert(stored_decoded(src, Some(c.dict)) == Some(StoredView::Chunk(v)));
    assert(c.record_of(f, at.record) == Some(StoredView::Chunk(v)));
    law_patch_sets_tag(bytes, off, Some(c.dict), l, e, start, u.1);
    let g = spliced(bytes, start + EH_TAG, le32(u.1));
    assert(d.files[f].bytes == g);
    let again = record_in(g, off)->Ok_0.1;
    let w = record_decoded(again, Some(c.dict))->Done_0;
    assert(RecordHeader::decoded(again) == Ok::<RecordHeader, HipoError>(w.header));
    assert(stored_decoded(again, Some(c.dict)) == Some(StoredView::Chunk(w)));
    assert(d.record_of(f, at.record) == Some(StoredView::Chunk(w)));
    (v, w)
}

/// A tag that was patched in place is what a later read through the chain gives: the event has the
/// new tag and its other bytes, and the other events of its record and of other files are as they
/// were.
#[verifier::rlimit(60)]
#[verifier::spinoff_prover]
pub proof fn law_patched_tag_is_read(c: ChainView, u: (u64, u32), p: TagPatch, at: Place)
    requires
        forall|i: int| 0 <= i < c.files.len() ==> numbered((#[trigger] c.files[i]).info.spans),
        c.patches(u, p),
        c.is_place(u.0 as int, at),
        plain_record(
            c.files[at.file].bytes,
            c.files[at.file].info.spans[at.record].file_offset as int,
        ),
        c.event_at(u.0 as int) matches Some(EventView::Bytes(b)) && b.len() >= 16,
    ensures
        ({
            let d = patched(c, p);
            let b = c.event_at(u.0 as int)->0->Bytes_0;
            &&& d.event_at(u.0 as int) == Some(EventView::Bytes(spliced(b, 8, le32(u.1))))
            &&& d.event_at(u.0 as int)->0.tag() == u.1
            &&& forall|idx: int, q: Place|
                #![trigger c.is_place(idx, q)]
                c.is_place(idx, q) && idx != u.0 && (q.file != at.file || q.record == at.record)
                    ==> d.event_at(idx) == c.event_at(idx)
        }),
{
    let d = patched(c, p);
    let (v, w) = lemma_patched_record(c, u, p, at);
    lemma_place_after_patch(c, p, u.0 as int, at);
    assert(c.is_place(u.0 as int, choose|q: Place| c.is_place(u.0 as int, q)));
    let (f, e) = (at.file, at.event);
    assert(StoredView::Chunk(v).event(e) == EventView::Bytes(v.event(e)));
    assert(StoredView::Chunk(w).event(e) == EventView::Bytes(w.event(e)));
    assert forall|idx: int, q: Place|
        #![trigger c.is_place(idx, q)]
        c.is_place(idx, q) && idx != u.0 && (q.file != f || q.record == at.record) implies d.event_at(
        idx,
    ) == c.event_at(idx) by {
        lemma_place_after_patch(c, p, idx, q);
        if q.file != f {
            assert(d.files[q.file] == c.files[q.file]);
        } else {
            assert(q.event != e);
            if q.event < v.header.event_count {
                assert(w.event(q.event) == v.event(q.event));
            }
        }
    }
}

} // verus!
