//! Per-bank records: each bank type is a stream of its own, so that a reader decompresses
//! only the banks it touches.
//!
//! The directory, decompressed:
//!
//! ```text
//! B x { u16 group, u8 item, u8 data_type }
//! B x u32 compressed stream size
//! B x u32 decompressed stream size
//! E x u32 event tag
//! E x ceil(B/8) presence bytes
//! B x E x u32 bank size per event
//! ```

use core::ops::Range;

use vstd::prelude::*;
use vstd::slice::{slice_subrange, slice_to_vec};
use crate::compress::inflate_stream;
#[allow(unused_imports)]
use crate::compress::{decompress_error, stream_of};
use crate::error::{HipoError, Result};
#[allow(unused_imports)]
use crate::schema::types::cap32;
#[allow(unused_imports)]
use crate::seqs::runs_of;
use crate::wire::constants::{EXT_FORMAT_LEGACY_BY_BANK, EXT_FORMAT_VERSION_BY_BANK};
#[allow(unused_imports)]
use crate::wire::constants::Layout;
use crate::wire::record_header::RecordHeader;
use crate::wire::split::{
    cut_streams, read_descriptors, read_directory, section, BankDescriptor,
};
#[allow(unused_imports)]
use crate::wire::split::{
    bank_sizes, corrupt, descriptors_of, directory_of, ends_with, fixed_len, packed_streams,
    section_of, DirectoryView, Outcome,
};
use crate::wire::tables::{cumulate, read_presence, read_u32_table};
#[allow(unused_imports)]
use crate::wire::tables::{
    cumulative, law_cumulative_monotone, present, row_bytes, total, u32_table,
};

verus! {

/// What a per-bank record says.
#[verifier::ext_equal]
pub struct ByBankView {
    pub header: RecordHeader,
    /// The banks, in directory order.
    pub descriptors: Seq<BankDescriptor>,
    /// The tag of every event.
    pub tags: Seq<u32>,
    /// One row of bits per event: which banks it has.
    pub presence: Seq<u8>,
    /// For each bank, where its data of each event starts in the bank's stream.
    pub offsets: Seq<Seq<u32>>,
    /// The compressed streams.
    pub packed: Seq<Seq<u8>>,
    /// The decompressed size of each stream.
    pub sizes: Seq<u32>,
}

impl ByBankView {
    pub open spec fn banks(self) -> nat {
        self.descriptors.len()
    }

    pub open spec fn events(self) -> nat {
        self.header.event_count as nat
    }

    /// The tables have the lengths that the counts say, and offsets start at zero, never
    /// decrease, and end at the stream's size.
    pub open spec fn wf(self) -> bool {
        &&& self.banks() <= u32::MAX
        &&& self.tags.len() == self.events()
        &&& self.presence.len() == self.events() * row_bytes(self.banks())
        &&& self.offsets.len() == self.banks()
        &&& self.packed.len() == self.banks()
        &&& self.sizes.len() == self.banks()
        &&& forall|b: int|
            0 <= b < self.banks() ==> offsets_ok(
                #[trigger] self.offsets[b],
                self.events(),
                self.sizes[b],
            )
    }

    /// Event `e` has bank `b`.
    pub open spec fn has(self, e: int, b: int) -> bool {
        present(self.presence, self.banks(), e, b)
    }

    /// The decompressed stream of bank `b`; `None` where it cannot be decompressed, or is shorter
    /// than the directory says.
    pub open spec fn stream(self, b: int) -> Option<Seq<u8>> {
        match self.unpacked(b) {
            Some(s) => if s.len() < self.sizes[b] {
                None
            } else {
                Some(s)
            },
            None => None,
        }
    }

    /// What decompressing bank `b` gives, whole or not.
    pub open spec fn unpacked(self, b: int) -> Option<Seq<u8>> {
        stream_of(self.header.compression.spec_codec(), self.packed[b], self.sizes[b] as nat)
    }

    /// `e` is the error that reading the stream of bank `b` ends with.
    pub open spec fn stream_error(self, b: int, e: HipoError) -> bool {
        match self.unpacked(b) {
            Some(s) => e == (HipoError::DecompressUnderflow {
                produced: s.len() as usize,
                expected: self.sizes[b] as usize,
            }),
            None => decompress_error(
                self.header.compression.spec_codec(),
                self.packed[b],
                self.sizes[b] as nat,
                e,
            ),
        }
    }

    /// The first bank with this id.
    pub open spec fn is_bank(self, b: int, group: u16, item: u8) -> bool {
        &&& 0 <= b < self.banks()
        &&& self.descriptors[b].group == group && self.descriptors[b].item == item
        &&& forall|c: int|
            0 <= c < b ==> !((#[trigger] self.descriptors[c]).group == group
                && self.descriptors[c].item == item)
    }

    /// Some bank has this id.
    pub open spec fn lists(self, group: u16, item: u8) -> bool {
        exists|b: int| #[trigger] self.is_bank(b, group, item)
    }

    /// The first bank with this id, if there is one.
    pub open spec fn bank_at(self, group: u16, item: u8) -> Option<int> {
        if self.lists(group, item) {
            Some(choose|b: int| #[trigger] self.is_bank(b, group, item))
        } else {
            None
        }
    }

    /// The bytes of bank `b` in event `e`: nothing where the stream is too short for them.
    pub open spec fn bank_data(self, e: int, b: int) -> Option<Seq<u8>> {
        match self.stream(b) {
            Some(s) => if self.offsets[b][e + 1] <= s.len() {
                Some(s.subrange(self.offsets[b][e] as int, self.offsets[b][e + 1] as int))
            } else {
                None
            },
            None => None,
        }
    }
}

/// Offsets of a bank over `events` events start at zero, never decrease, and end at `size`.
pub open spec fn offsets_ok(o: Seq<u32>, events: nat, size: u32) -> bool {
    &&& o.len() == events + 1
    &&& o[0] == 0
    &&& o[events as int] == size
    &&& forall|i: int, j: int| 0 <= i <= j <= events ==> o[i] <= o[j]
}

/// Where the table of bank sizes starts in a directory.
pub open spec fn sizes_base(banks: nat, events: nat) -> int {
    (12 * banks + 4 * events + events * row_bytes(banks)) as int
}

/// What a directory and a section say. The sizes of a bank over all events must add up to the
/// size of its stream, and the streams must lie within the section.
pub open spec fn by_bank_of(h: RecordHeader, s: Seq<u8>, d: DirectoryView) -> Outcome<ByBankView> {
    let n = d.banks;
    let events = h.event_count as nat;
    let packed_sizes = u32_table(d.dir, 4 * n as int, n);
    let sizes = u32_table(d.dir, 8 * n as int, n);
    let base = sizes_base(n, events);
    if exists|b: int| 0 <= b < n && #[trigger] size_mismatch(d.dir, base, events, sizes, b) {
        Outcome::Fails(
            corrupt("Lz4ByBank: per-event sizes do not sum to decompressed bank size"),
        )
    } else if d.streams_off + total(packed_sizes) > s.len() {
        Outcome::Fails(corrupt("Lz4ByBank: stream bytes run past section end"))
    } else {
        Outcome::Done(
            ByBankView {
                header: h,
                descriptors: descriptors_of(d.dir, n),
                tags: u32_table(d.dir, 12 * n as int, events),
                presence: d.dir.subrange(
                    (12 * n + 4 * events) as int,
                    (12 * n + 4 * events + events * row_bytes(n)) as int,
                ),
                offsets: Seq::new(n, |b: int| cumulative(bank_sizes(d.dir, base, events, b))),
                packed: packed_streams(s, d.streams_off, packed_sizes),
                sizes,
            },
        )
    }
}

/// The sizes of bank `b` do not add up to the size of its stream.
pub open spec fn size_mismatch(
    dir: Seq<u8>,
    base: int,
    events: nat,
    sizes: Seq<u32>,
    b: int,
) -> bool {
    cap32(total(bank_sizes(dir, base, events, b))) != sizes[b]
}

/// What the bytes of a record say, or how reading them fails.
pub open spec fn by_bank_decoded(src: Seq<u8>) -> Outcome<ByBankView> {
    match RecordHeader::decoded(src) {
        Err(e) => Outcome::Fails(e),
        Ok(h) => if h.compression.spec_layout() != Layout::PerBank {
            Outcome::Fails(corrupt("ByBankRecord::parse called on non-Lz4ByBank record"))
        } else if src.len() < h.record_length {
            Outcome::Fails(
                HipoError::FileTooSmall { actual: src.len() as u64, min: h.record_length },
            )
        } else {
            match by_bank_directory(h, section_of(src, h)) {
                Outcome::Done(d) => by_bank_of(h, section_of(src, h), d),
                Outcome::Fails(e) => Outcome::Fails(e),
                Outcome::Inflate(b, n) => Outcome::Inflate(b, n),
            }
        },
    }
}

/// The directory in the section of a per-bank record.
pub open spec fn by_bank_directory(h: RecordHeader, s: Seq<u8>) -> Outcome<DirectoryView> {
    directory_of(h, s, EXT_FORMAT_VERSION_BY_BANK, EXT_FORMAT_LEGACY_BY_BANK, 12, true)
}

/// `e` is the error that reading the record `src` ends with.
pub open spec fn by_bank_error(src: Seq<u8>, e: HipoError) -> bool {
    match by_bank_decoded(src) {
        Outcome::Done(_) => false,
        Outcome::Fails(err) => e == err,
        Outcome::Inflate(b, n) => decompress_error(
            RecordHeader::decoded(src)->Ok_0.compression.spec_codec(),
            b,
            n,
            e,
        ),
    }
}

/// A per-bank record. Only its directory is decompressed when it is parsed. What reads through a
/// shared reference decompresses a stream each time, unless [`Self::bank_stream`] has kept it.
#[derive(Debug)]
pub struct ByBankRecord {
    header: RecordHeader,
    descriptors: Vec<BankDescriptor>,
    tags: Vec<u32>,
    presence: Vec<u8>,
    offsets: Vec<Vec<u32>>,
    packed: Vec<Vec<u8>>,
    sizes: Vec<u32>,
    /// The streams decompressed so far.
    inflated: Vec<Option<Vec<u8>>>,
}

impl View for ByBankRecord {
    type V = ByBankView;

    closed spec fn view(&self) -> ByBankView {
        ByBankView {
            header: self.header,
            descriptors: self.descriptors@,
            tags: self.tags@,
            presence: self.presence@,
            offsets: self.offsets@.map_values(|o: Vec<u32>| o@),
            packed: runs_of(self.packed@),
            sizes: self.sizes@,
        }
    }
}

/// A kept stream is the stream of its bank.
spec fn kept_ok(v: ByBankView, inflated: Seq<Option<Vec<u8>>>) -> bool {
    &&& inflated.len() == v.banks()
    &&& forall|b: int|
        0 <= b < v.banks() ==> (#[trigger] inflated[b] matches Some(s) ==> v.stream(b) == Some(s@))
}

impl ByBankRecord {
    /// A record is well-formed, and the streams it keeps are those of its banks.
    #[verifier::type_invariant]
    pub closed spec fn inv(self) -> bool {
        self@.wf() && kept_ok(self@, self.inflated@)
    }

    /// Bank `b` has been decompressed.
    pub closed spec fn is_inflated(self, b: int) -> bool {
        self.inflated@[b] is Some
    }

    /// Parse a whole record: header, then payload. Decompresses the directory alone.
    pub fn parse(src: &[u8]) -> (r: Result<Self>)
        ensures
            match by_bank_decoded(src@) {
                Outcome::Done(v) => r is Ok && r->Ok_0@ == v && (forall|b: int|
                    0 <= b < v.banks() ==> !#[trigger] r->Ok_0.is_inflated(b)),
                _ => r is Err && by_bank_error(src@, r->Err_0),
            },
    {
        let header = RecordHeader::parse(src)?;
        if !header.compression.is_by_bank() {
            return Err(
                HipoError::CorruptRecord {
                    offset: 0,
                    reason: "ByBankRecord::parse called on non-Lz4ByBank record",
                },
            );
        }
        if (src.len() as u64) < header.total_bytes() {
            return Err(
                HipoError::FileTooSmall { actual: src.len() as u64, min: header.total_bytes() },
            );
        }
        Self::parse_section(header, section(src, &header))
    }

    /// Parse the payload section of a record with header `header`.
    pub fn parse_section(header: RecordHeader, s: &[u8]) -> (r: Result<Self>)
        ensures
            match by_bank_directory(header, s@) {
                Outcome::Done(d) => match by_bank_of(header, s@, d) {
                    Outcome::Done(v) => r is Ok && r->Ok_0@ == v && (forall|b: int|
                        0 <= b < v.banks() ==> !#[trigger] r->Ok_0.is_inflated(b)),
                    o => r is Err && ends_with(o, header, r->Err_0),
                },
                o => r is Err && ends_with(o, header, r->Err_0),
            },
    {
        let d = read_directory(
            &header,
            s,
            EXT_FORMAT_VERSION_BY_BANK,
            EXT_FORMAT_LEGACY_BY_BANK,
            12,
            true,
        )?;
        let ghost dv = d@;
        let n: usize = d.banks;
        let events: usize = header.event_count as usize;
        let dir = d.dir.as_slice();
        let w: usize = n / 8 + (if n % 8 == 0 {
            0
        } else {
            1
        });
        proof {
            assert(w == row_bytes(n as nat));
            assert(events * w >= 0 && n * events >= 0) by (nonlinear_arith)
                requires
                    events >= 0,
                    w >= 0,
                    n >= 0,
            ;
            assert(fixed_len(12, n as nat, events as nat) <= dir.len());
        }
        let descriptors = read_descriptors(dir, n);
        let packed_sizes = read_u32_table(dir, 4 * n, n);
        let sizes = read_u32_table(dir, 8 * n, n);
        let tags = read_u32_table(dir, 12 * n, events);
        let presence_off: usize = 12 * n + 4 * events;
        let base: usize = presence_off + events * w;
        let presence = vstd::slice::slice_to_vec(slice_subrange(dir, presence_off, base));
        let ghost sbase = sizes_base(n as nat, events as nat);
        // Sizes per event become running offsets. A bank whose sizes do not add up to the size
        // of its stream would have ranges outside of it.
        let mut offsets: Vec<Vec<u32>> = Vec::new();
        let mut b: usize = 0;
        while b < n
            invariant
                b <= n,
                n == dv.banks,
                events == header.event_count,
                dir@ == dv.dir,
                base == sbase,
                sbase == sizes_base(n as nat, events as nat),
                sizes@ == u32_table(dv.dir, 8 * n as int, n as nat),
                base + 4 * (n * events) <= dir.len(),
                offsets.len() == b,
                forall|c: int|
                    0 <= c < b ==> (#[trigger] offsets@[c])@ == cumulative(
                        bank_sizes(dv.dir, sbase, events as nat, c),
                    ),
                forall|c: int|
                    0 <= c < b ==> !#[trigger] size_mismatch(
                        dv.dir,
                        sbase,
                        events as nat,
                        sizes@,
                        c,
                    ),
                by_bank_directory(header, s@) == Outcome::Done(dv),
            decreases n - b,
        {
            assert(b * events >= 0 && b * events + events <= n * events) by (nonlinear_arith)
                requires
                    0 <= b < n,
                    events >= 0,
            ;
            let row = read_u32_table(dir, base + 4 * (b * events), events);
            let cum = cumulate(row.as_slice());
            let ghost rows = bank_sizes(dv.dir, sbase, events as nat, b as int);
            assert(row@ == rows);
            assert(cum@[events as int] == cap32(total(rows)));
            if cum[events] != sizes[b] {
                assert(size_mismatch(dv.dir, sbase, events as nat, sizes@, b as int));
                return Err(
                    HipoError::CorruptRecord {
                        offset: 0,
                        reason:
                            "Lz4ByBank: per-event sizes do not sum to decompressed bank size",
                    },
                );
            }
            offsets.push(cum);
            b = b + 1;
        }
        let packed = match cut_streams(s, d.streams_off, packed_sizes.as_slice()) {
            Some(p) => p,
            None => {
                return Err(
                    HipoError::CorruptRecord {
                        offset: 0,
                        reason: "Lz4ByBank: stream bytes run past section end",
                    },
                );
            },
        };
        let mut inflated: Vec<Option<Vec<u8>>> = Vec::new();
        let mut k: usize = 0;
        while k < n
            invariant
                k <= n,
                inflated.len() == k,
                forall|c: int| 0 <= c < k ==> (#[trigger] inflated@[c]) is None,
            decreases n - k,
        {
            inflated.push(None);
            k = k + 1;
        }
        let ghost v = by_bank_of(header, s@, dv)->Done_0;
        proof {
            assert(by_bank_of(header, s@, dv) is Done);
            assert(offsets@.map_values(|o: Vec<u32>| o@) =~= v.offsets);
            assert forall|c: int| 0 <= c < n implies offsets_ok(
                #[trigger] v.offsets[c],
                events as nat,
                v.sizes[c],
            ) by {
                law_cumulative_monotone(bank_sizes(dv.dir, sbase, events as nat, c));
                assert(!size_mismatch(dv.dir, sbase, events as nat, sizes@, c));
            }
            assert(v.wf());
        }
        let rec = ByBankRecord {
            header,
            descriptors,
            tags,
            presence,
            offsets,
            packed,
            sizes,
            inflated,
        };
        assert(rec@ =~= v);
        Ok(rec)
    }

    pub fn header(&self) -> (r: &RecordHeader)
        ensures
            *r == self@.header,
    {
        &self.header
    }

    pub fn event_count(&self) -> (r: u32)
        ensures
            r == self@.events(),
            self@.wf(),
    {
        proof {
            use_type_invariant(self);
        }
        self.header.event_count
    }

    pub fn num_banks(&self) -> (r: usize)
        ensures
            r == self@.banks(),
            r <= u32::MAX,
    {
        proof {
            use_type_invariant(self);
        }
        self.descriptors.len()
    }

    pub fn event_tag(&self, event_idx: u32) -> (r: u32)
        requires
            event_idx < self@.events(),
        ensures
            r == self@.tags[event_idx as int],
    {
        proof {
            use_type_invariant(self);
        }
        self.tags[event_idx as usize]
    }

    /// Look up a bank by `(group, item)`.
    pub fn bank_index(&self, group: u16, item: u8) -> (r: Option<u32>)
        ensures
            match r {
                Some(b) => self@.is_bank(b as int, group, item),
                None => !self@.lists(group, item),
            },
            match r {
                Some(b) => self@.bank_at(group, item) == Some(b as int),
                None => self@.bank_at(group, item) is None,
            },
    {
        proof {
            use_type_invariant(self);
        }
        let mut b: usize = 0;
        while b < self.descriptors.len()
            invariant
                b <= self.descriptors.len(),
                self.descriptors.len() <= u32::MAX,
                self@.descriptors == self.descriptors@,
                forall|c: int|
                    0 <= c < b ==> !((#[trigger] self@.descriptors[c]).group == group
                        && self@.descriptors[c].item == item),
            decreases self.descriptors.len() - b,
        {
            let d = self.descriptors[b];
            if d.group == group && d.item == item {
                assert(self@.is_bank(b as int, group, item));
                return Some(b as u32);
            }
            b = b + 1;
        }
        None
    }

    /// True if event `event_idx` carries bank `bank_idx`.
    pub fn has(&self, event_idx: u32, bank_idx: u32) -> (r: bool)
        requires
            event_idx < self@.events(),
            bank_idx < self@.banks(),
        ensures
            r == self@.has(event_idx as int, bank_idx as int),
    {
        proof {
            use_type_invariant(self);
        }
        read_presence(
            self.presence.as_slice(),
            self.descriptors.len(),
            self.header.event_count as usize,
            event_idx as usize,
            bank_idx as usize,
        )
    }

    /// Group, item and type code of a bank.
    pub fn descriptor(&self, bank_idx: u32) -> (r: (u16, u8, u8))
        requires
            bank_idx < self@.banks(),
        ensures
            r.0 == self@.descriptors[bank_idx as int].group,
            r.1 == self@.descriptors[bank_idx as int].item,
            r.2 == self@.descriptors[bank_idx as int].data_type,
    {
        let d = self.descriptors[bank_idx as usize];
        (d.group, d.item, d.data_type)
    }

    /// Bytes of bank `bank_idx` in event `event_idx`. Zero where the event lacks the bank, and
    /// where the bank is empty.
    pub fn bank_size(&self, event_idx: u32, bank_idx: u32) -> (r: u32)
        requires
            event_idx < self@.events(),
            bank_idx < self@.banks(),
        ensures
            r == self@.offsets[bank_idx as int][event_idx + 1]
                - self@.offsets[bank_idx as int][event_idx as int],
    {
        proof {
            use_type_invariant(self);
            assert(offsets_ok(
                self@.offsets[bank_idx as int],
                self@.events(),
                self@.sizes[bank_idx as int],
            ));
            assert(self@.offsets[bank_idx as int] == self.offsets@[bank_idx as int]@);
        }
        let o = &self.offsets[bank_idx as usize];
        let e: usize = event_idx as usize;
        o[e + 1] - o[e]
    }

    /// Decompress bank `bank_idx`, without keeping the stream.
    pub fn inflate_bank(&self, bank_idx: u32) -> (r: Result<Vec<u8>>)
        requires
            bank_idx < self@.banks(),
        ensures
            match self@.stream(bank_idx as int) {
                Some(s) => r is Ok && r->Ok_0@ == s && s.len() == self@.sizes[bank_idx as int],
                None => r is Err && self@.stream_error(bank_idx as int, r->Err_0),
            },
    {
        proof {
            use_type_invariant(self);
            assert(self@.packed[bank_idx as int] == self.packed@[bank_idx as int]@);
        }
        let b: usize = bank_idx as usize;
        let expected: usize = self.sizes[b] as usize;
        let out = inflate_stream(self.header.compression, self.packed[b].as_slice(), expected)?;
        if out.len() < expected {
            return Err(HipoError::DecompressUnderflow { produced: out.len(), expected });
        }
        Ok(out)
    }

    /// The decompressed stream of bank `bank_idx`, decompressing it the first time. The other
    /// banks stay as they are. A stream shorter than the directory says is refused, so every
    /// byte range of the bank lies within what is returned.
    pub fn bank_stream(&mut self, bank_idx: u32) -> (r: Result<&[u8]>)
        requires
            bank_idx < old(self)@.banks(),
        ensures
            final(self)@ == old(self)@,
            match old(self)@.stream(bank_idx as int) {
                Some(s) => r is Ok && r->Ok_0@ == s && s.len() == old(self)@.sizes[bank_idx as int]
                    && final(self).is_inflated(bank_idx as int),
                None => r is Err && old(self)@.stream_error(bank_idx as int, r->Err_0)
                    && !final(self).is_inflated(bank_idx as int),
            },
            forall|b: int|
                0 <= b < old(self)@.banks() && b != bank_idx ==> #[trigger] final(self).is_inflated(
                    b,
                ) == old(self).is_inflated(b),
    {
        proof {
            use_type_invariant(&*self);
        }
        let b: usize = bank_idx as usize;
        let missing = match &self.inflated[b] {
            Some(_) => false,
            None => true,
        };
        if missing {
            let s = self.inflate_bank(bank_idx)?;
            self.keep(b, s);
        }
        proof {
            use_type_invariant(&*self);
        }
        match &self.inflated[b] {
            Some(s) => Ok(s.as_slice()),
            None => vstd::pervasive::unreached(),
        }
    }

    /// Keep the stream of bank `b`.
    fn keep(&mut self, b: usize, s: Vec<u8>)
        requires
            b < old(self)@.banks(),
            old(self)@.stream(b as int) == Some(s@),
        ensures
            final(self)@ == old(self)@,
            final(self).inflated@ == old(self).inflated@.update(b as int, Some(s)),
    {
        proof {
            use_type_invariant(&*self);
        }
        let mut work = Self::hollow(self.header);
        core::mem::swap(&mut work, self);
        let ByBankRecord {
            header,
            descriptors,
            tags,
            presence,
            offsets,
            packed,
            sizes,
            mut inflated,
        } = work;
        inflated.set(b, Some(s));
        *self = ByBankRecord {
            header,
            descriptors,
            tags,
            presence,
            offsets,
            packed,
            sizes,
            inflated,
        };
    }

    /// A record without banks or events, to stand in while another is taken apart.
    fn hollow(header: RecordHeader) -> (r: Self)
        ensures
            r@ == (ByBankView {
                header: RecordHeader { event_count: 0, ..header },
                descriptors: Seq::empty(),
                tags: Seq::empty(),
                presence: Seq::empty(),
                offsets: Seq::empty(),
                packed: Seq::empty(),
                sizes: Seq::empty(),
            }),
            r.inflated@ == Seq::<Option<Vec<u8>>>::empty(),
    {
        let header = RecordHeader { event_count: 0, ..header };
        let r = ByBankRecord {
            header,
            descriptors: Vec::new(),
            tags: Vec::new(),
            presence: Vec::new(),
            offsets: Vec::new(),
            packed: Vec::new(),
            sizes: Vec::new(),
            inflated: Vec::new(),
        };
        assert(r@.offsets =~= Seq::empty());
        assert(r@.packed =~= Seq::empty());
        r
    }

    /// True if bank `bank_idx` has been decompressed.
    pub fn is_bank_inflated(&self, bank_idx: u32) -> (r: bool)
        requires
            bank_idx < self@.banks(),
        ensures
            r == self.is_inflated(bank_idx as int),
    {
        proof {
            use_type_invariant(self);
        }
        match &self.inflated[bank_idx as usize] {
            Some(_) => true,
            None => false,
        }
    }

    /// The bytes of bank `bank_idx` in event `event_idx`: from the kept stream where there is
    /// one.
    pub fn bank_data(&self, event_idx: u32, bank_idx: u32) -> (r: Option<Vec<u8>>)
        requires
            event_idx < self@.events(),
            bank_idx < self@.banks(),
        ensures
            match r {
                Some(d) => self@.bank_data(event_idx as int, bank_idx as int) == Some(d@),
                None => self@.bank_data(event_idx as int, bank_idx as int) is None,
            },
    {
        proof {
            use_type_invariant(self);
        }
        let range = self.bank_byte_range(event_idx, bank_idx);
        match &self.inflated[bank_idx as usize] {
            Some(s) => {
                assert(self@.stream(bank_idx as int) == Some(s@));
                if range.end > s.len() {
                    return None;
                }
                Some(slice_to_vec(slice_subrange(s.as_slice(), range.start, range.end)))
            },
            None => match self.inflate_bank(bank_idx) {
                Ok(s) => {
                    if range.end > s.len() {
                        return None;
                    }
                    Some(slice_to_vec(slice_subrange(s.as_slice(), range.start, range.end)))
                },
                Err(_) => None,
            },
        }
    }

    /// Where event `event_idx`'s data lies within the stream of bank `bank_idx`.
    pub fn bank_byte_range(&self, event_idx: u32, bank_idx: u32) -> (r: Range<usize>)
        requires
            event_idx < self@.events(),
            bank_idx < self@.banks(),
        ensures
            r.start == self@.offsets[bank_idx as int][event_idx as int],
            r.end == self@.offsets[bank_idx as int][event_idx + 1],
            event_idx == 0 ==> r.start == 0,
            r.start <= r.end <= self@.sizes[bank_idx as int],
            r.end - r.start == self@.size(event_idx as int, bank_idx as int),
            self@.stream(bank_idx as int) matches Some(s) ==> r.end <= s.len(),
    {
        proof {
            use_type_invariant(self);
            assert(offsets_ok(
                self@.offsets[bank_idx as int],
                self@.events(),
                self@.sizes[bank_idx as int],
            ));
            assert(self@.offsets[bank_idx as int] == self.offsets@[bank_idx as int]@);
        }
        let o = &self.offsets[bank_idx as usize];
        let e: usize = event_idx as usize;
        o[e] as usize..o[e + 1] as usize
    }
}

/// The byte ranges of a bank lie in its stream one after the other, and cover it: the first
/// starts at its start, each starts where the one before it ends, and the last ends at its end.
pub proof fn law_bank_ranges_cover_stream(v: ByBankView, b: int)
    requires
        v.wf(),
        0 <= b < v.banks(),
        v.stream(b) is Some,
    ensures
        v.offsets[b][0] == 0,
        v.offsets[b][v.events() as int] == v.stream(b)->0.len(),
        forall|e: int|
            0 <= e < v.events() ==> #[trigger] v.offsets[b][e] <= v.offsets[b][e + 1]
                <= v.stream(b)->0.len(),
        forall|e: int|
            0 <= e < v.events() ==> (#[trigger] v.bank_data(e, b)) is Some && v.bank_data(
                e,
                b,
            )->0.len() == v.size(e, b),
{
    assert(offsets_ok(v.offsets[b], v.events(), v.sizes[b]));
}

} // verus!
