//! What the two split layouts, per bank and per column, have in common: the payload section,
//! its frame, and the compressed directory.
//!
//! ```text
//! u8  version, u8 reserved[3]
//! u32 banks (B)
//! u32 events (E)
//! u32 directory length, compressed
//! u32 directory length, decompressed
//! the directory, compressed
//! the streams, one after the other
//! ```

use vstd::prelude::*;
use vstd::slice::slice_subrange;
use crate::compress::inflate_stream;
#[allow(unused_imports)]
use crate::compress::{decompress_error, stream_of};
use crate::error::{HipoError, Result};
use crate::wire::bytes::read_u32_le;
#[allow(unused_imports)]
use crate::wire::bytes::{u16_at, u32_at};
use crate::wire::record_header::RecordHeader;
#[allow(unused_imports)]
use crate::wire::tables::{prefix_sum, row_bytes, total, u32_table};

verus! {

/// How reading something ends: with a value, with an error, or with the error of decompressing
/// these bytes to this size.
pub enum Outcome<T> {
    Done(T),
    Fails(HipoError),
    Inflate(Seq<u8>, nat),
}

/// The id and the type code of a bank.
#[derive(Debug, Clone, Copy, PartialEq, Eq, Structural)]
pub struct BankDescriptor {
    pub group: u16,
    pub item: u8,
    pub data_type: u8,
}

/// The descriptor at byte `off` of `s`.
pub open spec fn descriptor_at(s: Seq<u8>, off: int) -> BankDescriptor {
    BankDescriptor { group: u16_at(s, off), item: s[off + 2], data_type: s[off + 3] }
}

/// The `n` descriptors at the front of a directory.
pub open spec fn descriptors_of(dir: Seq<u8>, n: nat) -> Seq<BankDescriptor> {
    Seq::new(n, |b: int| descriptor_at(dir, 4 * b))
}

/// A corrupt record, for this reason.
pub open spec fn corrupt(reason: &'static str) -> HipoError {
    HipoError::CorruptRecord { offset: 0, reason }
}

/// What can be wrong with a directory.
pub enum DirectoryFault {
    /// The section is shorter than its header.
    Header,
    /// The section has another format version.
    Version,
    /// The section counts other events than the record header.
    Events,
    /// The section ends before the directory does.
    Truncated,
    /// The tables of the directory are larger than memory.
    Overflow,
    /// The directory is too small for the tables that it must hold.
    Inconsistent,
    /// The directory holds fewer bytes than it says.
    Body,
}

/// How a fault in the directory of a per-bank or per-column record is told.
pub open spec fn spec_reason(by_bank: bool, f: DirectoryFault) -> &'static str {
    if by_bank {
        match f {
            DirectoryFault::Header => "Lz4ByBank: section truncated (header)",
            DirectoryFault::Version => "Lz4ByBank: unsupported extension-format version",
            DirectoryFault::Events => "Lz4ByBank: event_count mismatch with record header",
            DirectoryFault::Truncated => "Lz4ByBank: directory truncated",
            DirectoryFault::Overflow => "Lz4ByBank: directory size overflow",
            DirectoryFault::Inconsistent => {
                "Lz4ByBank: directory size inconsistent with bank/event counts"
            },
            DirectoryFault::Body => "Lz4ByBank: directory truncated",
        }
    } else {
        match f {
            DirectoryFault::Header => "Lz4PerColumn: section truncated (header)",
            DirectoryFault::Version => "Lz4PerColumn: unsupported extension-format version",
            DirectoryFault::Events => "Lz4PerColumn: event_count mismatch with record header",
            DirectoryFault::Truncated => "Lz4PerColumn: directory truncated",
            DirectoryFault::Overflow => "Lz4PerColumn: directory size overflow",
            DirectoryFault::Inconsistent => {
                "Lz4PerColumn: directory size inconsistent with bank/event counts"
            },
            DirectoryFault::Body => "Lz4PerColumn: directory body truncated",
        }
    }
}

/// How a fault in the directory of a per-bank or per-column record is told.
pub fn reason(by_bank: bool, f: DirectoryFault) -> (r: &'static str)
    ensures
        r == spec_reason(by_bank, f),
{
    if by_bank {
        match f {
            DirectoryFault::Header => "Lz4ByBank: section truncated (header)",
            DirectoryFault::Version => "Lz4ByBank: unsupported extension-format version",
            DirectoryFault::Events => "Lz4ByBank: event_count mismatch with record header",
            DirectoryFault::Truncated => "Lz4ByBank: directory truncated",
            DirectoryFault::Overflow => "Lz4ByBank: directory size overflow",
            DirectoryFault::Inconsistent => {
                "Lz4ByBank: directory size inconsistent with bank/event counts"
            },
            DirectoryFault::Body => "Lz4ByBank: directory truncated",
        }
    } else {
        match f {
            DirectoryFault::Header => "Lz4PerColumn: section truncated (header)",
            DirectoryFault::Version => "Lz4PerColumn: unsupported extension-format version",
            DirectoryFault::Events => "Lz4PerColumn: event_count mismatch with record header",
            DirectoryFault::Truncated => "Lz4PerColumn: directory truncated",
            DirectoryFault::Overflow => "Lz4PerColumn: directory size overflow",
            DirectoryFault::Inconsistent => {
                "Lz4PerColumn: directory size inconsistent with bank/event counts"
            },
            DirectoryFault::Body => "Lz4PerColumn: directory body truncated",
        }
    }
}

/// A corrupt record, for a fault in its directory.
fn fault(by_bank: bool, f: DirectoryFault) -> (r: HipoError)
    ensures
        r == corrupt(spec_reason(by_bank, f)),
{
    HipoError::CorruptRecord { offset: 0, reason: reason(by_bank, f) }
}

/// The payload of the record `src` with header `h`, without the padding at its end.
pub open spec fn section_of(src: Seq<u8>, h: RecordHeader) -> Seq<u8> {
    let len = h.record_length - h.header_length;
    let kept = if len < h.compressed_data_padding {
        0
    } else {
        len - h.compressed_data_padding
    };
    src.subrange(h.header_length as int, h.header_length + kept)
}

/// The payload of a record without the padding at its end.
pub fn section<'a>(src: &'a [u8], h: &RecordHeader) -> (r: &'a [u8])
    requires
        h.header_length <= h.record_length <= src.len(),
    ensures
        r@ == section_of(src@, *h),
{
    let len: usize = h.payload_bytes() as usize;
    let pad: usize = h.compressed_data_padding as usize;
    let kept: usize = if len < pad {
        0
    } else {
        len - pad
    };
    let start: usize = h.header_length as usize;
    slice_subrange(src, start, start + kept)
}

/// A directory, and where the streams start.
#[verifier::ext_equal]
pub struct DirectoryView {
    pub banks: nat,
    pub dir: Seq<u8>,
    pub streams_off: nat,
}

/// The bytes that a directory has before its table of stream sizes: `per_bank` for each bank,
/// the tags, the presence matrix, and the sizes of every bank in every event.
pub open spec fn fixed_len(per_bank: nat, banks: nat, events: nat) -> nat {
    per_bank * banks + 4 * events + events * row_bytes(banks) + 4 * (banks * events)
}

/// The directory in the section of a record. The checks are made in order.
pub open spec fn directory_of(
    h: RecordHeader,
    s: Seq<u8>,
    version: u8,
    legacy: u8,
    per_bank: nat,
    by_bank: bool,
) -> Outcome<DirectoryView> {
    if s.len() < 20 {
        Outcome::Fails(corrupt(spec_reason(by_bank, DirectoryFault::Header)))
    } else if s[0] != version && s[0] != legacy {
        Outcome::Fails(corrupt(spec_reason(by_bank, DirectoryFault::Version)))
    } else if u32_at(s, 8) != h.event_count {
        Outcome::Fails(corrupt(spec_reason(by_bank, DirectoryFault::Events)))
    } else if 20 + u32_at(s, 12) > s.len() {
        Outcome::Fails(corrupt(spec_reason(by_bank, DirectoryFault::Truncated)))
    } else {
        let banks = u32_at(s, 4) as nat;
        let size = u32_at(s, 16) as nat;
        let fixed = fixed_len(per_bank, banks, h.event_count as nat);
        if fixed > usize::MAX {
            Outcome::Fails(corrupt(spec_reason(by_bank, DirectoryFault::Overflow)))
        } else if size < fixed {
            Outcome::Fails(corrupt(spec_reason(by_bank, DirectoryFault::Inconsistent)))
        } else {
            let packed = s.subrange(20, 20 + u32_at(s, 12));
            match stream_of(h.compression.spec_codec(), packed, size) {
                None => Outcome::Inflate(packed, size),
                Some(dir) => if dir.len() < fixed {
                    Outcome::Fails(corrupt(spec_reason(by_bank, DirectoryFault::Body)))
                } else {
                    Outcome::Done(
                        DirectoryView { banks, dir, streams_off: (20 + u32_at(s, 12)) as nat },
                    )
                },
            }
        }
    }
}

/// `e` is the error that `o` ends with.
pub open spec fn ends_with<T>(o: Outcome<T>, h: RecordHeader, e: HipoError) -> bool {
    match o {
        Outcome::Done(_) => false,
        Outcome::Fails(err) => e == err,
        Outcome::Inflate(src, size) => decompress_error(h.compression.spec_codec(), src, size, e),
    }
}

/// A directory, and where the streams start.
pub struct Directory {
    pub banks: usize,
    pub dir: Vec<u8>,
    pub streams_off: usize,
}

impl View for Directory {
    type V = DirectoryView;

    open spec fn view(&self) -> DirectoryView {
        DirectoryView {
            banks: self.banks as nat,
            dir: self.dir@,
            streams_off: self.streams_off as nat,
        }
    }
}

/// `fixed_len`, where it fits.
fn fixed_len_of(per_bank: usize, banks: u32, events: u32) -> (r: Option<usize>)
    requires
        per_bank <= 12,
    ensures
        match r {
            Some(n) => n == fixed_len(per_bank as nat, banks as nat, events as nat),
            None => fixed_len(per_bank as nat, banks as nat, events as nat) > usize::MAX,
        },
{
    let p: u128 = per_bank as u128;
    let b: u128 = banks as u128;
    let e: u128 = events as u128;
    let w: u128 = (b + 7) / 8;
    assert(p * b <= 12 * 0x1_0000_0000 && e * w <= 0x1_0000_0000 * 0x1_0000_0000 && b * e
        <= 0x1_0000_0000 * 0x1_0000_0000 && p * b >= 0 && e * w >= 0 && b * e >= 0)
        by (nonlinear_arith)
        requires
            0 <= p <= 12,
            0 <= b < 0x1_0000_0000,
            0 <= e < 0x1_0000_0000,
            0 <= w <= 0x1_0000_0000,
    ;
    let n: u128 = p * b + 4 * e + e * w + 4 * (b * e);
    if n > usize::MAX as u128 {
        None
    } else {
        Some(n as usize)
    }
}

/// Read the directory of a split record.
pub fn read_directory(
    h: &RecordHeader,
    s: &[u8],
    version: u8,
    legacy: u8,
    per_bank: usize,
    by_bank: bool,
) -> (r: Result<Directory>)
    requires
        per_bank <= 12,
    ensures
        match directory_of(*h, s@, version, legacy, per_bank as nat, by_bank) {
            Outcome::Done(d) => r is Ok && r->Ok_0@ == d,
            o => r is Err && ends_with(o, *h, r->Err_0),
        },
{
    if s.len() < 20 {
        return Err(fault(by_bank, DirectoryFault::Header));
    }
    if s[0] != version && s[0] != legacy {
        return Err(fault(by_bank, DirectoryFault::Version));
    }
    let banks: u32 = read_u32_le(s, 4);
    let events: u32 = read_u32_le(s, 8);
    if events != h.event_count {
        return Err(fault(by_bank, DirectoryFault::Events));
    }
    let packed_len: u32 = read_u32_le(s, 12);
    let size: u32 = read_u32_le(s, 16);
    if packed_len as usize > s.len() - 20 {
        return Err(fault(by_bank, DirectoryFault::Truncated));
    }
    let streams_off: usize = 20 + packed_len as usize;
    // The counts come from the file: nothing may be read before the whole directory is known to
    // be there.
    let fixed: usize = match fixed_len_of(per_bank, banks, events) {
        Some(n) => n,
        None => {
            return Err(fault(by_bank, DirectoryFault::Overflow));
        },
    };
    if (size as usize) < fixed {
        return Err(fault(by_bank, DirectoryFault::Inconsistent));
    }
    let packed = slice_subrange(s, 20, streams_off);
    let dir = inflate_stream(h.compression, packed, size as usize)?;
    if dir.len() < fixed {
        return Err(fault(by_bank, DirectoryFault::Body));
    }
    Ok(Directory { banks: banks as usize, dir, streams_off })
}

/// Read the descriptors at the front of a directory.
pub fn read_descriptors(dir: &[u8], n: usize) -> (r: Vec<BankDescriptor>)
    requires
        4 * n <= dir.len(),
    ensures
        r@ == descriptors_of(dir@, n as nat),
{
    let mut out: Vec<BankDescriptor> = Vec::new();
    let mut b: usize = 0;
    while b < n
        invariant
            b <= n,
            4 * n <= dir.len(),
            out@ =~= descriptors_of(dir@, b as nat),
        decreases n - b,
    {
        let off: usize = 4 * b;
        out.push(
            BankDescriptor {
                group: crate::wire::bytes::read_u16_le(dir, off),
                item: dir[off + 2],
                data_type: dir[off + 3],
            },
        );
        b = b + 1;
    }
    out
}

/// The sizes of bank `b` in every event, where the table of sizes starts at byte `base`.
pub open spec fn bank_sizes(dir: Seq<u8>, base: int, events: nat, b: int) -> Seq<u32> {
    u32_table(dir, base + 4 * (b * events), events)
}

/// Where stream `k` starts, for streams of these compressed sizes.
pub open spec fn stream_start(streams_off: nat, sizes: Seq<u32>, k: int) -> int {
    (streams_off + prefix_sum(sizes, k as nat)) as int
}

/// The compressed streams of a section.
pub open spec fn packed_streams(s: Seq<u8>, streams_off: nat, sizes: Seq<u32>) -> Seq<Seq<u8>> {
    Seq::new(
        sizes.len(),
        |k: int|
            s.subrange(
                stream_start(streams_off, sizes, k),
                stream_start(streams_off, sizes, k) + sizes[k],
            ),
    )
}

/// Cut the streams out of a section; nothing where they run past its end.
pub fn cut_streams(s: &[u8], streams_off: usize, sizes: &[u32]) -> (r: Option<Vec<Vec<u8>>>)
    requires
        streams_off <= s.len(),
    ensures
        match r {
            Some(v) => streams_off + total(sizes@) <= s.len() && crate::seqs::runs_of(v@)
                == packed_streams(s@, streams_off as nat, sizes@),
            None => streams_off + total(sizes@) > s.len(),
        },
{
    let mut out: Vec<Vec<u8>> = Vec::new();
    let mut off: usize = streams_off;
    let mut k: usize = 0;
    while k < sizes.len()
        invariant
            k <= sizes.len(),
            off <= s.len(),
            off == stream_start(streams_off as nat, sizes@, k as int),
            out.len() == k,
            forall|i: int|
                0 <= i < k ==> (#[trigger] out@[i])@ == packed_streams(
                    s@,
                    streams_off as nat,
                    sizes@,
                )[i],
        decreases sizes.len() - k,
    {
        let n: usize = sizes[k] as usize;
        if n > s.len() - off {
            proof {
                crate::wire::tables::lemma_prefix_sum_monotone(
                    sizes@,
                    (k + 1) as nat,
                    sizes.len() as nat,
                );
            }
            return None;
        }
        out.push(vstd::slice::slice_to_vec(slice_subrange(s, off, off + n)));
        off = off + n;
        k = k + 1;
    }
    assert(crate::seqs::runs_of(out@) =~= packed_streams(s@, streams_off as nat, sizes@));
    Some(out)
}

} // verus!
