//! Per-column records: each column of each bank is a stream of its own, laid out over all
//! events, so that a reader decompresses only the columns it reads.
//!
//! Banks without a schema, composite banks, and banks whose bytes are no whole number of rows
//! are opaque: one stream for the whole bank.
//!
//! The directory, decompressed:
//!
//! ```text
//! B x { u16 group, u8 item, u8 data_type }
//! B x u16 number of columns (0 = opaque)
//! E x u32 event tag
//! E x ceil(B/8) presence bytes
//! B x E x u32 bank size per event
//! S x { u32 compressed size, u32 decompressed size }
//! ```

use core::ops::Range;

use vstd::prelude::*;
use vstd::slice::slice_subrange;
use crate::compress::inflate_stream;
#[allow(unused_imports)]
use crate::compress::{decompress_error, stream_of};
use crate::error::{HipoError, Result};
#[allow(unused_imports)]
use crate::event::bank::bank_fits;
use crate::event::bank::may_hold;
#[allow(unused_imports)]
use crate::event::view::blank;
use crate::schema::dict::Dict;
#[allow(unused_imports)]
use crate::schema::dict::DictView;
#[allow(unused_imports)]
use crate::schema::types::{cap32, lemma_widths_monotone, widths, SchemaView};
use crate::schema::types::Schema;
#[allow(unused_imports)]
use crate::seqs::runs_of;
#[allow(unused_imports)]
use crate::wire::bytes::u32_at;
use crate::wire::bytes::read_u32_le;
use crate::wire::constants::{EXT_FORMAT_LEGACY_PER_COLUMN, EXT_FORMAT_VERSION_PER_COLUMN};
#[allow(unused_imports)]
use crate::wire::constants::Layout;
use crate::wire::record_header::RecordHeader;
use crate::wire::split::{
    cut_streams, read_descriptors, read_directory, section, BankDescriptor,
};
#[allow(unused_imports)]
use crate::wire::split::{
    bank_sizes, corrupt, descriptors_of, directory_of, ends_with, fixed_len, packed_streams,
    section_of, DirectoryView, Outcome,
};
use crate::wire::tables::{cumulate, read_presence, read_u16_table, read_u32_table};
#[allow(unused_imports)]
use crate::wire::tables::{
    cumulative, law_cumulative_monotone, present, row_bytes, total, u16_table, u32_table,
};

verus! {

/// Streams of a bank with `cols` columns: one per column, and one for an opaque bank.
pub open spec fn streams_per_bank(cols: u16) -> nat {
    if cols == 0 {
        1
    } else {
        cols as nat
    }
}

/// The number of streams before those of bank `b`.
pub open spec fn stream_base(cols: Seq<u16>, b: nat) -> nat
    decreases b,
{
    if b == 0 {
        0
    } else {
        stream_base(cols, (b - 1) as nat) + streams_per_bank(cols[b - 1])
    }
}

/// Later banks have later streams.
pub proof fn lemma_stream_base(cols: Seq<u16>, a: nat, b: nat)
    requires
        a <= b,
    ensures
        stream_base(cols, a) <= stream_base(cols, b),
    decreases b,
{
    if a < b {
        lemma_stream_base(cols, a, (b - 1) as nat);
    }
}

/// What a per-column record says.
#[verifier::ext_equal]
pub struct PerColumnView {
    pub header: RecordHeader,
    /// The banks, in directory order.
    pub descriptors: Seq<BankDescriptor>,
    /// The tag of every event.
    pub tags: Seq<u32>,
    /// One row of bits per event: which banks it has.
    pub presence: Seq<u8>,
    /// Columns per bank; zero for an opaque bank.
    pub cols: Seq<u16>,
    /// For each bank, how many of its bytes come before each event.
    pub offsets: Seq<Seq<u32>>,
    /// The compressed streams, bank by bank.
    pub packed: Seq<Seq<u8>>,
    /// The decompressed size of each stream.
    pub sizes: Seq<u32>,
}

/// Offsets over `events` events start at zero and never decrease.
pub open spec fn offsets_grow(o: Seq<u32>, events: nat) -> bool {
    &&& o.len() == events + 1
    &&& o[0] == 0
    &&& forall|i: int, j: int| 0 <= i <= j <= events ==> o[i] <= o[j]
}

impl PerColumnView {
    pub open spec fn banks(self) -> nat {
        self.descriptors.len()
    }

    pub open spec fn events(self) -> nat {
        self.header.event_count as nat
    }

    /// The first stream of bank `b`.
    pub open spec fn base(self, b: int) -> nat {
        stream_base(self.cols, b as nat)
    }

    /// The tables have the lengths that the counts say, and offsets start at zero and never
    /// decrease.
    pub open spec fn wf(self) -> bool {
        &&& self.banks() <= u32::MAX
        &&& self.tags.len() == self.events()
        &&& self.presence.len() == self.events() * row_bytes(self.banks())
        &&& self.cols.len() == self.banks()
        &&& self.offsets.len() == self.banks()
        &&& self.packed.len() == self.base(self.banks() as int)
        &&& self.sizes.len() == self.base(self.banks() as int)
        &&& forall|b: int|
            0 <= b < self.banks() ==> offsets_grow(#[trigger] self.offsets[b], self.events())
    }

    /// Event `e` has bank `b`.
    pub open spec fn has(self, e: int, b: int) -> bool {
        present(self.presence, self.banks(), e, b)
    }

    /// The decompressed stream of column `c` of bank `b`; `None` where the bank has no such
    /// column or the stream cannot be decompressed.
    pub open spec fn stream(self, b: int, c: int) -> Option<Seq<u8>> {
        if c < streams_per_bank(self.cols[b]) {
            let s = self.base(b) + c;
            stream_of(self.header.compression.spec_codec(), self.packed[s], self.sizes[s] as nat)
        } else {
            None
        }
    }

    /// Bank `b` has this id.
    pub open spec fn is_bank(self, b: int, group: u16, item: u8) -> bool {
        &&& 0 <= b < self.banks()
        &&& self.descriptors[b].group == group
        &&& self.descriptors[b].item == item
    }

    /// Some bank has this id.
    pub open spec fn lists(self, group: u16, item: u8) -> bool {
        exists|b: int| #[trigger] self.is_bank(b, group, item)
    }

    /// The bank with this place in the order of ids that bisection finds from bank `lo` up to
    /// bank `hi`.
    pub open spec fn bisected(self, key: int, lo: nat, hi: nat) -> Option<nat>
        decreases hi - lo,
    {
        if lo >= hi {
            None
        } else {
            let mid = lo + (hi - lo) as nat / 2;
            let at = id_order(self.descriptors[mid as int]);
            if at == key {
                Some(mid)
            } else if at < key {
                self.bisected(key, mid + 1, hi)
            } else {
                self.bisected(key, lo, mid)
            }
        }
    }

    /// The bank with this id, as bisection finds it. Where the banks are sorted, it is found
    /// whenever there is one.
    pub open spec fn bank_at(self, group: u16, item: u8) -> Option<nat> {
        self.bisected(group * 256 + item, 0, self.banks())
    }

    /// What bisection finds lies where it looks.
    pub proof fn lemma_bisected(self, key: int, lo: nat, hi: nat)
        ensures
            self.bisected(key, lo, hi) matches Some(b) ==> lo <= b < hi,
        decreases hi - lo,
    {
        if lo < hi {
            let mid = lo + (hi - lo) as nat / 2;
            self.lemma_bisected(key, mid + 1, hi);
            self.lemma_bisected(key, lo, mid);
        }
    }

    /// The banks are in ascending order of their ids, as the writer leaves them.
    pub open spec fn sorted(self) -> bool {
        forall|i: int, j: int|
            0 <= i < j < self.banks() ==> id_order(#[trigger] self.descriptors[i])
                < id_order(#[trigger] self.descriptors[j])
    }

    /// How many bytes bank `b` has in event `e`.
    pub open spec fn size(self, e: int, b: int) -> int {
        self.offsets[b][e + 1] - self.offsets[b][e]
    }
}

/// The place of a bank in the order of ids.
pub open spec fn id_order(d: BankDescriptor) -> int {
    d.group * 256 + d.item
}

/// Where the table of bank sizes starts in a directory.
pub open spec fn column_sizes_base(banks: nat, events: nat) -> int {
    (6 * banks + 4 * events + events * row_bytes(banks)) as int
}

/// The compressed sizes of `n` streams, from the table of pairs at byte `off`.
pub open spec fn packed_sizes_at(dir: Seq<u8>, off: int, n: nat) -> Seq<u32> {
    Seq::new(n, |s: int| u32_at(dir, off + 8 * s))
}

/// The decompressed sizes of `n` streams, from the table of pairs at byte `off`.
pub open spec fn plain_sizes_at(dir: Seq<u8>, off: int, n: nat) -> Seq<u32> {
    Seq::new(n, |s: int| u32_at(dir, off + 8 * s + 4))
}

/// Numbers `from` up to `to`, added up.
pub open spec fn sum_range(v: Seq<u32>, from: int, to: int) -> nat
    decreases to - from,
{
    if from >= to {
        0
    } else {
        sum_range(v, from, to - 1) + v[to - 1] as nat
    }
}

/// The streams of bank `b` together are not as long as the bank.
pub open spec fn stream_mismatch(
    dir: Seq<u8>,
    base: int,
    events: nat,
    cols: Seq<u16>,
    sizes: Seq<u32>,
    b: int,
) -> bool {
    cap32(total(bank_sizes(dir, base, events, b))) != sum_range(
        sizes,
        stream_base(cols, b as nat) as int,
        stream_base(cols, (b + 1) as nat) as int,
    )
}

/// What a directory and a section say. The streams of a bank must together be as long as the
/// bank, and they must lie within the section.
pub open spec fn per_column_of(h: RecordHeader, s: Seq<u8>, d: DirectoryView) -> Outcome<
    PerColumnView,
> {
    let n = d.banks;
    let events = h.event_count as nat;
    let cols = u16_table(d.dir, 4 * n as int, n);
    let base = column_sizes_base(n, events);
    let table = fixed_len(6, n, events) as int;
    let streams = stream_base(cols, n);
    let packed_sizes = packed_sizes_at(d.dir, table, streams);
    let sizes = plain_sizes_at(d.dir, table, streams);
    if table + 8 * streams > d.dir.len() {
        Outcome::Fails(corrupt("Lz4PerColumn: per-stream size table truncated"))
    } else if exists|b: int|
        0 <= b < n && #[trigger] stream_mismatch(d.dir, base, events, cols, sizes, b) {
        Outcome::Fails(
            corrupt("Lz4PerColumn: bank byte size disagrees with its column streams"),
        )
    } else if d.streams_off + total(packed_sizes) > s.len() {
        Outcome::Fails(corrupt("Lz4PerColumn: stream bytes run past section end"))
    } else {
        Outcome::Done(
            PerColumnView {
                header: h,
                descriptors: descriptors_of(d.dir, n),
                tags: u32_table(d.dir, 6 * n as int, events),
                presence: d.dir.subrange(
                    (6 * n + 4 * events) as int,
                    (6 * n + 4 * events + events * row_bytes(n)) as int,
                ),
                cols,
                offsets: Seq::new(n, |b: int| cumulative(bank_sizes(d.dir, base, events, b))),
                packed: packed_streams(s, d.streams_off, packed_sizes),
                sizes,
            },
        )
    }
}

/// The directory in the section of a per-column record.
pub open spec fn per_column_directory(h: RecordHeader, s: Seq<u8>) -> Outcome<DirectoryView> {
    directory_of(h, s, EXT_FORMAT_VERSION_PER_COLUMN, EXT_FORMAT_LEGACY_PER_COLUMN, 6, false)
}

/// What the bytes of a record say, or how reading them fails.
pub open spec fn per_column_decoded(src: Seq<u8>) -> Outcome<PerColumnView> {
    match RecordHeader::decoded(src) {
        Err(e) => Outcome::Fails(e),
        Ok(h) => if h.compression.spec_layout() != Layout::PerColumn {
            Outcome::Fails(corrupt("PerColumnRecord::parse called on a non-per-column record"))
        } else if src.len() < h.record_length {
            Outcome::Fails(corrupt("Lz4PerColumn: record extends past buffer"))
        } else {
            match per_column_directory(h, section_of(src, h)) {
                Outcome::Done(d) => per_column_of(h, section_of(src, h), d),
                Outcome::Fails(e) => Outcome::Fails(e),
                Outcome::Inflate(b, n) => Outcome::Inflate(b, n),
            }
        },
    }
}

/// `e` is the error that reading the record `src` ends with.
pub open spec fn per_column_error(src: Seq<u8>, e: HipoError) -> bool {
    match per_column_decoded(src) {
        Outcome::Done(_) => false,
        Outcome::Fails(err) => e == err,
        Outcome::Inflate(b, n) => decompress_error(
            RecordHeader::decoded(src)->Ok_0.compression.spec_codec(),
            b,
            n,
            e,
        ),
    }
}

/// The columns of a bank, as places in a row: offset and width of each. Empty for an opaque
/// bank and for one without a schema.
#[derive(Debug)]
pub struct BankLayout {
    pub row_size: u32,
    pub cols: Vec<(u32, u32)>,
}

/// The geometry of bank `b` under the dictionary `d`.
pub open spec fn is_layout(v: PerColumnView, d: DictView, b: int, l: BankLayout) -> bool {
    match d.by_id(v.descriptors[b].group, v.descriptors[b].item) {
        Some(s) => if v.cols[b] == 0 {
            l.row_size == 0 && l.cols.len() == 0
        } else {
            &&& l.row_size == s.row_size
            &&& l.cols.len() == s.entries.len()
            &&& forall|c: int|
                0 <= c < l.cols.len() ==> (#[trigger] l.cols@[c]).0 == s.entries[c].row_offset
                    && l.cols@[c].1 == cap32(s.entries[c].width())
        },
        None => l.row_size == 0 && l.cols.len() == 0,
    }
}

/// A per-column record. Only its directory is decompressed when it is parsed. What reads through
/// a shared reference decompresses a stream each time; [`Self::column_stream`] keeps it.
#[derive(Debug)]
pub struct PerColumnRecord {
    header: RecordHeader,
    descriptors: Vec<BankDescriptor>,
    tags: Vec<u32>,
    presence: Vec<u8>,
    cols: Vec<u16>,
    /// The first stream of each bank, and the number of streams at the end.
    bases: Vec<usize>,
    offsets: Vec<Vec<u32>>,
    packed: Vec<Vec<u8>>,
    sizes: Vec<u32>,
    /// The streams decompressed so far.
    inflated: Vec<Option<Vec<u8>>>,
}

impl View for PerColumnRecord {
    type V = PerColumnView;

    closed spec fn view(&self) -> PerColumnView {
        PerColumnView {
            header: self.header,
            descriptors: self.descriptors@,
            tags: self.tags@,
            presence: self.presence@,
            cols: self.cols@,
            offsets: self.offsets@.map_values(|o: Vec<u32>| o@),
            packed: runs_of(self.packed@),
            sizes: self.sizes@,
        }
    }
}

/// The stream with number `s`.
spec fn flat_stream(v: PerColumnView, s: int) -> Option<Seq<u8>> {
    stream_of(v.header.compression.spec_codec(), v.packed[s], v.sizes[s] as nat)
}

/// The first streams are those that the column counts say.
spec fn bases_ok(v: PerColumnView, bases: Seq<usize>) -> bool {
    &&& bases.len() == v.banks() + 1
    &&& forall|b: int| 0 <= b <= v.banks() ==> #[trigger] bases[b] == v.base(b)
}

/// A kept stream is the stream with its number.
spec fn kept_ok(v: PerColumnView, inflated: Seq<Option<Vec<u8>>>) -> bool {
    &&& inflated.len() == v.sizes.len()
    &&& forall|s: int|
        0 <= s < v.sizes.len() ==> (#[trigger] inflated[s] matches Some(x) ==> flat_stream(v, s)
            == Some(x@))
}

/// Read the table of stream sizes: compressed and decompressed.
fn read_stream_sizes(dir: &[u8], off: usize, n: usize) -> (r: (Vec<u32>, Vec<u32>))
    requires
        off + 8 * n <= dir.len(),
    ensures
        r.0@ == packed_sizes_at(dir@, off as int, n as nat),
        r.1@ == plain_sizes_at(dir@, off as int, n as nat),
{
    let mut packed: Vec<u32> = Vec::new();
    let mut plain: Vec<u32> = Vec::new();
    let mut s: usize = 0;
    while s < n
        invariant
            s <= n,
            off + 8 * n <= dir.len(),
            packed@ =~= packed_sizes_at(dir@, off as int, s as nat),
            plain@ =~= plain_sizes_at(dir@, off as int, s as nat),
        decreases n - s,
    {
        packed.push(read_u32_le(dir, off + 8 * s));
        plain.push(read_u32_le(dir, off + 8 * s + 4));
        s = s + 1;
    }
    (packed, plain)
}

impl PerColumnRecord {
    /// A record is well-formed, and the streams it keeps are its own.
    #[verifier::type_invariant]
    pub closed spec fn inv(self) -> bool {
        self@.wf() && bases_ok(self@, self.bases@) && kept_ok(self@, self.inflated@)
    }

    /// Column `c` of bank `b` has been decompressed.
    pub closed spec fn is_inflated(self, b: int, c: int) -> bool {
        self.inflated@[self@.base(b) + c] is Some
    }

    /// Parse a whole record: header, then payload. Decompresses the directory alone.
    pub fn parse(src: &[u8]) -> (r: Result<Self>)
        ensures
            match per_column_decoded(src@) {
                Outcome::Done(v) => r is Ok && r->Ok_0@ == v && r->Ok_0.untouched(),
                _ => r is Err && per_column_error(src@, r->Err_0),
            },
    {
        let header = RecordHeader::parse(src)?;
        if !header.compression.is_per_column() {
            return Err(
                HipoError::CorruptRecord {
                    offset: 0,
                    reason: "PerColumnRecord::parse called on a non-per-column record",
                },
            );
        }
        if (src.len() as u64) < header.total_bytes() {
            return Err(
                HipoError::CorruptRecord {
                    offset: 0,
                    reason: "Lz4PerColumn: record extends past buffer",
                },
            );
        }
        Self::parse_section(header, section(src, &header))
    }

    /// No stream has been decompressed.
    pub open spec fn untouched(self) -> bool {
        forall|b: int, c: int|
            0 <= b < self@.banks() && 0 <= c < streams_per_bank(self@.cols[b])
                ==> !#[trigger] self.is_inflated(b, c)
    }

    /// Parse the payload section of a record with header `header`.
    pub fn parse_section(header: RecordHeader, s: &[u8]) -> (r: Result<Self>)
        ensures
            match per_column_directory(header, s@) {
                Outcome::Done(d) => match per_column_of(header, s@, d) {
                    Outcome::Done(v) => r is Ok && r->Ok_0@ == v && r->Ok_0.untouched(),
                    o => r is Err && ends_with(o, header, r->Err_0),
                },
                o => r is Err && ends_with(o, header, r->Err_0),
            },
    {
        let d = read_directory(
            &header,
            s,
            EXT_FORMAT_VERSION_PER_COLUMN,
            EXT_FORMAT_LEGACY_PER_COLUMN,
            6,
            false,
        )?;
        Self::from_directory(header, s, d)
    }

    /// Read the tables of a directory, and cut the streams out of the section.
    fn from_directory(header: RecordHeader, s: &[u8], d: crate::wire::split::Directory) -> (r:
        Result<Self>)
        requires
            d.dir.len() >= fixed_len(6, d.banks as nat, header.event_count as nat),
            d.banks <= u32::MAX,
            d.streams_off <= s.len(),
        ensures
            match per_column_of(header, s@, d@) {
                Outcome::Done(v) => r is Ok && r->Ok_0@ == v && r->Ok_0.untouched(),
                o => r is Err && ends_with(o, header, r->Err_0),
            },
    {
        let ghost dv = d@;
        let n: usize = d.banks;
        let events: usize = header.event_count as usize;
        let dir = d.dir.as_slice();
        let w: usize = n / 8 + (if n % 8 == 0 {
            0
        } else {
            1
        });
        proof {
            assert(w == row_bytes(n as nat));
            assert(events * w >= 0 && n * events >= 0) by (nonlinear_arith)
                requires
                    events >= 0,
                    w >= 0,
                    n >= 0,
            ;
        }
        let ghost sbase = column_sizes_base(n as nat, events as nat);
        let descriptors = read_descriptors(dir, n);
        let cols = read_u16_table(dir, 4 * n, n);
        let tags = read_u32_table(dir, 6 * n, events);
        let presence_off: usize = 6 * n + 4 * events;
        let base: usize = presence_off + events * w;
        let presence = vstd::slice::slice_to_vec(slice_subrange(dir, presence_off, base));
        let table: usize = base + 4 * (n * events);
        assert(table == fixed_len(6, n as nat, events as nat));
        // The stream count is known once the column counts are: the table must hold them all.
        let mut bases: Vec<usize> = Vec::new();
        let mut streams: usize = 0;
        bases.push(0);
        let mut b: usize = 0;
        while b < n
            invariant
                b <= n,
                n <= u32::MAX,
                n == dv.banks,
                dv == d@,
                table <= dir.len(),
                cols@ == u16_table(dv.dir, 4 * n as int, n as nat),
                streams == stream_base(cols@, b as nat),
                table + 8 * streams <= dir.len(),
                table == fixed_len(6, n as nat, events as nat),
                dir@ == dv.dir,
                events == header.event_count,
                bases.len() == b + 1,
                forall|k: int| 0 <= k <= b ==> #[trigger] bases@[k] == stream_base(cols@, k as nat),
            decreases n - b,
        {
            let per_bank: usize = if cols[b] == 0 {
                1
            } else {
                cols[b] as usize
            };
            if per_bank > (dir.len() - table) / 8 - streams {
                proof {
                    lemma_stream_base(cols@, (b + 1) as nat, n as nat);
                }
                return Err(
                    HipoError::CorruptRecord {
                        offset: 0,
                        reason: "Lz4PerColumn: per-stream size table truncated",
                    },
                );
            }
            streams = streams + per_bank;
            bases.push(streams);
            b = b + 1;
        }
        let (packed_sizes, sizes) = read_stream_sizes(dir, table, streams);
        let mut offsets: Vec<Vec<u32>> = Vec::new();
        let mut c: usize = 0;
        while c < n
            invariant
                c <= n,
                n == dv.banks,
                dv == d@,
                events == header.event_count,
                dir@ == dv.dir,
                base == sbase,
                sbase == column_sizes_base(n as nat, events as nat),
                base + 4 * (n * events) == table,
                table == fixed_len(6, n as nat, events as nat),
                table + 8 * streams <= dir.len(),
                cols@ == u16_table(dv.dir, 4 * n as int, n as nat),
                streams == stream_base(cols@, n as nat),
                sizes@ == plain_sizes_at(dv.dir, table as int, streams as nat),
                bases.len() == n + 1,
                forall|k: int| 0 <= k <= n ==> #[trigger] bases@[k] == stream_base(cols@, k as nat),
                offsets.len() == c,
                forall|k: int|
                    0 <= k < c ==> (#[trigger] offsets@[k])@ == cumulative(
                        bank_sizes(dv.dir, sbase, events as nat, k),
                    ),
                forall|k: int|
                    0 <= k < c ==> !#[trigger] stream_mismatch(
                        dv.dir,
                        sbase,
                        events as nat,
                        cols@,
                        sizes@,
                        k,
                    ),
            decreases n - c,
        {
            assert(c * events >= 0 && c * events + events <= n * events) by (nonlinear_arith)
                requires
                    0 <= c < n,
                    events >= 0,
            ;
            let row = read_u32_table(dir, base + 4 * (c * events), events);
            let cum = cumulate(row.as_slice());
            assert(row@ == bank_sizes(dv.dir, sbase, events as nat, c as int));
            let bank_bytes: u64 = cum[events] as u64;
            let from: usize = bases[c];
            let to: usize = bases[c + 1];
            proof {
                lemma_stream_base(cols@, c as nat, (c + 1) as nat);
                lemma_stream_base(cols@, (c + 1) as nat, n as nat);
            }
            // A sum that has passed the bank's size stays past it.
            let mut sum: u64 = 0;
            let mut k: usize = from;
            while k < to
                invariant
                    from <= k <= to,
                    to <= sizes.len(),
                    to - from <= 65535,
                    sum == sum_range(sizes@, from as int, k as int),
                    sum <= (k - from) * u32::MAX,
                decreases to - k,
            {
                sum = sum + sizes[k] as u64;
                k = k + 1;
            }
            if bank_bytes != sum {
                assert(stream_mismatch(dv.dir, sbase, events as nat, cols@, sizes@, c as int));
                return Err(
                    HipoError::CorruptRecord {
                        offset: 0,
                        reason:
                            "Lz4PerColumn: bank byte size disagrees with its column streams",
                    },
                );
            }
            offsets.push(cum);
            c = c + 1;
        }
        let packed = match cut_streams(s, d.streams_off, packed_sizes.as_slice()) {
            Some(p) => p,
            None => {
                return Err(
                    HipoError::CorruptRecord {
                        offset: 0,
                        reason: "Lz4PerColumn: stream bytes run past section end",
                    },
                );
            },
        };
        let mut inflated: Vec<Option<Vec<u8>>> = Vec::new();
        let mut k: usize = 0;
        while k < streams
            invariant
                k <= streams,
                inflated.len() == k,
                forall|i: int| 0 <= i < k ==> (#[trigger] inflated@[i]) is None,
            decreases streams - k,
        {
            inflated.push(None);
            k = k + 1;
        }
        let ghost v = per_column_of(header, s@, dv)->Done_0;
        proof {
            assert(per_column_of(header, s@, dv) is Done);
            assert(offsets@.map_values(|o: Vec<u32>| o@) =~= v.offsets);
            assert forall|i: int| 0 <= i < n implies offsets_grow(
                #[trigger] v.offsets[i],
                events as nat,
            ) by {
                law_cumulative_monotone(bank_sizes(dv.dir, sbase, events as nat, i));
            }
            assert(v.wf());
        }
        let rec = PerColumnRecord {
            header,
            descriptors,
            tags,
            presence,
            cols,
            bases,
            offsets,
            packed,
            sizes,
            inflated,
        };
        assert(rec@ =~= v);
        proof {
            assert forall|b: int, c: int|
                0 <= b < v.banks() && 0 <= c < streams_per_bank(
                    v.cols[b],
                ) implies !#[trigger] rec.is_inflated(b, c) by {
                lemma_stream_base(v.cols, (b + 1) as nat, v.banks());
                assert(rec.inflated@[v.base(b) + c] is None);
            }
        }
        Ok(rec)
    }

    pub fn header(&self) -> (r: &RecordHeader)
        ensures
            *r == self@.header,
    {
        &self.header
    }

    pub fn event_count(&self) -> (r: u32)
        ensures
            r == self@.events(),
            self@.wf(),
    {
        proof {
            use_type_invariant(self);
        }
        self.header.event_count
    }

    pub fn num_banks(&self) -> (r: usize)
        ensures
            r == self@.banks(),
            r <= u32::MAX,
    {
        proof {
            use_type_invariant(self);
        }
        self.descriptors.len()
    }

    pub fn event_tag(&self, event_idx: u32) -> (r: u32)
        requires
            event_idx < self@.events(),
        ensures
            r == self@.tags[event_idx as int],
    {
        proof {
            use_type_invariant(self);
        }
        self.tags[event_idx as usize]
    }

    /// Look up a bank by `(group, item)`, by bisection: the writer leaves the banks in
    /// ascending order.
    pub fn bank_index(&self, group: u16, item: u8) -> (r: Option<u32>)
        ensures
            match r {
                Some(b) => self@.is_bank(b as int, group, item),
                None => self@.sorted() ==> !self@.lists(group, item),
            },
            match r {
                Some(b) => self@.bank_at(group, item) == Some(b as nat),
                None => self@.bank_at(group, item) is None,
            },
    {
        proof {
            use_type_invariant(self);
        }
        let key: u32 = group as u32 * 256 + item as u32;
        let mut lo: usize = 0;
        let mut hi: usize = self.descriptors.len();
        while lo < hi
            invariant
                lo <= hi <= self.descriptors.len(),
                self.descriptors.len() <= u32::MAX,
                self@.descriptors == self.descriptors@,
                key == group * 256 + item,
                self@.bank_at(group, item) == self@.bisected(key as int, lo as nat, hi as nat),
                self@.sorted() ==> forall|b: int|
                    0 <= b < lo ==> id_order(#[trigger] self@.descriptors[b]) < key,
                self@.sorted() ==> forall|b: int|
                    hi <= b < self@.banks() ==> id_order(#[trigger] self@.descriptors[b]) > key,
            decreases hi - lo,
        {
            let mid: usize = lo + (hi - lo) / 2;
            let d = self.descriptors[mid];
            let at: u32 = d.group as u32 * 256 + d.item as u32;
            if at == key {
                return Some(mid as u32);
            }
            if at < key {
                lo = mid + 1;
            } else {
                hi = mid;
            }
        }
        proof {
            if self@.sorted() && self@.lists(group, item) {
                let b = choose|b: int| #[trigger] self@.is_bank(b, group, item);
                assert(id_order(self@.descriptors[b]) == key);
            }
        }
        None
    }

    /// True if event `event_idx` carries bank `bank_idx`.
    pub fn has(&self, event_idx: u32, bank_idx: u32) -> (r: bool)
        requires
            event_idx < self@.events(),
            bank_idx < self@.banks(),
        ensures
            r == self@.has(event_idx as int, bank_idx as int),
    {
        proof {
            use_type_invariant(self);
        }
        read_presence(
            self.presence.as_slice(),
            self.descriptors.len(),
            self.header.event_count as usize,
            event_idx as usize,
            bank_idx as usize,
        )
    }

    /// Group, item and type code of a bank.
    pub fn descriptor(&self, bank_idx: u32) -> (r: (u16, u8, u8))
        requires
            bank_idx < self@.banks(),
        ensures
            r.0 == self@.descriptors[bank_idx as int].group,
            r.1 == self@.descriptors[bank_idx as int].item,
            r.2 == self@.descriptors[bank_idx as int].data_type,
    {
        let d = self.descriptors[bank_idx as usize];
        (d.group, d.item, d.data_type)
    }

    /// Bytes of bank `bank_idx` in event `event_idx`.
    pub fn bank_size(&self, event_idx: u32, bank_idx: u32) -> (r: u32)
        requires
            event_idx < self@.events(),
            bank_idx < self@.banks(),
        ensures
            r == self@.size(event_idx as int, bank_idx as int),
    {
        let r = self.bank_byte_range(event_idx, bank_idx);
        (r.end - r.start) as u32
    }

    /// True if bank `bank_idx` is stored as one stream rather than column by column.
    pub fn is_opaque(&self, bank_idx: u32) -> (r: bool)
        requires
            bank_idx < self@.banks(),
        ensures
            r == (self@.cols[bank_idx as int] == 0),
    {
        proof {
            use_type_invariant(self);
        }
        self.cols[bank_idx as usize] == 0
    }

    /// Column streams of a bank; zero for an opaque one.
    pub fn num_columns(&self, bank_idx: u32) -> (r: u16)
        requires
            bank_idx < self@.banks(),
        ensures
            r == self@.cols[bank_idx as int],
    {
        proof {
            use_type_invariant(self);
        }
        self.cols[bank_idx as usize]
    }

    /// How many bytes of bank `bank_idx` come before event `event_idx`.
    pub fn bank_byte_offset(&self, event_idx: u32, bank_idx: u32) -> (r: u32)
        requires
            event_idx < self@.events(),
            bank_idx < self@.banks(),
        ensures
            r == self@.offsets[bank_idx as int][event_idx as int],
    {
        self.bank_byte_range(event_idx, bank_idx).start as u32
    }

    /// Where event `event_idx`'s data lies within the bytes of bank `bank_idx`.
    pub fn bank_byte_range(&self, event_idx: u32, bank_idx: u32) -> (r: Range<usize>)
        requires
            event_idx < self@.events(),
            bank_idx < self@.banks(),
        ensures
            r.start == self@.offsets[bank_idx as int][event_idx as int],
            r.end == self@.offsets[bank_idx as int][event_idx + 1],
            r.start <= r.end,
    {
        proof {
            use_type_invariant(self);
            assert(offsets_grow(self@.offsets[bank_idx as int], self@.events()));
            assert(self@.offsets[bank_idx as int] == self.offsets@[bank_idx as int]@);
        }
        let o = &self.offsets[bank_idx as usize];
        let e: usize = event_idx as usize;
        o[e] as usize..o[e + 1] as usize
    }

    /// The number of the stream of column `col_idx` of bank `bank_idx`, if there is one.
    fn stream_number(&self, bank_idx: u32, col_idx: u16) -> (r: Option<usize>)
        requires
            bank_idx < self@.banks(),
        ensures
            match r {
                Some(s) => col_idx < streams_per_bank(self@.cols[bank_idx as int]) && s
                    == self@.base(bank_idx as int) + col_idx && s < self@.sizes.len(),
                None => col_idx >= streams_per_bank(self@.cols[bank_idx as int]),
            },
    {
        proof {
            use_type_invariant(self);
            lemma_stream_base(self@.cols, (bank_idx + 1) as nat, self@.banks());
            assert(self.bases@[bank_idx as int] == self@.base(bank_idx as int));
            assert(self.bases@[bank_idx + 1] == self@.base(bank_idx + 1));
        }
        let base: usize = self.bases[bank_idx as usize];
        let next: usize = self.bases[bank_idx as usize + 1];
        if col_idx as usize >= next - base {
            None
        } else {
            Some(base + col_idx as usize)
        }
    }

    /// Decompress column `col_idx` of bank `bank_idx`, without keeping the stream. For opaque
    /// banks the column is zero.
    pub fn inflate_column(&self, bank_idx: u32, col_idx: u16) -> (r: Result<Vec<u8>>)
        requires
            bank_idx < self@.banks(),
        ensures
            match self@.stream(bank_idx as int, col_idx as int) {
                Some(s) => r is Ok && r->Ok_0@ == s,
                None => r is Err && self@.stream_error(
                    bank_idx as int,
                    col_idx as int,
                    r->Err_0,
                ),
            },
    {
        match self.stream_number(bank_idx, col_idx) {
            None => Err(
                HipoError::CorruptRecord {
                    offset: 0,
                    reason: "Lz4PerColumn: column index out of range",
                },
            ),
            Some(s) => {
                proof {
                    use_type_invariant(self);
                    assert(self@.packed[s as int] == self.packed@[s as int]@);
                }
                inflate_stream(
                    self.header.compression,
                    self.packed[s].as_slice(),
                    self.sizes[s] as usize,
                )
            },
        }
    }

    /// The decompressed stream of column `col_idx` of bank `bank_idx`, decompressing it the
    /// first time. The other streams stay as they are.
    pub fn column_stream(&mut self, bank_idx: u32, col_idx: u16) -> (r: Result<&[u8]>)
        requires
            bank_idx < old(self)@.banks(),
        ensures
            final(self)@ == old(self)@,
            match old(self)@.stream(bank_idx as int, col_idx as int) {
                Some(s) => r is Ok && r->Ok_0@ == s && final(self).is_inflated(
                    bank_idx as int,
                    col_idx as int,
                ),
                None => r is Err && old(self)@.stream_error(
                    bank_idx as int,
                    col_idx as int,
                    r->Err_0,
                ) && (col_idx < streams_per_bank(old(self)@.cols[bank_idx as int])
                    ==> !final(self).is_inflated(bank_idx as int, col_idx as int)),
            },
            forall|b: int, c: int|
                0 <= b < old(self)@.banks() && 0 <= c < streams_per_bank(old(self)@.cols[b]) && (b
                    != bank_idx || c != col_idx) ==> #[trigger] final(self).is_inflated(b, c)
                    == old(self).is_inflated(b, c),
    {
        proof {
            use_type_invariant(&*self);
        }
        let s: usize = match self.stream_number(bank_idx, col_idx) {
            Some(s) => s,
            None => {
                return Err(
                    HipoError::CorruptRecord {
                        offset: 0,
                        reason: "Lz4PerColumn: column index out of range",
                    },
                );
            },
        };
        let missing = match &self.inflated[s] {
            Some(_) => false,
            None => true,
        };
        if missing {
            let bytes = self.inflate_column(bank_idx, col_idx)?;
            self.keep(s, bytes);
        }
        proof {
            use_type_invariant(&*self);
            assert forall|b: int, c: int|
                0 <= b < old(self)@.banks() && 0 <= c < streams_per_bank(old(self)@.cols[b]) && (b
                    != bank_idx || c != col_idx) implies #[trigger] self.is_inflated(b, c)
                == old(self).is_inflated(b, c) by {
                let cols = old(self)@.cols;
                if b < bank_idx {
                    lemma_stream_base(cols, (b + 1) as nat, bank_idx as nat);
                } else if b > bank_idx {
                    lemma_stream_base(cols, (bank_idx + 1) as nat, b as nat);
                }
                lemma_stream_base(cols, (b + 1) as nat, old(self)@.banks());
            }
        }
        match &self.inflated[s] {
            Some(x) => Ok(x.as_slice()),
            None => vstd::pervasive::unreached(),
        }
    }

    /// Keep stream number `s`.
    fn keep(&mut self, s: usize, bytes: Vec<u8>)
        requires
            s < old(self)@.sizes.len(),
            flat_stream(old(self)@, s as int) == Some(bytes@),
        ensures
            final(self)@ == old(self)@,
            final(self).inflated@ == old(self).inflated@.update(s as int, Some(bytes)),
    {
        proof {
            use_type_invariant(&*self);
        }
        let mut work = Self::hollow(self.header);
        core::mem::swap(&mut work, self);
        let PerColumnRecord {
            header,
            descriptors,
            tags,
            presence,
            cols,
            bases,
            offsets,
            packed,
            sizes,
            mut inflated,
        } = work;
        inflated.set(s, Some(bytes));
        *self = PerColumnRecord {
            header,
            descriptors,
            tags,
            presence,
            cols,
            bases,
            offsets,
            packed,
            sizes,
            inflated,
        };
    }

    /// A record without banks or events, to stand in while another is taken apart.
    fn hollow(header: RecordHeader) -> (r: Self)
        ensures
            r@ == (PerColumnView {
                header: RecordHeader { event_count: 0, ..header },
                descriptors: Seq::empty(),
                tags: Seq::empty(),
                presence: Seq::empty(),
                cols: Seq::empty(),
                offsets: Seq::empty(),
                packed: Seq::empty(),
                sizes: Seq::empty(),
            }),
            r.bases@ == seq![0usize],
            r.inflated@ == Seq::<Option<Vec<u8>>>::empty(),
    {
        let header = RecordHeader { event_count: 0, ..header };
        let mut bases: Vec<usize> = Vec::new();
        bases.push(0);
        let r = PerColumnRecord {
            header,
            descriptors: Vec::new(),
            tags: Vec::new(),
            presence: Vec::new(),
            cols: Vec::new(),
            bases,
            offsets: Vec::new(),
            packed: Vec::new(),
            sizes: Vec::new(),
            inflated: Vec::new(),
        };
        assert(r@.offsets =~= Seq::empty());
        assert(r@.packed =~= Seq::empty());
        r
    }

    /// True if column `col_idx` of bank `bank_idx` has been decompressed.
    pub fn is_column_inflated(&self, bank_idx: u32, col_idx: u16) -> (r: bool)
        requires
            bank_idx < self@.banks(),
            col_idx < streams_per_bank(self@.cols[bank_idx as int]),
        ensures
            r == self.is_inflated(bank_idx as int, col_idx as int),
    {
        proof {
            use_type_invariant(self);
        }
        match self.stream_number(bank_idx, col_idx) {
            Some(s) => match &self.inflated[s] {
                Some(_) => true,
                None => false,
            },
            None => false,
        }
    }

    /// The bytes of bank `bank_idx` in event `event_idx` under a schema, put together from its
    /// columns, and the columns that cannot be read: their cells are zeros. An opaque bank needs
    /// no schema.
    pub fn bank_data(&self, event_idx: u32, bank_idx: u32, schema: &Schema) -> (r: Option<
        (Vec<u8>, Vec<usize>),
    >)
        requires
            event_idx < self@.events(),
            bank_idx < self@.banks(),
        ensures
            match r {
                Some((d, lost)) => self@.bank_data(event_idx as int, bank_idx as int, schema@)
                    == Some(d@) && lost@ == self@.lost_columns(
                    event_idx as int,
                    bank_idx as int,
                    schema@,
                ),
                None => self@.bank_data(event_idx as int, bank_idx as int, schema@) is None,
            },
    {
        let mut lost: Vec<usize> = Vec::new();
        if self.is_opaque(bank_idx) {
            return match self.opaque_data(event_idx, bank_idx) {
                Some(d) => Some((d, lost)),
                None => None,
            };
        }
        let mut out: Vec<u8> = Vec::new();
        let row_size: u32 = schema.row_size();
        if row_size == 0 {
            return Some((out, lost));
        }
        proof {
            use_type_invariant(self);
            use_type_invariant(schema);
        }
        let ghost (e, b) = (event_idx as int, bank_idx as int);
        let size: u32 = self.bank_size(event_idx, bank_idx);
        if !may_hold(schema, size as usize) {
            return None;
        }
        let rows: u32 = size / row_size;
        proof {
            self@.lemma_rows_room(e, b, schema@);
        }
        let entries = schema.entries();
        let mut c: usize = 0;
        assert(out@ =~= Seq::<u8>::empty());
        assert(lost@ =~= Seq::<usize>::empty());
        while c < entries.len()
            invariant
                c <= entries.len(),
                entries.len() == schema@.entries.len(),
                entries.len() <= 65536,
                forall|k: int|
                    0 <= k < entries.len() ==> (#[trigger] entries@[k])@ == schema@.entries[k],
                event_idx < self@.events(),
                bank_idx < self@.banks(),
                e == event_idx,
                b == bank_idx,
                out@ == self@.columns_data(e, b, schema@, c as nat),
                lost@ == self@.lost(e, b, schema@, c as nat),
                row_size == schema@.row_size,
                row_size > 0,
                rows == self@.rows_in(e, b, schema@.row_size as nat),
                forall|k: int|
                    0 <= k < entries.len() ==> rows * (#[trigger] schema@.entries[k]).width()
                        <= u32::MAX,
            decreases entries.len() - c,
        {
            match self.column_data(event_idx, bank_idx, c, schema) {
                Some(piece) => {
                    crate::wire::bytes::push_bytes(&mut out, piece.as_slice());
                },
                None => {
                    if rows > 0 {
                        lost.push(c);
                        let (size, length): (u64, u64) = (
                            entries[c].ty.size() as u64,
                            entries[c].length as u64,
                        );
                        assert(size * length <= 8 * u32::MAX && size * length >= 0)
                            by (nonlinear_arith)
                            requires
                                0 <= size <= 8,
                                0 <= length <= u32::MAX,
                        ;
                        let w: u64 = size * length;
                        assert(entries@[c as int]@ == schema@.entries[c as int]);
                        assert(w == schema@.entries[c as int].width());
                        let n: u64 = rows as u64 * w;
                        crate::wire::bytes::push_zeros(&mut out, n as usize);
                        assert(Seq::new(n as nat, |i: int| 0u8) =~= blank(n as nat));
                    } else {
                        assert(rows * schema@.entries[c as int].width() == 0) by (nonlinear_arith)
                            requires
                                rows == 0,
                        ;
                        assert(out@ + blank(0) =~= out@);
                    }
                },
            }
            c = c + 1;
        }
        Some((out, lost))
    }

    /// The cells of event `event_idx` in column `col_idx` of bank `bank_idx`.
    pub fn column_data(
        &self,
        event_idx: u32,
        bank_idx: u32,
        col_idx: usize,
        schema: &Schema,
    ) -> (r: Option<Vec<u8>>)
        requires
            event_idx < self@.events(),
            bank_idx < self@.banks(),
            col_idx < schema@.entries.len(),
            schema@.row_size > 0,
        ensures
            match r {
                Some(d) => self@.column_data(
                    event_idx as int,
                    bank_idx as int,
                    col_idx as int,
                    schema@,
                ) == Some(d@),
                None => self@.column_data(
                    event_idx as int,
                    bank_idx as int,
                    col_idx as int,
                    schema@,
                ) is None,
            },
    {
        proof {
            use_type_invariant(schema);
        }
        if col_idx > 65535 {
            return None;
        }
        let stream = match self.inflate_column(bank_idx, col_idx as u16) {
            Ok(s) => s,
            Err(_) => {
                return None;
            },
        };
        let row_size: u32 = schema.row_size();
        let range = self.bank_byte_range(event_idx, bank_idx);
        let from: u32 = range.start as u32 / row_size;
        let rows: u32 = (range.end - range.start) as u32 / row_size;
        let entry = &schema.entries()[col_idx];
        let (size, length): (u128, u128) = (entry.ty.size() as u128, entry.length as u128);
        assert(size * length <= 8 * 0xffff_ffff && size * length >= 0) by (nonlinear_arith)
            requires
                0 <= size <= 8,
                0 <= length <= 0xffff_ffff,
        ;
        let w: u128 = size * length;
        let n: u128 = from as u128 + rows as u128;
        let f: u128 = from as u128;
        assert(n * w <= 0x1_ffff_fffe * (8 * 0xffff_ffff) && 0 <= f * w <= n * w)
            by (nonlinear_arith)
            requires
                0 <= f <= n <= 0x1_ffff_fffe,
                0 <= w <= 8 * 0xffff_ffff,
        ;
        let hi: u128 = n * w;
        if hi > stream.len() as u128 {
            return None;
        }
        let lo: u128 = f * w;
        Some(
            vstd::slice::slice_to_vec(
                slice_subrange(stream.as_slice(), lo as usize, hi as usize),
            ),
        )
    }

    /// The bytes of event `event_idx` in a bank that is one stream.
    pub(crate) fn opaque_data(&self, event_idx: u32, bank_idx: u32) -> (r: Option<Vec<u8>>)
        requires
            event_idx < self@.events(),
            bank_idx < self@.banks(),
        ensures
            match r {
                Some(d) => self@.opaque_data(event_idx as int, bank_idx as int) == Some(d@),
                None => self@.opaque_data(event_idx as int, bank_idx as int) is None,
            },
    {
        match self.inflate_column(bank_idx, 0) {
            Ok(s) => {
                let range = self.bank_byte_range(event_idx, bank_idx);
                if range.end <= s.len() {
                    Some(
                        vstd::slice::slice_to_vec(
                            slice_subrange(s.as_slice(), range.start, range.end),
                        ),
                    )
                } else {
                    None
                }
            },
            Err(_) => None,
        }
    }

    /// The geometry of every bank under a dictionary, in directory order.
    pub fn column_layout(&self, dict: &Dict) -> (r: Vec<BankLayout>)
        ensures
            r.len() == self@.banks(),
            forall|b: int| 0 <= b < r.len() ==> is_layout(self@, dict@, b, #[trigger] r@[b]),
    {
        let n: usize = self.num_banks();
        let mut out: Vec<BankLayout> = Vec::new();
        let mut b: usize = 0;
        while b < n
            invariant
                b <= n,
                n == self@.banks(),
                n <= u32::MAX,
                out.len() == b,
                forall|k: int| 0 <= k < b ==> is_layout(self@, dict@, k, #[trigger] out@[k]),
            decreases n - b,
        {
            let (g, i, _) = self.descriptor(b as u32);
            let mut layout = BankLayout { row_size: 0, cols: Vec::new() };
            if !self.is_opaque(b as u32) {
                if let Some(s) = dict.get_by_id(g, i) {
                    layout.row_size = s.row_size();
                    let entries = s.entries();
                    let mut c: usize = 0;
                    while c < entries.len()
                        invariant
                            c <= entries.len(),
                            entries.len() == s@.entries.len(),
                            forall|k: int|
                                0 <= k < entries.len() ==> (#[trigger] entries@[k])@
                                    == s@.entries[k],
                            layout.row_size == s@.row_size,
                            layout.cols.len() == c,
                            forall|k: int|
                                0 <= k < c ==> (#[trigger] layout.cols@[k]).0
                                    == s@.entries[k].row_offset && layout.cols@[k].1 == cap32(
                                    s@.entries[k].width(),
                                ),
                        decreases entries.len() - c,
                    {
                        let size: u64 = entries[c].ty.size() as u64;
                        let length: u64 = entries[c].length as u64;
                        assert(size * length <= 8 * u32::MAX && size * length >= 0)
                            by (nonlinear_arith)
                            requires
                                0 <= size <= 8,
                                0 <= length <= u32::MAX,
                        ;
                        let width: u64 = size * length;
                        assert(width == s@.entries[c as int].width());
                        let capped: u32 = if width > u32::MAX as u64 {
                            u32::MAX
                        } else {
                            width as u32
                        };
                        layout.cols.push((entries[c].row_offset, capped));
                        c = c + 1;
                    }
                }
            }
            out.push(layout);
            b = b + 1;
        }
        out
    }
}

impl PerColumnView {
    /// The bytes of bank `b` in event `e`, where the bank is one stream; nothing where the
    /// stream is too short for them.
    pub open spec fn opaque_data(self, e: int, b: int) -> Option<Seq<u8>> {
        match self.stream(b, 0) {
            Some(s) => if self.offsets[b][e + 1] <= s.len() {
                Some(s.subrange(self.offsets[b][e] as int, self.offsets[b][e + 1] as int))
            } else {
                None
            },
            None => None,
        }
    }

    /// Rows of bank `b` before event `e`, for rows of `row_size` bytes.
    pub open spec fn rows_before(self, e: int, b: int, row_size: nat) -> nat {
        self.offsets[b][e] as nat / row_size
    }

    /// Rows of bank `b` in event `e`, for rows of `row_size` bytes.
    pub open spec fn rows_in(self, e: int, b: int, row_size: nat) -> nat {
        (self.size(e, b) / row_size as int) as nat
    }

    /// The cells of event `e` in column `c` of bank `b`; nothing where the stream is too short
    /// for them.
    pub open spec fn column_data(self, e: int, b: int, c: int, s: SchemaView) -> Option<Seq<u8>> {
        let w = s.entries[c].width();
        let from = self.rows_before(e, b, s.row_size as nat);
        let rows = self.rows_in(e, b, s.row_size as nat);
        match self.stream(b, c) {
            Some(x) => if (from + rows) * w <= x.len() {
                Some(x.subrange((from * w) as int, ((from + rows) * w) as int))
            } else {
                None
            },
            None => None,
        }
    }

    /// The cells of event `e` in column `c` of bank `b`. Cells that cannot be read are zeros.
    pub open spec fn column_cells(self, e: int, b: int, c: int, s: SchemaView) -> Seq<u8> {
        match self.column_data(e, b, c, s) {
            Some(d) => d,
            None => blank(self.rows_in(e, b, s.row_size as nat) * s.entries[c].width()),
        }
    }

    /// The cells of event `e` in the first `n` columns of bank `b`, column after column.
    pub open spec fn columns_data(self, e: int, b: int, s: SchemaView, n: nat) -> Seq<u8>
        decreases n,
    {
        if n == 0 {
            Seq::empty()
        } else {
            self.columns_data(e, b, s, (n - 1) as nat) + self.column_cells(e, b, n - 1, s)
        }
    }

    /// Event `e` has rows in bank `b`, and their cells in column `c` cannot be read.
    pub open spec fn is_lost(self, e: int, b: int, c: int, s: SchemaView) -> bool {
        self.rows_in(e, b, s.row_size as nat) > 0 && self.column_data(e, b, c, s) is None
    }

    /// Those of the first `n` columns of bank `b` whose cells in event `e` cannot be read.
    pub open spec fn lost(self, e: int, b: int, s: SchemaView, n: nat) -> Seq<usize>
        decreases n,
    {
        if n == 0 {
            Seq::empty()
        } else if self.is_lost(e, b, n - 1, s) {
            self.lost(e, b, s, (n - 1) as nat).push((n - 1) as usize)
        } else {
            self.lost(e, b, s, (n - 1) as nat)
        }
    }

    /// The bytes of bank `b` in event `e` under the schema `s`. Columns are put together, with
    /// zeros for the cells that cannot be read. A bank that is one stream is nothing where the
    /// stream cannot be read.
    pub open spec fn bank_data(self, e: int, b: int, s: SchemaView) -> Option<Seq<u8>> {
        if self.cols[b] == 0 {
            self.opaque_data(e, b)
        } else if s.row_size == 0 {
            Some(Seq::empty())
        } else if !bank_fits(s, self.size(e, b) as nat) {
            None
        } else {
            Some(self.columns_data(e, b, s, s.entries.len()))
        }
    }

    /// The columns of bank `b` that cannot be read in event `e` under the schema `s`.
    pub open spec fn lost_columns(self, e: int, b: int, s: SchemaView) -> Seq<usize> {
        if self.cols[b] == 0 || s.row_size == 0 {
            Seq::empty()
        } else {
            self.lost(e, b, s, s.entries.len())
        }
    }

    /// The rows that an event has in a bank leave room for every column.
    pub proof fn lemma_rows_room(self, e: int, b: int, s: SchemaView)
        requires
            self.wf(),
            0 <= e < self.events(),
            0 <= b < self.banks(),
            s.laid_out(),
            s.row_size > 0,
            bank_fits(s, self.size(e, b) as nat),
        ensures
            ({
                let rows = self.rows_in(e, b, s.row_size as nat);
                &&& 0 <= self.size(e, b) <= u32::MAX
                &&& rows <= u32::MAX
                &&& rows > 0 ==> widths(s.entries, s.entries.len()) == s.row_size
                &&& rows * s.row_size <= self.size(e, b)
                &&& forall|c: int|
                    0 <= c < s.entries.len() ==> rows * (#[trigger] s.entries[c]).width()
                        <= u32::MAX
            }),
    {
        assert(offsets_grow(self.offsets[b], self.events()));
        let size = self.size(e, b);
        let r = s.row_size as int;
        let rows = self.rows_in(e, b, s.row_size as nat);
        assert(0 <= size / r <= size && (size / r) * r <= size) by (nonlinear_arith)
            requires
                size >= 0,
                r > 0,
        ;
        let total = widths(s.entries, s.entries.len());
        if rows > 0 && total > u32::MAX {
            assert(false) by (nonlinear_arith)
                requires
                    rows > 0,
                    rows * r <= size,
                    r == u32::MAX,
                    size < u32::MAX,
            ;
        }
        assert forall|c: int| 0 <= c < s.entries.len() implies rows * (
        #[trigger] s.entries[c]).width() <= u32::MAX by {
            let w = s.entries[c].width();
            lemma_widths_monotone(s.entries, (c + 1) as nat, s.entries.len());
            assert(widths(s.entries, (c + 1) as nat) == widths(s.entries, c as nat) + w);
            if rows > 0 {
                assert(rows * w <= rows * r) by (nonlinear_arith)
                    requires
                        w <= r,
                        rows > 0,
                ;
            } else {
                assert(rows * w == 0) by (nonlinear_arith)
                    requires
                        rows == 0,
                ;
            }
        }
    }

    /// `e` is the error that decompressing column `c` of bank `b` ends with.
    pub open spec fn stream_error(self, b: int, c: int, e: HipoError) -> bool {
        if c >= streams_per_bank(self.cols[b]) {
            e == corrupt("Lz4PerColumn: column index out of range")
        } else {
            decompress_error(
                self.header.compression.spec_codec(),
                self.packed[self.base(b) + c],
                self.sizes[self.base(b) + c] as nat,
                e,
            )
        }
    }
}

} // verus!
