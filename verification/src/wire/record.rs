//! Decoded single-block records.

use vstd::prelude::*;
use vstd::slice::slice_subrange;
use crate::compress::{decompress, ScratchBuf};
#[allow(unused_imports)]
use crate::compress::decompressed;
use crate::error::{HipoError, Result};
use crate::schema::dict::Dict;
#[allow(unused_imports)]
use crate::schema::dict::DictView;
#[allow(unused_imports)]
use crate::schema::types::cap32;
use crate::wire::bytes::Endianness;
use crate::wire::constants::{CompressionType, Layout};
use crate::wire::endian::normalize_be_payload;
#[allow(unused_imports)]
use crate::wire::endian::{dict_view, payload_swapped};
use crate::wire::record_header::RecordHeader;
#[allow(unused_imports)]
use crate::wire::split::{corrupt, ends_with, Outcome};
use crate::wire::tables::{cumulate, read_u32_table};
#[allow(unused_imports)]
use crate::wire::tables::{cumulative, law_cumulative_monotone, total, u32_table};

verus! {

/// What a decoded record says.
#[verifier::ext_equal]
pub struct RecordView {
    pub header: RecordHeader,
    /// The decompressed payload: index array, user header, padding, data.
    pub payload: Seq<u8>,
    /// Where each event starts within the data section, and where the last one ends.
    pub offsets: Seq<u32>,
}

impl RecordView {
    /// There is an offset for each event and one past the last; offsets never decrease, and
    /// the last event ends within the payload.
    pub open spec fn wf(self) -> bool {
        &&& self.offsets.len() == self.header.event_count + 1
        &&& forall|i: int, j: int|
            0 <= i <= j < self.offsets.len() ==> self.offsets[i] <= self.offsets[j]
        &&& self.header.data_start() + self.offsets.last() <= self.payload.len()
        &&& self.header.data_start() <= u32::MAX
    }

    /// The bytes of event `i`.
    pub open spec fn event(self, i: int) -> Seq<u8> {
        self.payload.subrange(
            self.header.data_start() + self.offsets[i],
            self.header.data_start() + self.offsets[i + 1],
        )
    }

    /// The user header.
    pub open spec fn user_header(self) -> Seq<u8> {
        self.payload.subrange(
            self.header.index_array_length as int,
            self.header.index_array_length + self.header.user_header_length,
        )
    }

    /// The events, in order.
    pub open spec fn events(self) -> Seq<Seq<u8>> {
        Seq::new(self.header.event_count as nat, |i: int| self.event(i))
    }
}

/// The compressed block of the record `src` with header `h`. Padding is part of an
/// uncompressed payload, and none of a compressed one.
pub open spec fn block_of(src: Seq<u8>, h: RecordHeader) -> Seq<u8> {
    let len = h.record_length - h.header_length;
    let kept = if h.compression == CompressionType::Uncompressed {
        len
    } else if len < h.compressed_data_padding {
        0
    } else {
        len - h.compressed_data_padding
    };
    src.subrange(h.header_length as int, h.header_length + kept)
}

/// The payload in little-endian byte order.
pub open spec fn little_payload(h: RecordHeader, b: Seq<u8>, dict: Option<DictView>) -> Seq<u8> {
    match h.endianness {
        Endianness::Little => b,
        Endianness::Big => payload_swapped(b, h, dict),
    }
}

/// What a decompressed payload in little-endian order says, or why it is no record's.
pub open spec fn indexed(h: RecordHeader, payload: Seq<u8>) -> Outcome<RecordView> {
    let n = h.event_count as nat;
    let sizes = u32_table(payload, 0, n);
    if payload.len() < 4 * n {
        Outcome::Fails(corrupt("index array shorter than event_count*4"))
    } else if h.data_start() > u32::MAX || h.data_start() + cap32(total(sizes)) > payload.len() {
        Outcome::Fails(corrupt("event offsets extend past record payload"))
    } else {
        Outcome::Done(RecordView { header: h, payload, offsets: cumulative(sizes) })
    }
}

/// What the bytes of a record with header `h` say, or how reading them fails.
pub open spec fn block_decoded(src: Seq<u8>, h: RecordHeader, dict: Option<DictView>) -> Outcome<
    RecordView,
> {
    if src.len() < h.record_length {
        Outcome::Fails(HipoError::FileTooSmall { actual: src.len() as u64, min: h.record_length })
    } else {
        match decompressed(h.compression.spec_codec(), block_of(src, h), h.payload_size()) {
            None => Outcome::Inflate(block_of(src, h), h.payload_size()),
            Some(b) => indexed(h, little_payload(h, b, dict)),
        }
    }
}

/// Every record that can be read is well-formed.
pub proof fn law_decoded_record_is_wf(src: Seq<u8>, h: RecordHeader, dict: Option<DictView>)
    ensures
        block_decoded(src, h, dict) matches Outcome::Done(v) ==> v.wf(),
{
    if let Outcome::Done(v) = block_decoded(src, h, dict) {
        law_cumulative_monotone(u32_table(v.payload, 0, h.event_count as nat));
    }
}

/// A header, and where the data section starts within the decompressed payload. Payload and
/// event offsets are the caller's.
#[derive(Debug)]
pub struct DecodedRecord {
    pub header: RecordHeader,
    pub data_start: u32,
}

/// Decompress the block of a record, put it in little-endian order, and find its events.
fn decode_block(
    src: &[u8],
    header: &RecordHeader,
    payload: &mut Vec<u8>,
    event_offsets: &mut Vec<u32>,
    dict: Option<&Dict>,
) -> (r: Result<u32>)
    requires
        header.header_length <= header.record_length,
    ensures
        match block_decoded(src@, *header, dict_view(dict)) {
            Outcome::Done(v) => r == Ok::<u32, HipoError>(header.data_start() as u32) && v == (
            RecordView {
                header: *header,
                payload: final(payload)@,
                offsets: final(event_offsets)@,
            }),
            o => r is Err && ends_with(o, *header, r->Err_0),
        },
{
    if (src.len() as u64) < header.total_bytes() {
        return Err(
            HipoError::FileTooSmall { actual: src.len() as u64, min: header.total_bytes() },
        );
    }
    let start: usize = header.header_length as usize;
    let len: usize = header.payload_bytes() as usize;
    let pad: usize = header.compressed_data_padding as usize;
    let kept: usize = if header.compression == CompressionType::Uncompressed {
        len
    } else if len < pad {
        0
    } else {
        len - pad
    };
    let block = slice_subrange(src, start, start + kept);
    let data_start: u64 = header.index_array_length as u64 + header.user_header_length as u64
        + header.user_header_padding as u64;
    let size: u64 = data_start + header.data_length as u64;
    if size > usize::MAX as u64 {
        return Err(
            HipoError::CorruptRecord {
                offset: 0,
                reason: "decompressed size implausibly large for compressed input",
            },
        );
    }
    decompress(header.compression, block, payload, size as usize)?;
    if header.endianness == Endianness::Big {
        normalize_be_payload(payload, header, dict);
    }
    // The count comes from the header: the index array must be there before it is read.
    let n: usize = header.event_count as usize;
    if n > payload.len() / 4 {
        return Err(
            HipoError::CorruptRecord {
                offset: 0,
                reason: "index array shorter than event_count*4",
            },
        );
    }
    let sizes = read_u32_table(payload.as_slice(), 0, n);
    let mut offsets = cumulate(sizes.as_slice());
    // Offsets never decrease, so one test covers every event.
    let end: u64 = data_start + offsets[n] as u64;
    if data_start > u32::MAX as u64 || end > payload.len() as u64 {
        return Err(
            HipoError::CorruptRecord {
                offset: 0,
                reason: "event offsets extend past record payload",
            },
        );
    }
    event_offsets.clear();
    event_offsets.append(&mut offsets);
    assert(event_offsets@ =~= cumulative(sizes@));
    Ok(data_start as u32)
}

/// What the bytes of a record say, or how reading them fails.
pub open spec fn record_decoded(src: Seq<u8>, dict: Option<DictView>) -> Outcome<RecordView> {
    match RecordHeader::decoded(src) {
        Err(e) => Outcome::Fails(e),
        Ok(h) => block_decoded(src, h, dict),
    }
}

/// `e` is the error that reading the record `src` ends with.
pub open spec fn record_error(src: Seq<u8>, dict: Option<DictView>, e: HipoError) -> bool {
    ends_with(record_decoded(src, dict), RecordHeader::decoded(src)->Ok_0, e)
}

/// Parse `src`, which begins with a record header, decompress its payload into `payload`, and
/// refill `event_offsets`. A big-endian payload is normalised with the dictionary `dict`.
pub fn decode_record_into(
    src: &[u8],
    payload: &mut Vec<u8>,
    event_offsets: &mut Vec<u32>,
    dict: Option<&Dict>,
) -> (r: Result<DecodedRecord>)
    ensures
        match record_decoded(src@, dict_view(dict)) {
            Outcome::Done(v) => r is Ok && r->Ok_0.header == v.header && r->Ok_0.data_start
                == v.header.data_start() && v.payload == final(payload)@ && v.offsets == final(
                event_offsets)@ && v.wf(),
            _ => r is Err && record_error(src@, dict_view(dict), r->Err_0),
        },
{
    let header = RecordHeader::parse(src)?;
    proof {
        law_decoded_record_is_wf(src@, header, dict_view(dict));
    }
    let data_start: u32 = decode_block(src, &header, payload, event_offsets, dict)?;
    Ok(DecodedRecord { header, data_start })
}

/// One decompressed record. Consecutive records reuse the same buffer, and events are slices
/// of it.
#[derive(Debug)]
pub struct Record {
    header: RecordHeader,
    payload: ScratchBuf,
    event_offsets: Vec<u32>,
}

impl View for Record {
    type V = RecordView;

    closed spec fn view(&self) -> RecordView {
        RecordView {
            header: self.header,
            payload: self.payload@,
            offsets: self.event_offsets@,
        }
    }
}

/// The header of a record without events.
pub open spec fn blank_header() -> RecordHeader {
    RecordHeader {
        record_length: 0,
        record_number: 0,
        header_length: 0,
        event_count: 0,
        index_array_length: 0,
        bit_info: 0,
        user_header_length: 0,
        data_length: 0,
        compressed_data_length: 0,
        compression: CompressionType::Uncompressed,
        user_word_1: 0,
        user_word_2: 0,
        endianness: Endianness::Little,
        user_header_padding: 0,
        data_padding: 0,
        compressed_data_padding: 0,
    }
}

/// The record without events.
pub open spec fn blank_record() -> RecordView {
    RecordView { header: blank_header(), payload: Seq::empty(), offsets: seq![0u32] }
}

impl Default for Record {
    fn default() -> (r: Self)
        ensures
            r@ == blank_record(),
    {
        Record::new()
    }
}

impl Record {
    /// Every record is well-formed.
    #[verifier::type_invariant]
    pub open spec fn inv(self) -> bool {
        self@.wf()
    }

    pub fn new() -> (r: Self)
        ensures
            r@ == blank_record(),
    {
        let header = RecordHeader {
            record_length: 0,
            record_number: 0,
            header_length: 0,
            event_count: 0,
            index_array_length: 0,
            bit_info: 0,
            user_header_length: 0,
            data_length: 0,
            compressed_data_length: 0,
            compression: CompressionType::Uncompressed,
            user_word_1: 0,
            user_word_2: 0,
            endianness: Endianness::Little,
            user_header_padding: 0,
            data_padding: 0,
            compressed_data_padding: 0,
        };
        let mut event_offsets: Vec<u32> = Vec::new();
        event_offsets.push(0);
        let r = Record { header, payload: ScratchBuf::new(), event_offsets };
        assert(r@ =~= blank_record());
        r
    }

    pub fn header(&self) -> (r: &RecordHeader)
        ensures
            *r == self@.header,
    {
        &self.header
    }

    pub fn event_count(&self) -> (r: u32)
        ensures
            r == self@.header.event_count,
    {
        self.header.event_count
    }

    /// Capacity of the decompression buffer: at least what it holds.
    pub fn payload_capacity(&self) -> (r: usize)
        ensures
            r >= self@.payload.len(),
    {
        self.payload.capacity()
    }

    /// Decode a record from its bytes, header first.
    pub fn load(&mut self, compressed_record: &[u8]) -> (r: Result<()>)
        ensures
            match RecordHeader::decoded(compressed_record@) {
                Err(e) => r == Err::<(), HipoError>(e) && final(self)@ == old(self)@,
                Ok(h) => loaded(compressed_record@, h, None, final(self)@, r),
            },
    {
        let header = RecordHeader::parse(compressed_record)?;
        self.load_with_header(compressed_record, header, None)
    }

    /// [`Self::load`] for a header that was already parsed, with the dictionary that a
    /// big-endian payload is normalised by. A record that cannot be read leaves this one empty.
    pub fn load_with_header(
        &mut self,
        compressed_record: &[u8],
        header: RecordHeader,
        dict: Option<&Dict>,
    ) -> (r: Result<()>)
        requires
            header.header_length <= header.record_length,
        ensures
            loaded(compressed_record@, header, dict_view(dict), final(self)@, r),
    {
        let mut work = Record::new();
        core::mem::swap(&mut work, self);
        let Record { header: _, mut payload, mut event_offsets } = work;
        if header.compression.layout() != Layout::PerChunk {
            return Err(
                HipoError::CorruptRecord {
                    offset: 0,
                    reason: "Record::load on by-bank record; use ByBankRecord::parse",
                },
            );
        }
        proof {
            law_decoded_record_is_wf(compressed_record@, header, dict_view(dict));
        }
        decode_block(
            compressed_record,
            &header,
            payload.vec_mut(),
            &mut event_offsets,
            dict,
        )?;
        *self = Record { header, payload, event_offsets };
        Ok(())
    }

    /// Where the data section starts.
    fn data_section_offset(&self) -> (r: usize)
        ensures
            r == self@.header.data_start(),
    {
        proof {
            use_type_invariant(self);
        }
        self.header.index_array_length as usize + self.header.user_header_length as usize
            + self.header.user_header_padding as usize
    }

    /// The bytes of event `i`: a slice of the record's buffer.
    pub fn event(&self, i: u32) -> (r: Option<&[u8]>)
        ensures
            match r {
                Some(e) => i < self@.header.event_count && e@ == self@.event(i as int),
                None => i >= self@.header.event_count,
            },
    {
        proof {
            use_type_invariant(self);
        }
        let k: usize = i as usize;
        if k >= self.event_offsets.len() - 1 {
            return None;
        }
        let bytes = self.payload.as_slice();
        let start: usize = self.data_section_offset();
        let lo: usize = self.event_offsets[k] as usize;
        let hi: usize = self.event_offsets[k + 1] as usize;
        assert(self@.offsets[k as int] <= self@.offsets[k + 1]);
        assert(self@.offsets[k + 1] <= self@.offsets[self@.offsets.len() - 1]);
        assert(start + hi <= bytes.len());
        Some(slice_subrange(bytes, start + lo, start + hi))
    }

    pub fn user_header(&self) -> (r: &[u8])
        ensures
            r@ == self@.user_header(),
    {
        proof {
            use_type_invariant(self);
        }
        let lo: usize = self.header.index_array_length as usize;
        let hi: usize = lo + self.header.user_header_length as usize;
        slice_subrange(self.payload.as_slice(), lo, hi)
    }

    /// A walk over the events, in order.
    pub fn iter(&self) -> (r: RecordIter<'_>)
        ensures
            r@ == (self@, 0nat),
    {
        RecordIter { record: self, next: 0 }
    }
}

/// How loading the record `src` with header `h` ends: with its view, or with an error and an
/// empty record.
pub open spec fn loaded(
    src: Seq<u8>,
    h: RecordHeader,
    dict: Option<DictView>,
    after: RecordView,
    r: Result<()>,
) -> bool {
    if h.compression.spec_layout() != Layout::PerChunk {
        r == Err::<(), HipoError>(
            corrupt("Record::load on by-bank record; use ByBankRecord::parse"),
        ) && after == blank_record()
    } else {
        match block_decoded(src, h, dict) {
            Outcome::Done(v) => r is Ok && after == v,
            o => r is Err && ends_with(o, h, r->Err_0) && after == blank_record(),
        }
    }
}

/// A walk over the events of a record.
#[derive(Debug)]
pub struct RecordIter<'a> {
    record: &'a Record,
    next: u32,
}

impl<'a> View for RecordIter<'a> {
    type V = (RecordView, nat);

    /// The record, and the event that comes next.
    closed spec fn view(&self) -> (RecordView, nat) {
        (self.record@, self.next as nat)
    }
}

impl<'a> RecordIter<'a> {
    /// The next event, if there is one.
    pub fn next(&mut self) -> (r: Option<&'a [u8]>)
        ensures
            match r {
                Some(e) => {
                    &&& old(self)@.1 < old(self)@.0.header.event_count
                    &&& e@ == old(self)@.0.event(old(self)@.1 as int)
                    &&& final(self)@ == (old(self)@.0, old(self)@.1 + 1)
                },
                None => old(self)@.1 >= old(self)@.0.header.event_count && final(self)@ == old(
                    self,
                )@,
            },
    {
        let ev = self.record.event(self.next)?;
        self.next = self.next + 1;
        Some(ev)
    }

    /// How many events are still to come.
    pub fn remaining(&self) -> (r: usize)
        ensures
            r == (if self@.1 <= self@.0.header.event_count {
                self@.0.header.event_count - self@.1
            } else {
                0
            }),
    {
        self.record.event_count().saturating_sub(self.next) as usize
    }
}

} // verus!
