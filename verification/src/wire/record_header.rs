//! HIPO record header: the first 56 bytes of every record.

use vstd::prelude::*;
use crate::error::{HipoError, Result};
use crate::wire::bytes::{
    bytes_of_words, push_words, read_u32_le, read_word32, read_word64, Endianness,
};
#[allow(unused_imports)]
use crate::wire::bytes::{
    be32_at, lemma_u32_at_same, lemma_word_bytes_at, u32_at, word32, word64, word_bytes,
    words_to_bytes,
};
#[allow(unused_imports)]
use crate::wire::constants::{compression_of_tag, CompressionType, HEADER_MAGIC};

verus! {

/// Decoded record header. Lengths are byte counts, not word counts. The compression word is
/// split into the type and the compressed-data length.
#[derive(Debug, Clone, Copy)]
pub struct RecordHeader {
    /// Total record length in bytes (header + payload).
    pub record_length: u64,
    pub record_number: u32,
    /// Header length in bytes.
    pub header_length: u32,
    pub event_count: u32,
    /// Index array length in bytes (four per event).
    pub index_array_length: u32,
    pub bit_info: u32,
    pub user_header_length: u32,
    /// Decompressed data length (bytes) of the record payload.
    pub data_length: u32,
    /// Compressed data length in bytes.
    pub compressed_data_length: u32,
    pub compression: CompressionType,
    pub user_word_1: u64,
    pub user_word_2: u64,
    pub endianness: Endianness,
    pub user_header_padding: u8,
    pub data_padding: u8,
    pub compressed_data_padding: u8,
}

impl RecordHeader {
    /// The fields of the header at the front of `s`, read in the byte order `e`, for a
    /// compression word that stands for `c`.
    pub open spec fn fields(s: Seq<u8>, e: Endianness, c: CompressionType) -> RecordHeader {
        let bits = word32(s, 20, e);
        RecordHeader {
            record_length: (word32(s, 0, e) * 4) as u64,
            record_number: word32(s, 4, e),
            header_length: words_to_bytes(word32(s, 8, e)),
            event_count: word32(s, 12, e),
            index_array_length: word32(s, 16, e),
            bit_info: bits,
            user_header_length: word32(s, 24, e),
            data_length: word32(s, 32, e),
            compressed_data_length: words_to_bytes((word32(s, 36, e) % 0x1000_0000) as u32),
            compression: c,
            user_word_1: word64(s, 40, e),
            user_word_2: word64(s, 48, e),
            endianness: e,
            user_header_padding: (bits / 0x10_0000 % 4) as u8,
            data_padding: (bits / 0x40_0000 % 4) as u8,
            compressed_data_padding: (bits / 0x100_0000 % 4) as u8,
        }
    }

    /// What the bytes `s` say, or why they are no record header. The checks are made in order:
    /// length, byte-order magic, compression tag, header length against record length.
    pub open spec fn decoded(s: Seq<u8>) -> Result<RecordHeader> {
        if s.len() < 56 {
            Err(HipoError::FileTooSmall { actual: s.len() as u64, min: 56 })
        } else {
            match Endianness::of_magic(u32_at(s, 28)) {
                None => Err(
                    HipoError::BadMagic {
                        offset: 28,
                        found: u32_at(s, 28),
                        expected: HEADER_MAGIC,
                    },
                ),
                Some(e) => match compression_of_tag(word32(s, 36, e) as int / 0x1000_0000) {
                    None => Err(
                        HipoError::UnknownCompression((word32(s, 36, e) / 0x1000_0000) as u32),
                    ),
                    Some(c) => {
                        let h = RecordHeader::fields(s, e, c);
                        if h.header_length > h.record_length {
                            Err(
                                HipoError::CorruptRecord {
                                    offset: 0,
                                    reason: "record header_length exceeds record_length",
                                },
                            )
                        } else {
                            Ok(h)
                        }
                    },
                },
            }
        }
    }

    /// The compression word: the tag in the top four bits, then the length in words.
    pub open spec fn comp_word(self) -> u32 {
        (self.compression.number() * 0x1000_0000 + self.compressed_data_length / 4 % 0x1000_0000) as u32
    }

    /// The fourteen little-endian words of this header.
    pub open spec fn words(self) -> Seq<u32> {
        seq![
            (self.record_length / 4 % 0x1_0000_0000) as u32,
            self.record_number,
            (self.header_length / 4) as u32,
            self.event_count,
            self.index_array_length,
            self.bit_info,
            self.user_header_length,
            HEADER_MAGIC,
            self.data_length,
            self.comp_word(),
            (self.user_word_1 % 0x1_0000_0000) as u32,
            (self.user_word_1 / 0x1_0000_0000) as u32,
            (self.user_word_2 % 0x1_0000_0000) as u32,
            (self.user_word_2 / 0x1_0000_0000) as u32,
        ]
    }

    /// The 56 bytes of this header.
    pub open spec fn encoded(self) -> Seq<u8> {
        word_bytes(self.words())
    }

    /// A header that its 56 bytes can hold: lengths are whole words that fit their fields, and
    /// the paddings are those of the bit-info word.
    pub open spec fn writable(self) -> bool {
        &&& self.endianness == Endianness::Little
        &&& self.record_length % 4 == 0
        &&& self.record_length <= 4 * u32::MAX
        &&& self.header_length % 4 == 0
        &&& self.header_length <= self.record_length
        &&& self.compressed_data_length % 4 == 0
        &&& self.compressed_data_length < 4 * 0x1000_0000
        &&& self.user_header_padding == self.bit_info / 0x10_0000 % 4
        &&& self.data_padding == self.bit_info / 0x40_0000 % 4
        &&& self.compressed_data_padding == self.bit_info / 0x100_0000 % 4
    }

    /// Decompressed payload size: index array, user header, padding, data.
    pub open spec fn payload_size(self) -> nat {
        (self.index_array_length + self.user_header_length + self.user_header_padding
            + self.data_length) as nat
    }

    /// Where the data section starts within the decompressed payload.
    pub open spec fn data_start(self) -> nat {
        (self.index_array_length + self.user_header_length + self.user_header_padding) as nat
    }

    pub fn version(&self) -> (r: u32)
        ensures
            r == self.bit_info % 0x100,
    {
        self.bit_info % 0x100
    }

    /// Does this record carry the dictionary? Bit 8, as in a file header.
    pub fn has_dictionary(&self) -> (r: bool)
        ensures
            r == (self.bit_info / 0x100 % 2 == 1),
    {
        self.bit_info / 0x100 % 2 == 1
    }

    /// Does this record carry the first event that a file may pin? Bit 9.
    pub fn has_first_event(&self) -> (r: bool)
        ensures
            r == (self.bit_info / 0x200 % 2 == 1),
    {
        self.bit_info / 0x200 % 2 == 1
    }

    pub fn parse(buf: &[u8]) -> (r: Result<Self>)
        ensures
            r == RecordHeader::decoded(buf@),
    {
        if buf.len() < 56 {
            return Err(HipoError::FileTooSmall { actual: buf.len() as u64, min: 56 });
        }
        let magic: u32 = read_u32_le(buf, 28);
        let e = match Endianness::from_magic(magic) {
            Some(e) => e,
            None => {
                return Err(
                    HipoError::BadMagic { offset: 28, found: magic, expected: HEADER_MAGIC },
                );
            },
        };
        let comp_word: u32 = read_word32(buf, 36, e);
        let compression = match CompressionType::from_word(comp_word) {
            Some(c) => c,
            None => {
                return Err(HipoError::UnknownCompression(comp_word / 0x1000_0000));
            },
        };
        let bit_info: u32 = read_word32(buf, 20, e);
        let record_words: u32 = read_word32(buf, 0, e);
        let header = RecordHeader {
            record_length: record_words as u64 * 4,
            record_number: read_word32(buf, 4, e),
            header_length: bytes_of_words(read_word32(buf, 8, e)),
            event_count: read_word32(buf, 12, e),
            index_array_length: read_word32(buf, 16, e),
            bit_info,
            user_header_length: read_word32(buf, 24, e),
            data_length: read_word32(buf, 32, e),
            compressed_data_length: bytes_of_words(comp_word % 0x1000_0000),
            compression,
            user_word_1: read_word64(buf, 40, e),
            user_word_2: read_word64(buf, 48, e),
            endianness: e,
            user_header_padding: (bit_info / 0x10_0000 % 4) as u8,
            data_padding: (bit_info / 0x40_0000 % 4) as u8,
            compressed_data_padding: (bit_info / 0x100_0000 % 4) as u8,
        };
        // Both lengths come from the file: without this check `payload_bytes` could underflow.
        if header.header_length as u64 > header.record_length {
            return Err(
                HipoError::CorruptRecord {
                    offset: 0,
                    reason: "record header_length exceeds record_length",
                },
            );
        }
        Ok(header)
    }

    pub fn total_bytes(&self) -> (r: u64)
        ensures
            r == self.record_length,
    {
        self.record_length
    }

    pub fn payload_bytes(&self) -> (r: u64)
        requires
            self.header_length <= self.record_length,
        ensures
            r == self.record_length - self.header_length,
    {
        self.record_length - self.header_length as u64
    }

    /// Decompressed payload size: index array, user header, padding, data.
    pub fn decompressed_payload_size(&self) -> (r: usize)
        requires
            self.payload_size() <= usize::MAX,
        ensures
            r == self.payload_size(),
    {
        self.index_array_length as usize + self.user_header_length as usize
            + self.user_header_padding as usize + self.data_length as usize
    }

    /// The 56 bytes of this header, little-endian.
    pub fn to_bytes(&self) -> (out: Vec<u8>)
        ensures
            out@ == self.encoded(),
            out.len() == 56,
    {
        let tag: u8 = self.compression.tag();
        proof {
            crate::wire::constants::law_tag_round_trip(self.compression);
        }
        let comp_word: u32 = tag as u32 * 0x1000_0000 + self.compressed_data_length / 4
            % 0x1000_0000;
        let words: [u32; 14] = [
            (self.record_length / 4 % 0x1_0000_0000) as u32,
            self.record_number,
            self.header_length / 4,
            self.event_count,
            self.index_array_length,
            self.bit_info,
            self.user_header_length,
            HEADER_MAGIC,
            self.data_length,
            comp_word,
            (self.user_word_1 % 0x1_0000_0000) as u32,
            (self.user_word_1 / 0x1_0000_0000) as u32,
            (self.user_word_2 % 0x1_0000_0000) as u32,
            (self.user_word_2 / 0x1_0000_0000) as u32,
        ];
        let mut out: Vec<u8> = Vec::new();
        push_words(&mut out, words.as_slice());
        assert(words@ =~= self.words());
        assert(out@ =~= self.encoded());
        out
    }

    /// Write the header over the 56 bytes of `out`.
    pub fn write(&self, out: &mut [u8])
        requires
            old(out).len() == 56,
        ensures
            final(out)@ == self.encoded(),
    {
        let bytes = self.to_bytes();
        let mut i: usize = 0;
        while i < 56
            invariant
                i <= 56,
                out.len() == 56,
                bytes.len() == 56,
                forall|k: int| 0 <= k < i ==> out@[k] == bytes@[k],
            decreases 56 - i,
        {
            out[i] = bytes[i];
            i = i + 1;
        }
        assert(out@ =~= bytes@);
    }
}

/// What `write` writes, `parse` reads back, for every header that its bytes can hold, whatever
/// follows those bytes.
pub proof fn law_record_header_round_trip(h: RecordHeader, rest: Seq<u8>)
    requires
        h.writable(),
    ensures
        RecordHeader::decoded(h.encoded() + rest) == Ok::<RecordHeader, HipoError>(h),
{
    let w = h.words();
    let s = h.encoded() + rest;
    assert forall|k: int| 0 <= k < 14 implies u32_at(s, 4 * k) == #[trigger] w[k] by {
        lemma_word_bytes_at(w, k);
        crate::wire::bytes::lemma_u32_at_same(s, 4 * k, h.encoded(), 4 * k);
    }
    crate::wire::constants::law_tag_round_trip(h.compression);
    assert(w[0] == h.record_length / 4 && w[1] == h.record_number && w[2] == h.header_length / 4);
    assert(w[3] == h.event_count && w[4] == h.index_array_length && w[5] == h.bit_info);
    assert(w[6] == h.user_header_length && w[7] == HEADER_MAGIC && w[8] == h.data_length);
    assert(w[9] == h.comp_word());
    assert(w[9] / 0x1000_0000 == h.compression.number());
    assert(w[9] % 0x1000_0000 == h.compressed_data_length / 4);
    assert(w[10] == h.user_word_1 % 0x1_0000_0000 && w[11] == h.user_word_1 / 0x1_0000_0000);
    assert(w[12] == h.user_word_2 % 0x1_0000_0000 && w[13] == h.user_word_2 / 0x1_0000_0000);
}

/// A header is what the first 56 bytes say.
pub proof fn lemma_header_bytes(s: Seq<u8>, t: Seq<u8>)
    requires
        s.len() >= 56,
        t.len() >= 56,
        forall|i: int| 0 <= i < 56 ==> s[i] == t[i],
    ensures
        RecordHeader::decoded(s) == RecordHeader::decoded(t),
{
    assert forall|i: int| 0 <= i <= 52 implies #[trigger] u32_at(s, i) == u32_at(t, i) by {
        lemma_u32_at_same(s, i, t, i);
    }
    assert forall|i: int| 0 <= i <= 52 implies #[trigger] be32_at(s, i) == be32_at(t, i) by {
        reveal(be32_at);
    }
}

} // verus!
