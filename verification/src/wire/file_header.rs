//! HIPO file header: the first 56 bytes of every HIPO file.

use vstd::prelude::*;
use crate::error::{HipoError, Result};
use crate::wire::bytes::{
    bytes_of_words, push_words, read_u32_le, read_word32, read_word64, Endianness,
};
#[allow(unused_imports)]
use crate::wire::bytes::{lemma_word_bytes_at, u32_at, word32, word64, word_bytes, words_to_bytes};
use crate::wire::constants::{HEADER_MAGIC, HIPO_FILE_UNIQUE_WORD, HIPO_VERSION};

verus! {

/// Decoded file header. Lengths are byte counts, not word counts.
#[derive(Debug, Clone, Copy)]
pub struct FileHeader {
    pub file_number: u32,
    /// Total header length in bytes.
    pub header_length: u32,
    pub record_count: u32,
    /// Length of the index array in bytes.
    pub index_array_length: u32,
    pub bit_info: u32,
    pub user_header_length: u32,
    pub user_register: u64,
    pub trailer_position: u64,
    pub user_int1: u32,
    pub user_int2: u32,
    pub endianness: Endianness,
}

impl FileHeader {
    /// The fields of the header at the front of `s`, read in the byte order `e`.
    pub open spec fn fields(s: Seq<u8>, e: Endianness) -> FileHeader {
        FileHeader {
            file_number: word32(s, 4, e),
            header_length: words_to_bytes(word32(s, 8, e)),
            record_count: word32(s, 12, e),
            index_array_length: word32(s, 16, e),
            bit_info: word32(s, 20, e),
            user_header_length: word32(s, 24, e),
            user_register: word64(s, 32, e),
            trailer_position: word64(s, 40, e),
            user_int1: word32(s, 48, e),
            user_int2: word32(s, 52, e),
            endianness: e,
        }
    }

    /// What the bytes `s` say, or why they are no file header. The checks are made in order:
    /// length, file magic, byte-order magic, version.
    pub open spec fn decoded(s: Seq<u8>) -> Result<FileHeader> {
        if s.len() < 56 {
            Err(HipoError::FileTooSmall { actual: s.len() as u64, min: 56 })
        } else if u32_at(s, 0) != HIPO_FILE_UNIQUE_WORD {
            Err(
                HipoError::BadMagic {
                    offset: 0,
                    found: u32_at(s, 0),
                    expected: HIPO_FILE_UNIQUE_WORD,
                },
            )
        } else {
            match Endianness::of_magic(u32_at(s, 28)) {
                None => Err(
                    HipoError::BadMagic {
                        offset: 28,
                        found: u32_at(s, 28),
                        expected: HEADER_MAGIC,
                    },
                ),
                Some(e) => {
                    let h = FileHeader::fields(s, e);
                    if h.spec_version() == 0 || h.spec_version() > HIPO_VERSION {
                        Err(HipoError::UnsupportedVersion { version: h.spec_version() })
                    } else {
                        Ok(h)
                    }
                },
            }
        }
    }

    /// The fourteen little-endian words of this header.
    pub open spec fn words(self) -> Seq<u32> {
        seq![
            HIPO_FILE_UNIQUE_WORD,
            self.file_number,
            (self.header_length / 4) as u32,
            self.record_count,
            self.index_array_length,
            self.bit_info,
            self.user_header_length,
            HEADER_MAGIC,
            (self.user_register % 0x1_0000_0000) as u32,
            (self.user_register / 0x1_0000_0000) as u32,
            (self.trailer_position % 0x1_0000_0000) as u32,
            (self.trailer_position / 0x1_0000_0000) as u32,
            self.user_int1,
            self.user_int2,
        ]
    }

    /// The 56 bytes of this header.
    pub open spec fn encoded(self) -> Seq<u8> {
        word_bytes(self.words())
    }

    /// The low eight bits of the bit-info word.
    pub open spec fn spec_version(self) -> u32 {
        (self.bit_info % 0x100) as u32
    }

    pub fn version(&self) -> (r: u32)
        ensures
            r == self.spec_version(),
    {
        self.bit_info % 0x100
    }

    /// Bit 10 of the bit-info word.
    pub fn has_trailer_with_index(&self) -> (r: bool)
        ensures
            r == (self.bit_info / 0x400 % 2 == 1),
    {
        self.bit_info / 0x400 % 2 == 1
    }

    /// Bit 8 of the bit-info word.
    pub fn has_dictionary(&self) -> (r: bool)
        ensures
            r == (self.bit_info / 0x100 % 2 == 1),
    {
        self.bit_info / 0x100 % 2 == 1
    }

    pub fn parse(buf: &[u8]) -> (r: Result<Self>)
        ensures
            r == FileHeader::decoded(buf@),
    {
        if buf.len() < 56 {
            return Err(HipoError::FileTooSmall { actual: buf.len() as u64, min: 56 });
        }
        let unique: u32 = read_u32_le(buf, 0);
        if unique != HIPO_FILE_UNIQUE_WORD {
            return Err(
                HipoError::BadMagic { offset: 0, found: unique, expected: HIPO_FILE_UNIQUE_WORD },
            );
        }
        let magic: u32 = read_u32_le(buf, 28);
        let e = match Endianness::from_magic(magic) {
            Some(e) => e,
            None => {
                return Err(
                    HipoError::BadMagic { offset: 28, found: magic, expected: HEADER_MAGIC },
                );
            },
        };
        let header = FileHeader {
            file_number: read_word32(buf, 4, e),
            header_length: bytes_of_words(read_word32(buf, 8, e)),
            record_count: read_word32(buf, 12, e),
            index_array_length: read_word32(buf, 16, e),
            bit_info: read_word32(buf, 20, e),
            user_header_length: read_word32(buf, 24, e),
            user_register: read_word64(buf, 32, e),
            trailer_position: read_word64(buf, 40, e),
            user_int1: read_word32(buf, 48, e),
            user_int2: read_word32(buf, 52, e),
            endianness: e,
        };
        let v: u32 = header.version();
        if v == 0 || v > HIPO_VERSION {
            return Err(HipoError::UnsupportedVersion { version: v });
        }
        Ok(header)
    }

    /// The 56 bytes of this header, little-endian.
    pub fn to_bytes(&self) -> (out: Vec<u8>)
        ensures
            out@ == self.encoded(),
            out.len() == 56,
    {
        let words: [u32; 14] = [
            HIPO_FILE_UNIQUE_WORD,
            self.file_number,
            self.header_length / 4,
            self.record_count,
            self.index_array_length,
            self.bit_info,
            self.user_header_length,
            HEADER_MAGIC,
            (self.user_register % 0x1_0000_0000) as u32,
            (self.user_register / 0x1_0000_0000) as u32,
            (self.trailer_position % 0x1_0000_0000) as u32,
            (self.trailer_position / 0x1_0000_0000) as u32,
            self.user_int1,
            self.user_int2,
        ];
        let mut out: Vec<u8> = Vec::new();
        push_words(&mut out, words.as_slice());
        assert(words@ =~= self.words());
        assert(out@ =~= self.encoded());
        out
    }

    /// Write the header over the 56 bytes of `out`.
    pub fn write(&self, out: &mut [u8])
        requires
            old(out).len() == 56,
        ensures
            final(out)@ == self.encoded(),
    {
        let bytes = self.to_bytes();
        let mut i: usize = 0;
        while i < 56
            invariant
                i <= 56,
                out.len() == 56,
                bytes.len() == 56,
                forall|k: int| 0 <= k < i ==> out@[k] == bytes@[k],
            decreases 56 - i,
        {
            out[i] = bytes[i];
            i = i + 1;
        }
        assert(out@ =~= bytes@);
    }
}

/// What `write` writes, `parse` reads back, for every little-endian header whose length is a
/// whole number of words and whose version is one that `parse` accepts.
pub proof fn law_file_header_round_trip(h: FileHeader)
    requires
        h.header_length % 4 == 0,
        h.endianness == Endianness::Little,
        1 <= h.spec_version() <= HIPO_VERSION,
    ensures
        FileHeader::decoded(h.encoded()) == Ok::<FileHeader, HipoError>(h),
{
    let w = h.words();
    assert forall|k: int| 0 <= k < 14 implies u32_at(h.encoded(), 4 * k) == #[trigger] w[k] by {
        lemma_word_bytes_at(w, k);
    }
    assert(w[0] == HIPO_FILE_UNIQUE_WORD && w[1] == h.file_number && w[2] == h.header_length / 4);
    assert(w[3] == h.record_count && w[4] == h.index_array_length && w[5] == h.bit_info);
    assert(w[6] == h.user_header_length && w[7] == HEADER_MAGIC);
    assert(w[8] == h.user_register % 0x1_0000_0000 && w[9] == h.user_register / 0x1_0000_0000);
    assert(w[10] == h.trailer_position % 0x1_0000_0000);
    assert(w[11] == h.trailer_position / 0x1_0000_0000);
    assert(w[12] == h.user_int1 && w[13] == h.user_int2);
}

} // verus!
