//! HIPO format constants. Stable for HIPO version 6: a change here changes the wire format.

use vstd::prelude::*;

verus! {

// --- Magic numbers ---
/// `HIPO` in little-endian order.
pub const HIPO_FILE_UNIQUE_WORD: u32 = 0x4F50_4948;

/// Marker of a little-endian header.
pub const HEADER_MAGIC: u32 = 0xc0da_0100;

/// Marker of a big-endian header.
pub const HEADER_MAGIC_BE: u32 = 0x0001_dac0;

// --- Header sizes ---
pub const FILE_HEADER_WORDS: usize = 14;

pub const RECORD_HEADER_WORDS: usize = 14;

pub const FILE_HEADER_SIZE: usize = 56;

pub const RECORD_HEADER_SIZE: usize = 56;

pub const EVENT_HEADER_SIZE: usize = 16;

pub const BANK_STRUCTURE_SIZE: usize = 8;

/// A header plus the first 24 bytes of its payload.
pub const RECORD_HEADER_PROBE_SIZE: usize = 80;

// --- File header field offsets (byte offsets) ---
pub const FH_UNIQUE_WORD: usize = 0;

pub const FH_FILE_NUMBER: usize = 4;

pub const FH_HEADER_LENGTH: usize = 8;

pub const FH_RECORD_COUNT: usize = 12;

pub const FH_INDEX_ARRAY_LEN: usize = 16;

pub const FH_BIT_INFO: usize = 20;

pub const FH_USER_HEADER_LEN: usize = 24;

pub const FH_MAGIC_NUMBER: usize = 28;

pub const FH_USER_REGISTER: usize = 32;

pub const FH_TRAILER_POS: usize = 40;

pub const FH_USER_INT1: usize = 48;

pub const FH_USER_INT2: usize = 52;

// --- Record header field offsets (byte offsets) ---
pub const RH_RECORD_LENGTH: usize = 0;

pub const RH_RECORD_NUMBER: usize = 4;

pub const RH_HEADER_LENGTH: usize = 8;

pub const RH_EVENT_COUNT: usize = 12;

pub const RH_INDEX_ARRAY_LEN: usize = 16;

pub const RH_BIT_INFO: usize = 20;

pub const RH_USER_HEADER_LEN: usize = 24;

pub const RH_MAGIC_NUMBER: usize = 28;

pub const RH_DATA_LENGTH: usize = 32;

pub const RH_COMP_WORD: usize = 36;

pub const RH_USER_WORD1: usize = 40;

pub const RH_USER_WORD2: usize = 48;

// --- Event header field offsets ---
pub const EH_MAGIC: usize = 0;

pub const EH_SIZE: usize = 4;

pub const EH_TAG: usize = 8;

pub const EH_RESERVED: usize = 12;

// --- Dictionary identifiers ---
pub const DICT_GROUP: u16 = 120;

pub const DICT_ITEM: u8 = 2;

pub const DICT_JSON_ITEM: u8 = 1;

/// Event-tag registry: an extra text bank in the dictionary record. Readers that do not know
/// the item skip it.
pub const TAG_REGISTRY_ITEM: u8 = 3;

pub const CONFIG_GROUP: u16 = 32555;

pub const CONFIG_KEY_ITEM: u8 = 1;

pub const CONFIG_STRING_ITEM: u8 = 2;

pub const FILE_INDEX_GROUP: u16 = 32111;

pub const FILE_INDEX_ITEM: u8 = 1;

// --- Bit-info word layout ---
pub const BITINFO_VERSION_MASK: u32 = 0x0000_00FF;

pub const BITINFO_VERSION_BITS: u32 = 8;

pub const BITINFO_HAS_DICTIONARY_BIT: u32 = 8;

pub const BITINFO_HAS_FIRST_EVENT_BIT: u32 = 9;

pub const BITINFO_TRAILER_WITH_INDEX_BIT: u32 = 10;

pub const BITINFO_PAD1_SHIFT: u32 = 20;

pub const BITINFO_PAD2_SHIFT: u32 = 22;

pub const BITINFO_PAD3_SHIFT: u32 = 24;

pub const BITINFO_PAD_MASK: u32 = 0x3;

pub const BITINFO_HEADER_TYPE_SHIFT: u32 = 28;

// --- Compression word layout ---
pub const COMP_TYPE_MASK: u32 = 0xF000_0000;

pub const COMP_TYPE_SHIFT: u32 = 28;

pub const COMP_TYPE_BYTE: u32 = 0x0000_000F;

pub const COMP_LENGTH_MASK: u32 = 0x0FFF_FFFF;

// --- Extension-format versions of the split layouts ---
//
// A contract shared with the other implementations of the format. The directory tables are
// append-only and readers detect an optional tail by length, so the numbers stay fixed.
/// The version byte written into every per-bank record.
pub const EXT_FORMAT_VERSION_BY_BANK: u8 = 2;

/// The version byte written into every per-column record.
pub const EXT_FORMAT_VERSION_PER_COLUMN: u8 = 1;

/// A second per-bank version byte that is read, never written.
pub const EXT_FORMAT_LEGACY_BY_BANK: u8 = 3;

/// A second per-column version byte that is read, never written.
pub const EXT_FORMAT_LEGACY_PER_COLUMN: u8 = 2;

// --- Structure word layout ---
pub const STRUCT_SIZE_MASK: u32 = 0x00FF_FFFF;

pub const STRUCT_FORMAT_MASK: u32 = 0xFF00_0000;

pub const STRUCT_FORMAT_SHIFT: u32 = 24;

pub const STRUCT_FORMAT_BYTE: u32 = 0x0000_00FF;

pub const HIPO_VERSION: u32 = 6;

/// What kind of header a bit-info word announces.
#[derive(Debug, Clone, Copy, PartialEq, Eq, Structural)]
pub enum HeaderType {
    EvioRecord,
    EvioFile,
    EvioExtFile,
    HipoRecord,
    HipoFile,
    HipoExtFile,
    HipoTrailer,
}

impl HeaderType {
    /// The number that stands for this kind in the top four bits of a bit-info word.
    pub open spec fn number(self) -> nat {
        match self {
            HeaderType::EvioRecord => 0,
            HeaderType::EvioFile => 1,
            HeaderType::EvioExtFile => 2,
            HeaderType::HipoRecord => 4,
            HeaderType::HipoFile => 5,
            HeaderType::HipoExtFile => 6,
            HeaderType::HipoTrailer => 7,
        }
    }

    pub fn from_bit_info(bit_info: u32) -> (r: Option<Self>)
        ensures
            match r {
                Some(t) => t.number() == bit_info / 0x1000_0000,
                None => forall|t: HeaderType|
                    #![trigger t.number()]
                    t.number() != bit_info / 0x1000_0000,
            },
    {
        let kind: u32 = bit_info / 0x1000_0000;
        match kind {
            0 => Some(HeaderType::EvioRecord),
            1 => Some(HeaderType::EvioFile),
            2 => Some(HeaderType::EvioExtFile),
            4 => Some(HeaderType::HipoRecord),
            5 => Some(HeaderType::HipoFile),
            6 => Some(HeaderType::HipoExtFile),
            7 => Some(HeaderType::HipoTrailer),
            _ => None,
        }
    }
}

/// What squeezes the bytes. Orthogonal to [`Layout`].
#[derive(Debug, Clone, Copy, PartialEq, Eq, Structural)]
pub enum Codec {
    Uncompressed,
    Lz4,
    /// LZ4 high-compression; identical to decode.
    Lz4Hc,
    Gzip,
    /// Zstandard. The level is a writer-side choice only.
    Zstd,
}

/// How the record's bytes are grouped before compression. Orthogonal to [`Codec`].
#[derive(Debug, Clone, Copy, PartialEq, Eq, Structural)]
pub enum Layout {
    /// One stream for the whole record.
    PerChunk,
    /// One stream per bank type, plus an event x bank presence directory.
    PerBank,
    /// One stream per `(bank, column)`, laid out cross-event contiguous.
    PerColumn,
}

/// The 4-bit record-header tag: one value per (codec, layout) pair.
#[derive(Debug, Clone, Copy, PartialEq, Eq, Structural)]
pub enum CompressionType {
    Uncompressed,
    Lz4,
    Lz4Best,
    Gzip,
    ZstdPerChunk,
    ZstdPerBank,
    Lz4PerBank,
    Lz4PerColumn,
    ZstdPerColumn,
    Lz4FastPerBank,
    Lz4FastPerColumn,
    GzipPerBank,
    GzipPerColumn,
    NonePerBank,
    NonePerColumn,
}

/// The pair with tag number `tag`; there are fifteen, numbered from zero.
pub open spec fn compression_of_tag(tag: int) -> Option<CompressionType> {
    if tag == 0 {
        Some(CompressionType::Uncompressed)
    } else if tag == 1 {
        Some(CompressionType::Lz4)
    } else if tag == 2 {
        Some(CompressionType::Lz4Best)
    } else if tag == 3 {
        Some(CompressionType::Gzip)
    } else if tag == 4 {
        Some(CompressionType::ZstdPerChunk)
    } else if tag == 5 {
        Some(CompressionType::ZstdPerBank)
    } else if tag == 6 {
        Some(CompressionType::Lz4PerBank)
    } else if tag == 7 {
        Some(CompressionType::Lz4PerColumn)
    } else if tag == 8 {
        Some(CompressionType::ZstdPerColumn)
    } else if tag == 9 {
        Some(CompressionType::Lz4FastPerBank)
    } else if tag == 10 {
        Some(CompressionType::Lz4FastPerColumn)
    } else if tag == 11 {
        Some(CompressionType::GzipPerBank)
    } else if tag == 12 {
        Some(CompressionType::GzipPerColumn)
    } else if tag == 13 {
        Some(CompressionType::NonePerBank)
    } else if tag == 14 {
        Some(CompressionType::NonePerColumn)
    } else {
        None
    }
}

impl CompressionType {
    /// The tag number of this pair.
    pub open spec fn number(self) -> nat {
        match self {
            CompressionType::Uncompressed => 0,
            CompressionType::Lz4 => 1,
            CompressionType::Lz4Best => 2,
            CompressionType::Gzip => 3,
            CompressionType::ZstdPerChunk => 4,
            CompressionType::ZstdPerBank => 5,
            CompressionType::Lz4PerBank => 6,
            CompressionType::Lz4PerColumn => 7,
            CompressionType::ZstdPerColumn => 8,
            CompressionType::Lz4FastPerBank => 9,
            CompressionType::Lz4FastPerColumn => 10,
            CompressionType::GzipPerBank => 11,
            CompressionType::GzipPerColumn => 12,
            CompressionType::NonePerBank => 13,
            CompressionType::NonePerColumn => 14,
        }
    }

    /// What squeezes the bytes of a record with this tag.
    pub open spec fn spec_codec(self) -> Codec {
        match self {
            CompressionType::Uncompressed => Codec::Uncompressed,
            CompressionType::NonePerBank => Codec::Uncompressed,
            CompressionType::NonePerColumn => Codec::Uncompressed,
            CompressionType::Lz4 => Codec::Lz4,
            CompressionType::Lz4FastPerBank => Codec::Lz4,
            CompressionType::Lz4FastPerColumn => Codec::Lz4,
            CompressionType::Lz4Best => Codec::Lz4Hc,
            CompressionType::Lz4PerBank => Codec::Lz4Hc,
            CompressionType::Lz4PerColumn => Codec::Lz4Hc,
            CompressionType::Gzip => Codec::Gzip,
            CompressionType::GzipPerBank => Codec::Gzip,
            CompressionType::GzipPerColumn => Codec::Gzip,
            CompressionType::ZstdPerChunk => Codec::Zstd,
            CompressionType::ZstdPerBank => Codec::Zstd,
            CompressionType::ZstdPerColumn => Codec::Zstd,
        }
    }

    /// How the bytes of a record with this tag are grouped.
    pub open spec fn spec_layout(self) -> Layout {
        match self {
            CompressionType::Uncompressed => Layout::PerChunk,
            CompressionType::Lz4 => Layout::PerChunk,
            CompressionType::Lz4Best => Layout::PerChunk,
            CompressionType::Gzip => Layout::PerChunk,
            CompressionType::ZstdPerChunk => Layout::PerChunk,
            CompressionType::NonePerBank => Layout::PerBank,
            CompressionType::Lz4FastPerBank => Layout::PerBank,
            CompressionType::Lz4PerBank => Layout::PerBank,
            CompressionType::GzipPerBank => Layout::PerBank,
            CompressionType::ZstdPerBank => Layout::PerBank,
            CompressionType::NonePerColumn => Layout::PerColumn,
            CompressionType::Lz4FastPerColumn => Layout::PerColumn,
            CompressionType::Lz4PerColumn => Layout::PerColumn,
            CompressionType::GzipPerColumn => Layout::PerColumn,
            CompressionType::ZstdPerColumn => Layout::PerColumn,
        }
    }

    /// The tag in the top four bits of a record header's compression word.
    pub fn from_word(comp_word: u32) -> (r: Option<Self>)
        ensures
            r == compression_of_tag(comp_word as int / 0x1000_0000),
    {
        let tag: u32 = comp_word / 0x1000_0000;
        Self::from_tag(tag as u8)
    }

    pub fn from_tag(tag: u8) -> (r: Option<Self>)
        ensures
            r == compression_of_tag(tag as int),
    {
        match tag {
            0 => Some(CompressionType::Uncompressed),
            1 => Some(CompressionType::Lz4),
            2 => Some(CompressionType::Lz4Best),
            3 => Some(CompressionType::Gzip),
            4 => Some(CompressionType::ZstdPerChunk),
            5 => Some(CompressionType::ZstdPerBank),
            6 => Some(CompressionType::Lz4PerBank),
            7 => Some(CompressionType::Lz4PerColumn),
            8 => Some(CompressionType::ZstdPerColumn),
            9 => Some(CompressionType::Lz4FastPerBank),
            10 => Some(CompressionType::Lz4FastPerColumn),
            11 => Some(CompressionType::GzipPerBank),
            12 => Some(CompressionType::GzipPerColumn),
            13 => Some(CompressionType::NonePerBank),
            14 => Some(CompressionType::NonePerColumn),
            _ => None,
        }
    }

    /// The tag number, as it is written into a compression word.
    pub fn tag(self) -> (r: u8)
        ensures
            r == self.number(),
    {
        match self {
            CompressionType::Uncompressed => 0,
            CompressionType::Lz4 => 1,
            CompressionType::Lz4Best => 2,
            CompressionType::Gzip => 3,
            CompressionType::ZstdPerChunk => 4,
            CompressionType::ZstdPerBank => 5,
            CompressionType::Lz4PerBank => 6,
            CompressionType::Lz4PerColumn => 7,
            CompressionType::ZstdPerColumn => 8,
            CompressionType::Lz4FastPerBank => 9,
            CompressionType::Lz4FastPerColumn => 10,
            CompressionType::GzipPerBank => 11,
            CompressionType::GzipPerColumn => 12,
            CompressionType::NonePerBank => 13,
            CompressionType::NonePerColumn => 14,
        }
    }

    /// The tag for a (codec, layout) pair. Every pair has one.
    pub fn for_pair(codec: Codec, layout: Layout) -> (r: Self)
        ensures
            r.spec_codec() == codec,
            r.spec_layout() == layout,
    {
        match (codec, layout) {
            (Codec::Uncompressed, Layout::PerChunk) => CompressionType::Uncompressed,
            (Codec::Lz4, Layout::PerChunk) => CompressionType::Lz4,
            (Codec::Lz4Hc, Layout::PerChunk) => CompressionType::Lz4Best,
            (Codec::Gzip, Layout::PerChunk) => CompressionType::Gzip,
            (Codec::Zstd, Layout::PerChunk) => CompressionType::ZstdPerChunk,
            (Codec::Uncompressed, Layout::PerBank) => CompressionType::NonePerBank,
            (Codec::Lz4, Layout::PerBank) => CompressionType::Lz4FastPerBank,
            (Codec::Lz4Hc, Layout::PerBank) => CompressionType::Lz4PerBank,
            (Codec::Gzip, Layout::PerBank) => CompressionType::GzipPerBank,
            (Codec::Zstd, Layout::PerBank) => CompressionType::ZstdPerBank,
            (Codec::Uncompressed, Layout::PerColumn) => CompressionType::NonePerColumn,
            (Codec::Lz4, Layout::PerColumn) => CompressionType::Lz4FastPerColumn,
            (Codec::Lz4Hc, Layout::PerColumn) => CompressionType::Lz4PerColumn,
            (Codec::Gzip, Layout::PerColumn) => CompressionType::GzipPerColumn,
            (Codec::Zstd, Layout::PerColumn) => CompressionType::ZstdPerColumn,
        }
    }

    /// The codec half of the pair: what `compress` and `decompress` dispatch on.
    pub fn codec(self) -> (r: Codec)
        ensures
            r == self.spec_codec(),
    {
        match self {
            CompressionType::Uncompressed | CompressionType::NonePerBank
            | CompressionType::NonePerColumn => Codec::Uncompressed,
            CompressionType::Lz4 | CompressionType::Lz4FastPerBank
            | CompressionType::Lz4FastPerColumn => Codec::Lz4,
            CompressionType::Lz4Best | CompressionType::Lz4PerBank
            | CompressionType::Lz4PerColumn => Codec::Lz4Hc,
            CompressionType::Gzip | CompressionType::GzipPerBank
            | CompressionType::GzipPerColumn => Codec::Gzip,
            CompressionType::ZstdPerChunk | CompressionType::ZstdPerBank
            | CompressionType::ZstdPerColumn => Codec::Zstd,
        }
    }

    /// The layout half of the pair.
    pub fn layout(self) -> (r: Layout)
        ensures
            r == self.spec_layout(),
    {
        match self {
            CompressionType::Uncompressed | CompressionType::Lz4 | CompressionType::Lz4Best
            | CompressionType::Gzip | CompressionType::ZstdPerChunk => Layout::PerChunk,
            CompressionType::NonePerBank | CompressionType::Lz4FastPerBank
            | CompressionType::Lz4PerBank | CompressionType::GzipPerBank
            | CompressionType::ZstdPerBank => Layout::PerBank,
            CompressionType::NonePerColumn | CompressionType::Lz4FastPerColumn
            | CompressionType::Lz4PerColumn | CompressionType::GzipPerColumn
            | CompressionType::ZstdPerColumn => Layout::PerColumn,
        }
    }

    /// True for every by-bank tag.
    pub fn is_by_bank(self) -> (r: bool)
        ensures
            r == (self.spec_layout() == Layout::PerBank),
    {
        matches!(self.layout(), Layout::PerBank)
    }

    /// True for every per-column tag.
    pub fn is_per_column(self) -> (r: bool)
        ensures
            r == (self.spec_layout() == Layout::PerColumn),
    {
        matches!(self.layout(), Layout::PerColumn)
    }
}

/// A pair is its codec and its layout: no two tags share both.
pub proof fn law_pair_determines_tag(a: CompressionType, b: CompressionType)
    requires
        a.spec_codec() == b.spec_codec(),
        a.spec_layout() == b.spec_layout(),
    ensures
        a == b,
{
}

/// The tag number of a pair leads back to the pair.
pub proof fn law_tag_round_trip(c: CompressionType)
    ensures
        compression_of_tag(c.number() as int) == Some(c),
        c.number() < 15,
{
}

/// Every number that stands for a pair is that pair's own tag number.
pub proof fn law_tag_numbers(tag: int)
    ensures
        match compression_of_tag(tag) {
            Some(c) => c.number() == tag,
            None => tag < 0 || tag > 14,
        },
{
}

} // verus!
