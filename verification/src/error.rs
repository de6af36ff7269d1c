//! The error model: one enum for the whole library.

use vstd::prelude::*;

verus! {

/// `std::io::Error`, carried through unopened.
#[verifier::external_type_specification]
#[verifier::external_body]
pub struct ExIoError(std::io::Error);

/// Everything that can go wrong while reading or writing a HIPO file.
#[non_exhaustive]
#[allow(inconsistent_fields)]
#[derive(Debug)]
pub enum HipoError {
    Io(std::io::Error),
    FileTooSmall { actual: u64, min: u64 },
    BadMagic { offset: u64, found: u32, expected: u32 },
    UnsupportedVersion { version: u32 },
    UnknownCompression(u32),
    UnknownSchema { name: String },
    UnknownColumn { schema: String, column: String },
    TypeMismatch {
        schema: String,
        column: String,
        expected: &'static str,
        actual: &'static str,
    },
    ColumnLengthMismatch { schema: String, column: String, expected: u32, actual: u32 },
    /// A bank's data exceeded what the 24-bit size field of a structure header can describe.
    BankTooLarge { schema: String, size: usize, max: usize },
    CorruptRecord { offset: u64, reason: &'static str },
    /// A tag name that the on-disk `name=bit` text form cannot round-trip.
    InvalidTagName { name: String, reason: &'static str },
    EventIndexOutOfRange { index: u64, total: u64 },
    InPlaceTagUnsupported { offset: u64, compression: &'static str },
    FilterIgnoredByColumnSweep { bank: String, column: String },
    InvalidUsage { what: &'static str },
    Compression(&'static str),
    ThreadPool(String),
    Internal(&'static str),
    DecompressUnderflow { produced: usize, expected: usize },
    SchemaParse(String),
    InvalidGlob { pattern: String, reason: String },
    Path { path: String, source: Box<HipoError> },
    /// A decode error located to the record it came from.
    AtOffset { offset: u64, source: Box<HipoError> },
}

pub type Result<T> = core::result::Result<T, HipoError>;

impl HipoError {
    /// Where `at_offset` puts the position of the record at `record_offset`.
    pub open spec fn rebased(self, record_offset: u64) -> HipoError {
        match self {
            HipoError::CorruptRecord { offset, reason } => if offset == 0 {
                HipoError::CorruptRecord { offset: record_offset, reason }
            } else {
                self
            },
            HipoError::BadMagic { offset, found, expected } => if offset < 56 {
                HipoError::BadMagic { offset: (record_offset + offset) as u64, found, expected }
            } else {
                HipoError::AtOffset { offset: record_offset, source: Box::new(self) }
            },
            HipoError::AtOffset { .. } => self,
            HipoError::Path { .. } => self,
            _ => HipoError::AtOffset { offset: record_offset, source: Box::new(self) },
        }
    }

    /// Attach a path to an existing error.
    pub fn with_path(self, path: String) -> (r: Self)
        ensures
            r == (HipoError::Path { path, source: Box::new(self) }),
    {
        HipoError::Path { path, source: Box::new(self) }
    }

    /// Rebase a decode error onto the record it came from.
    ///
    /// Only a zero offset of `CorruptRecord` is filled in: one that carries a real position is
    /// left alone. The offset of `BadMagic` is a
    /// position within a header, so it is moved by `record_offset`. An error that is already
    /// located is left alone, and any other is wrapped.
    pub fn at_offset(self, record_offset: u64) -> (r: Self)
        requires
            record_offset <= u64::MAX - 56,
        ensures
            r == self.rebased(record_offset),
    {
        match self {
            HipoError::CorruptRecord { offset, reason } => if offset == 0 {
                HipoError::CorruptRecord { offset: record_offset, reason }
            } else {
                HipoError::CorruptRecord { offset, reason }
            },
            HipoError::BadMagic { offset, found, expected } => if offset < 56 {
                HipoError::BadMagic { offset: record_offset + offset, found, expected }
            } else {
                HipoError::AtOffset {
                    offset: record_offset,
                    source: Box::new(HipoError::BadMagic { offset, found, expected }),
                }
            },
            HipoError::AtOffset { offset, source } => HipoError::AtOffset { offset, source },
            HipoError::Path { path, source } => HipoError::Path { path, source },
            other => HipoError::AtOffset { offset: record_offset, source: Box::new(other) },
        }
    }
}

/// An error keeps the first position it was given. Only a header-relative position that was
/// moved may be moved or wrapped once more, and a zero that was filled in with zero is filled in
/// again.
pub proof fn law_rebase_is_idempotent(e: HipoError, first: u64, second: u64)
    requires
        first <= u64::MAX - 56,
        !(e matches HipoError::CorruptRecord { offset, .. } && offset == 0 && first == 0),
        !(e matches HipoError::BadMagic { offset, .. } && offset < 56),
    ensures
        e.rebased(first).rebased(second) == e.rebased(first),
{
}

} // verus!
