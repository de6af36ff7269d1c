//! What errors say.

use vstd::prelude::*;
use crate::error::HipoError;
use crate::text::{
    hex_chars, hex_fixed_chars, push_dec, push_quoted, push_text, text_of,
};
#[allow(unused_imports)]
use crate::text::{dec, hex, hex_fixed, quoted_text};

verus! {

/// The display form of an I/O error. Nothing is said of it: it is the system's.
#[verifier::external_body]
fn io_text(e: &std::io::Error) -> String {
    format!("{}", e)
}

impl HipoError {
    /// What the error says; nothing where an I/O error speaks, whose words are the system's.
    pub open spec fn text(self) -> Option<Seq<char>>
        decreases self,
    {
        match self {
            HipoError::Io(_) => None,
            HipoError::FileTooSmall { actual, min } => Some(
                "file is too small: "@ + dec(actual as nat) + " bytes (need at least "@
                    + dec(min as nat) + ")"@,
            ),
            HipoError::BadMagic { offset, found, expected } => Some(
                "invalid HIPO magic at offset 0x"@ + hex(offset as nat) + ": got 0x"@
                    + hex_fixed(found as nat, 8) + ", expected 0x"@
                    + hex_fixed(expected as nat, 8),
            ),
            HipoError::UnsupportedVersion { version } => Some(
                "unsupported HIPO version: "@ + dec(version as nat)
                    + " (this build supports up to 6)"@,
            ),
            HipoError::UnknownCompression(tag) => Some(
                "unknown compression type: "@ + dec(tag as nat),
            ),
            HipoError::UnknownSchema { name } => Some(
                "schema "@ + quoted_text(name@) + " not found in dictionary"@,
            ),
            HipoError::UnknownColumn { schema, column } => Some(
                "schema "@ + quoted_text(schema@) + " has no column "@ + quoted_text(column@),
            ),
            HipoError::TypeMismatch { schema, column, expected, actual } => Some(
                "type mismatch in "@ + quoted_text(schema@) + "."@ + quoted_text(column@)
                    + ": bank stores "@ + quoted_text(actual@) + ", asked for "@
                    + quoted_text(expected@),
            ),
            HipoError::ColumnLengthMismatch { schema, column, expected, actual } => Some(
                "column length mismatch in "@ + quoted_text(schema@) + "."@
                    + quoted_text(column@) + ": schema declares length "@ + dec(expected as nat)
                    + ", got "@ + dec(actual as nat),
            ),
            HipoError::BankTooLarge { schema, size, max } => Some(
                "bank "@ + quoted_text(schema@) + " holds "@ + dec(size as nat)
                    + " bytes of data, over the "@ + dec(max as nat)
                    + "-byte limit a HIPO structure header can describe (24-bit size field); split it across events or banks"@,
            ),
            HipoError::CorruptRecord { offset, reason } => Some(
                "corrupt record at offset 0x"@ + hex(offset as nat) + ": "@ + reason@,
            ),
            HipoError::InvalidTagName { name, reason } => Some(
                "invalid tag name "@ + quoted_text(name@) + ": "@ + reason@,
            ),
            HipoError::EventIndexOutOfRange { index, total } => Some(
                "event index "@ + dec(index as nat) + " out of range: the chain has "@
                    + dec(total as nat) + " events"@,
            ),
            HipoError::InPlaceTagUnsupported { offset, compression } => Some(
                "cannot update the event tag in place: the record at offset 0x"@
                    + hex(offset as nat) + " is "@ + compression@
                    + "-compressed, so the tag lives inside a compressed block — only uncompressed (`Compression::Uncompressed`) records can be patched in place; rewrite with `skim_tagged` instead"@,
            ),
            HipoError::FilterIgnoredByColumnSweep { bank, column } => Some(
                "`for_each_column("@ + quoted_text(bank@) + ", "@ + quoted_text(column@)
                    + ")` cannot be used on a filtered chain: it sweeps whole column streams straight out of the record index, so it would hand back every value in the file rather than only the surviving events' — a plausible number over the wrong event set; use `Chain::read_columns` or `Chain::column_values`, which are also columnar and do honour the filter and the record-tag pushdown"@,
            ),
            HipoError::InvalidUsage { what } => Some("invalid usage: "@ + what@),
            HipoError::Compression(what) => Some("compression error: "@ + what@),
            HipoError::ThreadPool(what) => Some(
                "could not create the reader thread pool: "@ + what@,
            ),
            HipoError::Internal(what) => Some("internal error: "@ + what@),
            HipoError::DecompressUnderflow { produced, expected } => Some(
                "decompression underflow: produced "@ + dec(produced as nat)
                    + " bytes, expected "@ + dec(expected as nat),
            ),
            HipoError::SchemaParse(what) => Some("schema parse error: "@ + what@),
            HipoError::InvalidGlob { pattern, reason } => Some(
                "invalid glob pattern "@ + quoted_text(pattern@) + ": "@ + reason@,
            ),
            HipoError::Path { path, source } => match source.text() {
                Some(t) => Some("file "@ + quoted_text(path@) + ": "@ + t),
                None => None,
            },
            HipoError::AtOffset { offset, source } => match source.text() {
                Some(t) => Some("record at offset 0x"@ + hex(offset as nat) + ": "@ + t),
                None => None,
            },
        }
    }

    /// What the error says, for people.
    pub fn message(&self) -> (r: String)
        ensures
            self.text() matches Some(t) ==> r@ == t,
    {
        let mut out: Vec<char> = Vec::new();
        write_message(&mut out, self);
        assert(self.text() matches Some(t) ==> out@ =~= t);
        text_of(out.as_slice())
    }
}

/// Append hexadecimal digits.
fn push_hex(out: &mut Vec<char>, n: u64)
    ensures
        final(out)@ == old(out)@ + hex(n as nat),
{
    let mut d = hex_chars(n);
    out.append(&mut d);
}

/// Append the eight hexadecimal digits of a word.
fn push_word(out: &mut Vec<char>, n: u32)
    ensures
        final(out)@ == old(out)@ + hex_fixed(n as nat, 8),
{
    let mut d = hex_fixed_chars(n as u64, 8);
    out.append(&mut d);
}

/// Append what an error says.
fn write_message(out: &mut Vec<char>, e: &HipoError)
    ensures
        e.text() matches Some(t) ==> final(out)@ =~= old(out)@ + t,
    decreases e,
{
    match e {
        HipoError::Io(io) => {
            push_text(out, "io error: ");
            push_text(out, io_text(io).as_str());
        },
        HipoError::FileTooSmall { actual, min } => {
            push_text(out, "file is too small: ");
            push_dec(out, *actual as u64);
            push_text(out, " bytes (need at least ");
            push_dec(out, *min as u64);
            push_text(out, ")");
        },
        HipoError::BadMagic { offset, found, expected } => {
            push_text(out, "invalid HIPO magic at offset 0x");
            push_hex(out, *offset);
            push_text(out, ": got 0x");
            push_word(out, *found);
            push_text(out, ", expected 0x");
            push_word(out, *expected);
        },
        HipoError::UnsupportedVersion { version } => {
            push_text(out, "unsupported HIPO version: ");
            push_dec(out, *version as u64);
            push_text(out, " (this build supports up to 6)");
        },
        HipoError::UnknownCompression(tag) => {
            push_text(out, "unknown compression type: ");
            push_dec(out, *tag as u64);
        },
        HipoError::UnknownSchema { name } => {
            push_text(out, "schema ");
            push_quoted(out, name.as_str());
            push_text(out, " not found in dictionary");
        },
        HipoError::UnknownColumn { schema, column } => {
            push_text(out, "schema ");
            push_quoted(out, schema.as_str());
            push_text(out, " has no column ");
            push_quoted(out, column.as_str());
        },
        HipoError::TypeMismatch { schema, column, expected, actual } => {
            push_text(out, "type mismatch in ");
            push_quoted(out, schema.as_str());
            push_text(out, ".");
            push_quoted(out, column.as_str());
            push_text(out, ": bank stores ");
            push_quoted(out, actual);
            push_text(out, ", asked for ");
            push_quoted(out, expected);
        },
        HipoError::ColumnLengthMismatch { schema, column, expected, actual } => {
            push_text(out, "column length mismatch in ");
            push_quoted(out, schema.as_str());
            push_text(out, ".");
            push_quoted(out, column.as_str());
            push_text(out, ": schema declares length ");
            push_dec(out, *expected as u64);
            push_text(out, ", got ");
            push_dec(out, *actual as u64);
        },
        HipoError::BankTooLarge { schema, size, max } => {
            push_text(out, "bank ");
            push_quoted(out, schema.as_str());
            push_text(out, " holds ");
            push_dec(out, *size as u64);
            push_text(out, " bytes of data, over the ");
            push_dec(out, *max as u64);
            push_text(out, "-byte limit a HIPO structure header can describe (24-bit size field); split it across events or banks");
        },
        HipoError::CorruptRecord { offset, reason } => {
            push_text(out, "corrupt record at offset 0x");
            push_hex(out, *offset);
            push_text(out, ": ");
            push_text(out, reason);
        },
        HipoError::InvalidTagName { name, reason } => {
            push_text(out, "invalid tag name ");
            push_quoted(out, name.as_str());
            push_text(out, ": ");
            push_text(out, reason);
        },
        HipoError::EventIndexOutOfRange { index, total } => {
            push_text(out, "event index ");
            push_dec(out, *index as u64);
            push_text(out, " out of range: the chain has ");
            push_dec(out, *total as u64);
            push_text(out, " events");
        },
        HipoError::InPlaceTagUnsupported { offset, compression } => {
            push_text(out, "cannot update the event tag in place: the record at offset 0x");
            push_hex(out, *offset);
            push_text(out, " is ");
            push_text(out, compression);
            push_text(out, "-compressed, so the tag lives inside a compressed block — only uncompressed (`Compression::Uncompressed`) records can be patched in place; rewrite with `skim_tagged` instead");
        },
        HipoError::FilterIgnoredByColumnSweep { bank, column } => {
            push_text(out, "`for_each_column(");
            push_quoted(out, bank.as_str());
            push_text(out, ", ");
            push_quoted(out, column.as_str());
            push_text(out, ")` cannot be used on a filtered chain: it sweeps whole column streams straight out of the record index, so it would hand back every value in the file rather than only the surviving events' — a plausible number over the wrong event set; use `Chain::read_columns` or `Chain::column_values`, which are also columnar and do honour the filter and the record-tag pushdown");
        },
        HipoError::InvalidUsage { what } => {
            push_text(out, "invalid usage: ");
            push_text(out, what);
        },
        HipoError::Compression(what) => {
            push_text(out, "compression error: ");
            push_text(out, what);
        },
        HipoError::ThreadPool(what) => {
            push_text(out, "could not create the reader thread pool: ");
            push_text(out, what.as_str());
        },
        HipoError::Internal(what) => {
            push_text(out, "internal error: ");
            push_text(out, what);
        },
        HipoError::DecompressUnderflow { produced, expected } => {
            push_text(out, "decompression underflow: produced ");
            push_dec(out, *produced as u64);
            push_text(out, " bytes, expected ");
            push_dec(out, *expected as u64);
        },
        HipoError::SchemaParse(what) => {
            push_text(out, "schema parse error: ");
            push_text(out, what.as_str());
        },
        HipoError::InvalidGlob { pattern, reason } => {
            push_text(out, "invalid glob pattern ");
            push_quoted(out, pattern.as_str());
            push_text(out, ": ");
            push_text(out, reason.as_str());
        },
        HipoError::Path { path, source } => {
            push_text(out, "file ");
            push_quoted(out, path.as_str());
            push_text(out, ": ");
            write_message(out, source);
        },
        HipoError::AtOffset { offset, source } => {
            push_text(out, "record at offset 0x");
            push_hex(out, *offset);
            push_text(out, ": ");
            write_message(out, source);
        },
    }
}

} // verus!
