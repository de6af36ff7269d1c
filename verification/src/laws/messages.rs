//! What errors say.

use vstd::prelude::*;
use crate::error::HipoError;
#[allow(unused_imports)]
use crate::text::{dec, hex, hex_fixed, quoted_text};

verus! {

/// The words of an error, with its numbers, names and reasons in their places; none where an I/O
/// error speaks.
pub open spec fn words(e: HipoError) -> Option<Seq<char>>
    decreases e,
{
    match e {
        HipoError::Io(_) => None,
        HipoError::FileTooSmall { actual, min } => Some(
            "file is too small: "@ + dec(actual as nat) + " bytes (need at least "@
                + dec(min as nat) + ")"@,
        ),
        HipoError::BadMagic { offset, found, expected } => Some(
            "invalid HIPO magic at offset 0x"@ + hex(offset as nat) + ": got 0x"@
                + hex_fixed(found as nat, 8) + ", expected 0x"@
                + hex_fixed(expected as nat, 8),
        ),
        HipoError::UnsupportedVersion { version } => Some(
            "unsupported HIPO version: "@ + dec(version as nat)
                + " (this build supports up to 6)"@,
        ),
        HipoError::UnknownCompression(tag) => Some(
            "unknown compression type: "@ + dec(tag as nat),
        ),
        HipoError::UnknownSchema { name } => Some(
            "schema "@ + quoted_text(name@) + " not found in dictionary"@,
        ),
        HipoError::UnknownColumn { schema, column } => Some(
            "schema "@ + quoted_text(schema@) + " has no column "@ + quoted_text(column@),
        ),
        HipoError::TypeMismatch { schema, column, expected, actual } => Some(
            "type mismatch in "@ + quoted_text(schema@) + "."@ + quoted_text(column@)
                + ": bank stores "@ + quoted_text(actual@) + ", asked for "@
                + quoted_text(expected@),
        ),
        HipoError::ColumnLengthMismatch { schema, column, expected, actual } => Some(
            "column length mismatch in "@ + quoted_text(schema@) + "."@
                + quoted_text(column@) + ": schema declares length "@ + dec(expected as nat)
                + ", got "@ + dec(actual as nat),
        ),
        HipoError::BankTooLarge { schema, size, max } => Some(
            "bank "@ + quoted_text(schema@) + " holds "@ + dec(size as nat)
                + " bytes of data, over the "@ + dec(max as nat)
                + "-byte limit a HIPO structure header can describe (24-bit size field); split it across events or banks"@,
        ),
        HipoError::CorruptRecord { offset, reason } => Some(
            "corrupt record at offset 0x"@ + hex(offset as nat) + ": "@ + reason@,
        ),
        HipoError::InvalidTagName { name, reason } => Some(
            "invalid tag name "@ + quoted_text(name@) + ": "@ + reason@,
        ),
        HipoError::EventIndexOutOfRange { index, total } => Some(
            "event index "@ + dec(index as nat) + " out of range: the chain has "@
                + dec(total as nat) + " events"@,
        ),
        HipoError::InPlaceTagUnsupported { offset, compression } => Some(
            "cannot update the event tag in place: the record at offset 0x"@
                + hex(offset as nat) + " is "@ + compression@
                + "-compressed, so the tag lives inside a compressed block — only uncompressed (`Compression::Uncompressed`) records can be patched in place; rewrite with `skim_tagged` instead"@,
        ),
        HipoError::FilterIgnoredByColumnSweep { bank, column } => Some(
            "`for_each_column("@ + quoted_text(bank@) + ", "@ + quoted_text(column@)
                + ")` cannot be used on a filtered chain: it sweeps whole column streams straight out of the record index, so it would hand back every value in the file rather than only the surviving events' — a plausible number over the wrong event set; use `Chain::read_columns` or `Chain::column_values`, which are also columnar and do honour the filter and the record-tag pushdown"@,
        ),
        HipoError::InvalidUsage { what } => Some("invalid usage: "@ + what@),
        HipoError::Compression(what) => Some("compression error: "@ + what@),
        HipoError::ThreadPool(what) => Some(
            "could not create the reader thread pool: "@ + what@,
        ),
        HipoError::Internal(what) => Some("internal error: "@ + what@),
        HipoError::DecompressUnderflow { produced, expected } => Some(
            "decompression underflow: produced "@ + dec(produced as nat)
                + " bytes, expected "@ + dec(expected as nat),
        ),
        HipoError::SchemaParse(what) => Some("schema parse error: "@ + what@),
        HipoError::InvalidGlob { pattern, reason } => Some(
            "invalid glob pattern "@ + quoted_text(pattern@) + ": "@ + reason@,
        ),
        HipoError::Path { path, source } => match words(*source) {
            Some(t) => Some("file "@ + quoted_text(path@) + ": "@ + t),
            None => None,
        },
        HipoError::AtOffset { offset, source } => match words(*source) {
            Some(t) => Some("record at offset 0x"@ + hex(offset as nat) + ": "@ + t),
            None => None,
        },
    }
}

proof fn lemma_words(e: HipoError)
    ensures
        e.text() == words(e),
    decreases e,
{
    match e {
        HipoError::Path { path, source } => {
            lemma_words(*source);
        },
        HipoError::AtOffset { offset, source } => {
            lemma_words(*source);
        },
        _ => {},
    }
}

/// An error says its words.
pub proof fn law_error_says(e: HipoError, m: String)
    requires
        call_ensures(HipoError::message, (&e,), m),
    ensures
        words(e) matches Some(t) ==> m@ == t,
{
    lemma_words(e);
}

/// The value of a hexadecimal digit.
pub open spec fn digit_worth(c: char) -> int {
    if '0' <= c <= '9' {
        c as int - '0' as int
    } else {
        10 + (c as int - 'a' as int)
    }
}

/// The number that hexadecimal digits stand for, the most significant first.
pub open spec fn hex_worth(s: Seq<char>) -> int
    decreases s.len(),
{
    if s.len() == 0 {
        0
    } else {
        hex_worth(s.drop_last()) * 16 + digit_worth(s.last())
    }
}

/// Hexadecimal digits are worth the number they were made of.
pub proof fn law_hexadecimal(n: nat)
    ensures
        hex_worth(hex(n)) == n,
        hex(n).len() > 0,
        forall|i: int|
            0 <= i < hex(n).len() ==> ('0' <= #[trigger] hex(n)[i] <= '9' || 'a' <= hex(n)[i]
                <= 'f'),
    decreases n,
{
    reveal_with_fuel(hex_worth, 3);
    if n >= 16 {
        law_hexadecimal(n / 16);
        assert(hex(n).drop_last() =~= hex(n / 16));
        assert forall|i: int| 0 <= i < hex(n).len() implies ('0' <= #[trigger] hex(n)[i] <= '9'
            || 'a' <= hex(n)[i] <= 'f') by {
            if i < hex(n).len() - 1 {
                assert(hex(n)[i] == hex(n / 16)[i]);
            }
        }
    } else {
        assert(hex(n).drop_last() =~= Seq::<char>::empty());
    }
}

/// A word is written with all its hexadecimal digits.
pub proof fn law_hexadecimal_word(n: nat, k: nat)
    ensures
        hex_fixed(n, k).len() == k,
        n < vstd::arithmetic::power::pow(16, k) ==> hex_worth(hex_fixed(n, k)) == n,
    decreases k,
{
    vstd::arithmetic::power::lemma_pow0(16);
    if k > 0 {
        let j = (k - 1) as nat;
        law_hexadecimal_word(n / 16, j);
        vstd::arithmetic::power::lemma_pow_adds(16, 1, j);
        vstd::arithmetic::power::lemma_pow1(16);
        assert(hex_fixed(n, k).drop_last() =~= hex_fixed(n / 16, j));
        let p = vstd::arithmetic::power::pow(16, j);
        if n < vstd::arithmetic::power::pow(16, k) {
            assert(n / 16 < p);
        }
    }
}

} // verus!
