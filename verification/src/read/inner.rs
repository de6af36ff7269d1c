//! `FileInner`: one open file. Its header, dictionary and record index are read when it is
//! opened; records are read when they are asked for.

use std::sync::Arc;

use vstd::prelude::*;
use crate::error::{HipoError, Result};
use crate::event::event::Event;
#[allow(unused_imports)]
use crate::event::event::{event_structures, found};
use crate::read::dictionary::Dictionary;
#[allow(unused_imports)]
use crate::read::dictionary::{config_views, DictionaryView};
use crate::read::source::ReadAt;
use crate::schema::dict::Dict;
use crate::tag::TagRegistry;
use crate::wire::bytes::{push_zeros, read_u32_le, read_u64_le, Endianness};
#[allow(unused_imports)]
use crate::wire::bytes::{u32_at, u64_at};
use crate::wire::constants::{FILE_INDEX_GROUP, FILE_INDEX_ITEM, HEADER_MAGIC};
#[allow(unused_imports)]
use crate::wire::constants::Layout;
use crate::wire::event_index::FileEventIndex;
#[allow(unused_imports)]
use crate::wire::event_index::{with_span, RecordSpan};
use crate::wire::file_header::FileHeader;
use crate::wire::record::Record;
#[allow(unused_imports)]
use crate::wire::record::{block_decoded, RecordView};
use crate::wire::record_header::RecordHeader;
#[allow(unused_imports)]
use crate::wire::split::Outcome;

verus! {

/// The header of the record at byte `off` of the file `f`.
pub open spec fn header_in(f: Seq<u8>, off: int) -> Result<RecordHeader> {
    if off + 56 > f.len() {
        Err(
            HipoError::CorruptRecord { offset: off as u64, reason: "record header past EOF" },
        )
    } else {
        RecordHeader::decoded(f.subrange(off, off + 56))
    }
}

/// The header and the bytes of the record at byte `off` of the file `f`.
pub open spec fn record_in(f: Seq<u8>, off: int) -> Result<(RecordHeader, Seq<u8>)> {
    match header_in(f, off) {
        Err(e) => Err(e),
        Ok(h) => if off + h.record_length > f.len() {
            Err(
                HipoError::CorruptRecord { offset: off as u64, reason: "record extends past EOF" },
            )
        } else if h.record_length > usize::MAX {
            Err(HipoError::Internal("record larger than the address space"))
        } else {
            Ok((h, f.subrange(off, off + h.record_length)))
        },
    }
}

/// The decoded single-block record at byte `off` of the file `f`; nothing where it cannot be
/// read.
pub open spec fn block_in(f: Seq<u8>, off: int) -> Option<RecordView> {
    match record_in(f, off) {
        Err(_) => None,
        Ok((_, b)) => match RecordHeader::decoded(b) {
            Err(_) => None,
            Ok(h) => if h.compression.spec_layout() != Layout::PerChunk {
                None
            } else {
                match block_decoded(b, h, None) {
                    Outcome::Done(v) => Some(v),
                    _ => None,
                }
            },
        },
    }
}

/// What the dictionary record at byte `off` of the file `f` says. One that cannot be read says
/// nothing.
pub open spec fn dictionary_in(f: Seq<u8>, off: int) -> DictionaryView {
    match block_in(f, off) {
        Some(v) => DictionaryView::of(v.events(), v.header.event_count as nat),
        None => DictionaryView::none(),
    }
}

/// The data of the index bank in the record at byte `off` of the file `f`.
pub open spec fn index_bank_in(f: Seq<u8>, off: int) -> Option<Seq<u8>> {
    match block_in(f, off) {
        Some(v) => if v.header.event_count == 0 {
            None
        } else {
            match found(event_structures(v.event(0)), FILE_INDEX_GROUP, FILE_INDEX_ITEM) {
                Some(st) => Some(st.data),
                None => None,
            }
        },
        None => None,
    }
}

/// The spans that the rows of an index bank from row `k` on list, behind `spans`. Rows are
/// stored column by column: position, length, entries, and two user words. The dictionary and
/// the trailer itself are left out. Nothing where a row is out of the file.
pub open spec fn rows_indexed(
    bank: Seq<u8>,
    file_len: nat,
    first_data: int,
    trailer: int,
    k: nat,
    spans: Seq<RecordSpan>,
) -> Option<Seq<RecordSpan>>
    decreases bank.len() / 32 - k,
{
    let n = bank.len() / 32;
    if k >= n {
        Some(spans)
    } else {
        let pos = u64_at(bank, 8 * k as int);
        let len = u32_at(bank, 8 * n + 4 * k as int);
        let entries = u32_at(bank, 12 * n + 4 * k as int);
        if pos > i64::MAX || len > i32::MAX || entries > i32::MAX {
            None
        } else if pos < first_data || pos == trailer {
            rows_indexed(bank, file_len, first_data, trailer, k + 1, spans)
        } else if pos + len > file_len {
            None
        } else {
            rows_indexed(
                bank,
                file_len,
                first_data,
                trailer,
                k + 1,
                with_span(spans, pos, len as u64, entries),
            )
        }
    }
}

/// The spans that the trailer at byte `trailer` of the file `f` lists; nothing where there is no
/// sound index.
pub open spec fn trailer_indexed(f: Seq<u8>, first_data: int, trailer: int) -> Option<
    Seq<RecordSpan>,
> {
    match index_bank_in(f, trailer) {
        Some(bank) => if bank.len() % 32 != 0 {
            None
        } else {
            rows_indexed(bank, f.len(), first_data, trailer, 0, Seq::empty())
        },
        None => None,
    }
}

/// A record header stands at byte `off` of the file `f`, and its record lies within the file.
pub open spec fn record_fits(f: Seq<u8>, off: int) -> bool {
    header_in(f, off) matches Ok(h) && h.record_length >= 56 && off + h.record_length <= f.len()
}

/// The first place from byte `off` on, in steps of four bytes, where a record fits.
pub open spec fn first_record(f: Seq<u8>, off: int) -> Option<int>
    decreases f.len() - off,
{
    if off + 56 > f.len() {
        None
    } else if record_fits(f, off) {
        Some(off)
    } else {
        first_record(f, off + 4)
    }
}

/// A record is found no earlier than where the search starts.
pub proof fn lemma_first_record(f: Seq<u8>, off: int)
    ensures
        first_record(f, off) matches Some(at) ==> at >= off && record_fits(f, at),
    decreases f.len() - off,
{
    if off + 56 <= f.len() && !record_fits(f, off) {
        lemma_first_record(f, off + 4);
    }
}

/// The spans of the records from byte `off` of the file `f` on, behind `spans`, found by
/// walking from record to record.
///
/// Records without events and the trailer are left out. A header that cannot be read, or that
/// counts more events than its index array can hold, is an error; where damage is to be worked
/// around (`salvage`), the walk goes on at the next record, and stops at one that the file does
/// not hold whole.
pub open spec fn scanned(
    f: Seq<u8>,
    off: int,
    trailer: int,
    salvage: bool,
    spans: Seq<RecordSpan>,
) -> Result<Seq<RecordSpan>>
    decreases
        (if off <= f.len() {
            f.len() - off
        } else {
            0
        }),
{
    if off + 56 > f.len() {
        Ok(spans)
    } else {
        match header_in(f, off) {
            Err(e) => if !salvage {
                Err(e)
            } else {
                match first_record(f, off + 4) {
                    Some(next) => if off < next <= f.len() {
                        scanned(f, next, trailer, salvage, spans)
                    } else {
                        Ok(spans)
                    },
                    None => Ok(spans),
                }
            },
            Ok(h) => {
                let len = h.record_length;
                let more = if h.event_count > 0 && off != trailer {
                    with_span(spans, off as u64, len, h.event_count)
                } else {
                    spans
                };
                if len == 0 || (salvage && off + len > f.len()) {
                    Ok(spans)
                } else if h.event_count * 4 > h.index_array_length {
                    if !salvage {
                        Err(
                            HipoError::CorruptRecord {
                                offset: off as u64,
                                reason: "record event_count exceeds what its index array can hold",
                            },
                        )
                    } else {
                        scanned(f, off + len, trailer, salvage, spans)
                    }
                } else if off + len > u64::MAX {
                    Err(
                        HipoError::CorruptRecord {
                            offset: off as u64,
                            reason: "record length overflows file offset",
                        },
                    )
                } else {
                    scanned(f, off + len, trailer, salvage, more)
                }
            },
        }
    }
}

/// What opening a file finds.
#[verifier::ext_equal]
pub struct FileInfo {
    pub header: FileHeader,
    pub dictionary: DictionaryView,
    /// The data records: neither the dictionary nor the trailer.
    pub spans: Seq<RecordSpan>,
}

/// What the file `f` says, or why it is none. Where the trailer has no sound index, the records
/// are found by walking.
pub open spec fn file_opened(f: Seq<u8>) -> Result<FileInfo> {
    if f.len() < 56 {
        Err(HipoError::FileTooSmall { actual: f.len() as u64, min: 56 })
    } else {
        match FileHeader::decoded(f.subrange(0, 56)) {
            Err(e) => Err(e),
            Ok(header) => {
                let first_data = header.header_length + header.user_header_length;
                let trailer = header.trailer_position as int;
                let dictionary = dictionary_in(f, header.header_length as int);
                let listed = if trailer != 0 {
                    trailer_indexed(f, first_data, trailer)
                } else {
                    None
                };
                match listed {
                    Some(spans) => Ok(FileInfo { header, dictionary, spans }),
                    None => match scanned(f, first_data, trailer, false, Seq::empty()) {
                        Ok(spans) => Ok(FileInfo { header, dictionary, spans }),
                        Err(e) => Err(e),
                    },
                }
            },
        }
    }
}

/// What opening the file `f` may find where reads fail: the header, the dictionary or none, and
/// the records that the trailer lists or that walking finds.
pub open spec fn opened_as(f: Seq<u8>, info: FileInfo) -> bool {
    let first_data = info.header.header_length + info.header.user_header_length;
    let trailer = info.header.trailer_position as int;
    let dictionary = dictionary_in(f, info.header.header_length as int);
    &&& f.len() >= 56
    &&& FileHeader::decoded(f.subrange(0, 56)) == Ok::<FileHeader, HipoError>(info.header)
    &&& info.dictionary == dictionary || info.dictionary == DictionaryView::none()
    &&& (trailer != 0 && trailer_indexed(f, first_data, trailer) == Some(info.spans)) || scanned(
        f,
        first_data,
        trailer,
        false,
        Seq::empty(),
    ) == Ok::<Seq<RecordSpan>, HipoError>(info.spans)
}

/// Where the search for records starts in a damaged file: behind its header, if that can be
/// read.
pub open spec fn salvage_start(f: Seq<u8>) -> int {
    if f.len() < 56 {
        0
    } else {
        match FileHeader::decoded(f.subrange(0, 56)) {
            Ok(h) => if h.header_length > 56 {
                h.header_length as int
            } else {
                56
            },
            Err(_) => 0,
        }
    }
}

/// Without the last span, where that record holds the file's index.
pub open spec fn without_trailer(f: Seq<u8>, spans: Seq<RecordSpan>) -> Seq<RecordSpan> {
    if spans.len() > 0 && index_bank_in(f, spans.last().file_offset as int) is Some {
        spans.drop_last()
    } else {
        spans
    }
}

/// What can be found in the file `f` without trusting its header.
pub open spec fn file_salvaged(f: Seq<u8>) -> Result<FileInfo> {
    match first_record(f, salvage_start(f)) {
        None => Err(HipoError::BadMagic { offset: 0, found: 0, expected: HEADER_MAGIC }),
        Some(first) => {
            let dictionary = dictionary_in(f, first);
            let first_data = if dictionary.dict.schemas.len() == 0 {
                first
            } else {
                first + header_in(f, first)->Ok_0.record_length
            };
            match scanned(f, first_data, 0, true, Seq::empty()) {
                Err(e) => Err(e),
                Ok(found) => {
                    let spans = without_trailer(f, found);
                    Ok(
                        FileInfo {
                            header: FileHeader {
                                file_number: 1,
                                header_length: 56,
                                record_count: spans.len() as u32,
                                index_array_length: 0,
                                bit_info: 0x5000_0006,
                                user_header_length: (first_data - first) as u32,
                                user_register: 0,
                                trailer_position: 0,
                                user_int1: 0,
                                user_int2: 0,
                                endianness: Endianness::Little,
                            },
                            dictionary,
                            spans,
                        },
                    )
                },
            }
        },
    }
}

/// The first `len` bytes of a source, or all of them where it has no more.
pub open spec fn file_of<S: ReadAt>(source: &S, len: u64) -> Seq<u8> {
    if len <= source.bytes().len() {
        source.bytes().subrange(0, len as int)
    } else {
        source.bytes()
    }
}

/// The source holds `len` bytes, and no read of them fails.
pub open spec fn intact<S: ReadAt>(source: &S, len: u64) -> bool {
    source.reliable() && len <= source.bytes().len()
}

/// Read `n` bytes from `offset` on.
fn read_at<S: ReadAt>(source: &S, offset: u64, n: usize) -> (r: Result<Vec<u8>>)
    ensures
        r is Ok ==> offset + n <= source.bytes().len() && r->Ok_0@ == source.bytes().subrange(
            offset as int,
            offset + n,
        ),
        source.reliable() && offset + n <= source.bytes().len() ==> r is Ok,
{
    let mut buf: Vec<u8> = Vec::new();
    push_zeros(&mut buf, n);
    assert(buf.len() == n);
    match source.read_exact_at(buf.as_mut_slice(), offset) {
        Ok(_) => Ok(buf),
        Err(e) => Err(e),
    }
}

/// Read the header of the record at `offset`.
fn read_header<S: ReadAt>(source: &S, len: u64, offset: u64) -> (r: Result<RecordHeader>)
    ensures
        intact(source, len) || r is Ok ==> r == header_in(file_of(source, len), offset as int),
        r is Ok ==> r->Ok_0.header_length <= r->Ok_0.record_length && offset + 56 <= len,
        r is Ok ==> r->Ok_0.record_length <= 4 * u32::MAX,
{
    if len < 56 || offset > len - 56 {
        return Err(
            HipoError::CorruptRecord { offset, reason: "record header past EOF" },
        );
    }
    let hdr = read_at(source, offset, 56)?;
    assert(hdr@ =~= file_of(source, len).subrange(offset as int, offset + 56));
    RecordHeader::parse(hdr.as_slice())
}

/// Read the record at `offset`: its header, and all of its bytes.
fn read_record<S: ReadAt>(source: &S, len: u64, offset: u64) -> (r: Result<
    (RecordHeader, Vec<u8>),
>)
    ensures
        intact(source, len) || r is Ok ==> match record_in(file_of(source, len), offset as int) {
            Ok((h, b)) => r is Ok && r->Ok_0.0 == h && r->Ok_0.1@ == b,
            Err(e) => r == Err::<(RecordHeader, Vec<u8>), HipoError>(e),
        },
        r matches Ok(p) ==> p.0.header_length <= p.0.record_length && p.1.len()
            == p.0.record_length,
{
    let header = read_header(source, len, offset)?;
    let total: u64 = header.total_bytes();
    if total > len - offset {
        return Err(
            HipoError::CorruptRecord { offset, reason: "record extends past EOF" },
        );
    }
    if total > usize::MAX as u64 {
        return Err(HipoError::Internal("record larger than the address space"));
    }
    let buf = read_at(source, offset, total as usize)?;
    assert(buf@ =~= file_of(source, len).subrange(offset as int, offset + total));
    Ok((header, buf))
}

/// Decode the single-block record at `offset`.
fn load_block<S: ReadAt>(source: &S, len: u64, offset: u64) -> (r: Option<Record>)
    ensures
        intact(source, len) || r is Some ==> match r {
            Some(v) => block_in(file_of(source, len), offset as int) == Some(v@),
            None => block_in(file_of(source, len), offset as int) is None,
        },
{
    match read_record(source, len, offset) {
        Ok((_, buf)) => {
            let mut record = Record::new();
            match record.load(buf.as_slice()) {
                Ok(_) => Some(record),
                Err(_) => None,
            }
        },
        Err(_) => None,
    }
}

/// Read the dictionary record at `offset`. One that cannot be read has no entries.
fn parse_dictionary<S: ReadAt>(source: &S, len: u64, offset: u64) -> (r: Dictionary)
    ensures
        intact(source, len) ==> r@ == dictionary_in(file_of(source, len), offset as int),
        r@ == dictionary_in(file_of(source, len), offset as int) || r@ == DictionaryView::none(),
{
    match load_block(source, len, offset) {
        Some(record) => Dictionary::of_record(&record),
        None => Dictionary::new(),
    }
}

/// The data of the index bank in a record.
fn index_bank(record: &Record) -> (r: Option<&[u8]>)
    ensures
        match r {
            Some(d) => record@.header.event_count > 0 && (found(
                event_structures(record@.event(0)),
                FILE_INDEX_GROUP,
                FILE_INDEX_ITEM,
            ) matches Some(st) && st.data == d@) && d.len() < 0x100_0000,
            None => record@.header.event_count == 0 || found(
                event_structures(record@.event(0)),
                FILE_INDEX_GROUP,
                FILE_INDEX_ITEM,
            ) is None,
        },
{
    match record.event(0) {
        Some(ev) => match Event::new(ev).find(FILE_INDEX_GROUP, FILE_INDEX_ITEM) {
            Some((_, data)) => Some(data),
            None => None,
        },
        None => None,
    }
}

/// The records that the rows of an index bank list.
fn index_rows(bank: &[u8], file_len: u64, first_data: u64, trailer: u64) -> (r: Result<
    FileEventIndex,
>)
    requires
        bank.len() < 0x100_0000,
    ensures
        match rows_indexed(
            bank@,
            file_len as nat,
            first_data as int,
            trailer as int,
            0,
            Seq::empty(),
        ) {
            Some(s) => r is Ok && r->Ok_0@ == s,
            None => r is Err && r->Err_0 is CorruptRecord,
        },
{
    let rows: usize = bank.len() / 32;
    let mut idx = FileEventIndex::new();
    let mut k: usize = 0;
    while k < rows
        invariant
            k <= rows,
            rows == bank.len() / 32,
            bank.len() < 0x100_0000,
            rows_indexed(
                bank@,
                file_len as nat,
                first_data as int,
                trailer as int,
                0,
                Seq::empty(),
            ) == rows_indexed(
                bank@,
                file_len as nat,
                first_data as int,
                trailer as int,
                k as nat,
                idx@,
            ),
        decreases rows - k,
    {
        let pos: u64 = read_u64_le(bank, 8 * k);
        let len: u32 = read_u32_le(bank, 8 * rows + 4 * k);
        let entries: u32 = read_u32_le(bank, 12 * rows + 4 * k);
        if pos > i64::MAX as u64 || len > i32::MAX as u32 || entries > i32::MAX as u32 {
            return Err(
                HipoError::CorruptRecord {
                    offset: trailer,
                    reason: "trailer index row has a negative field",
                },
            );
        }
        if pos >= first_data && pos != trailer {
            if pos > file_len || len as u64 > file_len - pos {
                return Err(
                    HipoError::CorruptRecord {
                        offset: trailer,
                        reason: "trailer index row position/length out of file bounds",
                    },
                );
            }
            idx.push(pos, len as u64, entries);
        }
        k = k + 1;
    }
    Ok(idx)
}

/// Build the record index from the trailer at `trailer`.
fn build_index_from_trailer<S: ReadAt>(
    source: &S,
    len: u64,
    trailer: u64,
    first_data: u64,
) -> (r: Result<FileEventIndex>)
    ensures
        intact(source, len) || (len <= source.bytes().len() && r is Ok) ==> match trailer_indexed(
            file_of(source, len),
            first_data as int,
            trailer as int,
        ) {
            Some(s) => r is Ok && r->Ok_0@ == s,
            None => r is Err,
        },
        r matches Err(e) ==> e is CorruptRecord,
{
    let record = match load_block(source, len, trailer) {
        Some(record) => record,
        None => {
            return Err(
                HipoError::CorruptRecord {
                    offset: trailer,
                    reason: "trailer record cannot be read",
                },
            );
        },
    };
    match index_bank(&record) {
        Some(bank) => {
            if bank.len() % 32 != 0 {
                return Err(
                    HipoError::CorruptRecord {
                        offset: trailer,
                        reason: "trailer bank size is not a multiple of 32",
                    },
                );
            }
            index_rows(bank, len, first_data, trailer)
        },
        None => Err(
            HipoError::CorruptRecord {
                offset: trailer,
                reason: "trailer event missing file::index bank",
            },
        ),
    }
}

/// Whether the record at `offset` holds the file's index.
fn holds_file_index<S: ReadAt>(source: &S, len: u64, offset: u64) -> (r: bool)
    ensures
        intact(source, len) ==> r == (index_bank_in(file_of(source, len), offset as int) is Some),
{
    match load_block(source, len, offset) {
        Some(record) => index_bank(&record).is_some(),
        None => false,
    }
}

/// The offset of the first record from `from` on.
fn find_first_record<S: ReadAt>(source: &S, len: u64, from: u64) -> (r: Option<u64>)
    ensures
        intact(source, len) ==> match r {
            Some(at) => first_record(file_of(source, len), from as int) == Some(at as int),
            None => first_record(file_of(source, len), from as int) is None,
        },
        r matches Some(at) ==> from <= at && at <= len,
{
    let ghost f = file_of(source, len);
    let mut off: u64 = from;
    while len >= 56 && off <= len - 56
        invariant
            f == file_of(source, len),
            from <= off,
            intact(source, len) ==> first_record(f, from as int) == first_record(f, off as int),
        decreases len + 4 - off,
    {
        if let Ok(h) = read_header(source, len, off) {
            let total: u64 = h.total_bytes();
            if total >= 56 && total <= len - off {
                return Some(off);
            }
        }
        off = off + 4;
    }
    None
}

/// Build the record index by walking from record to record.
fn build_index_by_scanning<S: ReadAt>(
    source: &S,
    len: u64,
    first_data: u64,
    trailer: u64,
    salvage: bool,
) -> (r: Result<FileEventIndex>)
    ensures
        intact(source, len) || (!salvage && r is Ok) ==> match scanned(
            file_of(source, len),
            first_data as int,
            trailer as int,
            salvage,
            Seq::empty(),
        ) {
            Ok(s) => r is Ok && r->Ok_0@ == s,
            Err(e) => r == Err::<FileEventIndex, HipoError>(e),
        },
{
    let ghost f = file_of(source, len);
    let ghost goal = scanned(f, first_data as int, trailer as int, salvage, Seq::empty());
    let mut idx = FileEventIndex::new();
    let mut off: u64 = first_data;
    while len >= 56 && off <= len - 56
        invariant
            f == file_of(source, len),
            goal == scanned(f, first_data as int, trailer as int, salvage, Seq::empty()),
            intact(source, len) || !salvage ==> goal == scanned(
                f,
                off as int,
                trailer as int,
                salvage,
                idx@,
            ),
        decreases
            (if off <= len {
                len - off
            } else {
                0
            }),
    {
        let h = match read_header(source, len, off) {
            Ok(h) => h,
            Err(e) => {
                if !salvage {
                    return Err(e);
                }
                match find_first_record(source, len, off + 4) {
                    Some(next) => {
                        off = next;
                        continue;
                    },
                    None => {
                        return Ok(idx);
                    },
                }
            },
        };
        let total: u64 = h.total_bytes();
        if total == 0 || (salvage && total > len - off) {
            return Ok(idx);
        }
        if h.event_count as u64 * 4 > h.index_array_length as u64 {
            if !salvage {
                return Err(
                    HipoError::CorruptRecord {
                        offset: off,
                        reason: "record event_count exceeds what its index array can hold",
                    },
                );
            }
            off = off + total;
            continue;
        }
        if total > u64::MAX - off {
            return Err(
                HipoError::CorruptRecord {
                    offset: off,
                    reason: "record length overflows file offset",
                },
            );
        }
        if h.event_count > 0 && off != trailer {
            idx.push(off, total, h.event_count);
        }
        off = off + total;
    }
    Ok(idx)
}

/// What an open file says.
pub struct FileView {
    /// The file's bytes.
    pub bytes: Seq<u8>,
    /// No read of them fails.
    pub intact: bool,
    /// What opening the file found.
    pub info: FileInfo,
}

/// One open file.
#[derive(Debug)]
pub struct FileInner<S> {
    path: String,
    source: S,
    len: u64,
    file_header: FileHeader,
    dict: Arc<Dict>,
    tag_registry: TagRegistry,
    config: Vec<(String, String)>,
    index: FileEventIndex,
}

impl<S: ReadAt> View for FileInner<S> {
    type V = FileView;

    closed spec fn view(&self) -> FileView {
        FileView {
            bytes: file_of(&self.source, self.len),
            intact: intact(&self.source, self.len),
            info: FileInfo {
                header: self.file_header,
                dictionary: DictionaryView {
                    dict: self.dict@,
                    tags: self.tag_registry@,
                    config: config_views(self.config@),
                },
                spans: self.index@,
            },
        }
    }
}

impl<S: ReadAt> FileInner<S> {
    /// Where the file came from. It names the source in messages and is never opened.
    pub closed spec fn spec_path(self) -> Seq<char> {
        self.path@
    }

    /// How many bytes the file is said to have.
    pub closed spec fn spec_len(self) -> u64 {
        self.len
    }

    /// Open the first `len` bytes of a source as a file. `path` names the source in errors.
    pub fn from_reader(source: S, len: u64, path: String) -> (r: Result<Self>)
        ensures
            intact(&source, len) ==> match file_opened(file_of(&source, len)) {
                Ok(info) => r is Ok && r->Ok_0@.info == info && r->Ok_0@.bytes == file_of(
                    &source,
                    len,
                ) && r->Ok_0@.intact && r->Ok_0.spec_path() == path@,
                Err(e) => r is Err && (r->Err_0 matches HipoError::Path { path: p, source: s } && p@
                    == path@ && *s == e),
            },
            len < 56 ==> (r matches Err(HipoError::Path { path: p, source: s }) && p@ == path@ && *s
                == (HipoError::FileTooSmall { actual: len, min: 56 })),
            r matches Ok(x) ==> {
                &&& x@.bytes == file_of(&source, len)
                &&& x@.intact == intact(&source, len)
                &&& x.spec_path() == path@
                &&& len <= source.bytes().len() ==> opened_as(x@.bytes, x@.info)
            },
    {
        let label = crate::text::owned(path.as_str());
        match Self::from_source(source, len, path) {
            Ok(f) => Ok(f),
            Err(e) => Err(e.with_path(label)),
        }
    }

    /// Open the first `len` bytes of a source as a file: header, dictionary, record index.
    pub fn from_source(source: S, len: u64, path: String) -> (r: Result<Self>)
        ensures
            intact(&source, len) ==> match file_opened(file_of(&source, len)) {
                Ok(info) => r is Ok && r->Ok_0@.info == info && r->Ok_0@.bytes == file_of(
                    &source,
                    len,
                ) && r->Ok_0@.intact && r->Ok_0.spec_path() == path@,
                Err(e) => r == Err::<Self, HipoError>(e),
            },
            len < 56 ==> r == Err::<Self, HipoError>(
                HipoError::FileTooSmall { actual: len, min: 56 },
            ),
            r matches Ok(x) ==> {
                &&& x@.bytes == file_of(&source, len)
                &&& x@.intact == intact(&source, len)
                &&& x.spec_path() == path@
                &&& len <= source.bytes().len() ==> opened_as(x@.bytes, x@.info)
            },
    {
        if len < 56 {
            return Err(HipoError::FileTooSmall { actual: len, min: 56 });
        }
        let hdr = read_at(&source, 0, 56)?;
        assert(hdr@ =~= file_of(&source, len).subrange(0, 56));
        let file_header = FileHeader::parse(hdr.as_slice())?;
        let dict_offset: u64 = file_header.header_length as u64;
        let first_data: u64 = dict_offset + file_header.user_header_length as u64;
        let dictionary = parse_dictionary(&source, len, dict_offset);
        let trailer: u64 = file_header.trailer_position;
        let listed = if trailer != 0 {
            build_index_from_trailer(&source, len, trailer, first_data)
        } else {
            Err(HipoError::Internal("no trailer"))
        };
        let index = match listed {
            Ok(index) => index,
            Err(_) => build_index_by_scanning(&source, len, first_data, trailer, false)?,
        };
        let Dictionary { dict, tag_registry, config } = dictionary;
        Ok(
            FileInner {
                path,
                source,
                len,
                file_header,
                dict: Arc::new(dict),
                tag_registry,
                config,
                index,
            },
        )
    }

    /// Open a source whose file header cannot be trusted, by finding the records themselves.
    /// The dictionary may be lost: then it is empty.
    pub fn salvage_from_source(source: S, len: u64, path: String) -> (r: Result<Self>)
        ensures
            intact(&source, len) ==> match file_salvaged(file_of(&source, len)) {
                Ok(info) => r is Ok && r->Ok_0@.info == info && r->Ok_0@.bytes == file_of(
                    &source,
                    len,
                ) && r->Ok_0@.intact && r->Ok_0.spec_path() == path@,
                Err(e) => r == Err::<Self, HipoError>(e),
            },
            r matches Ok(x) ==> {
                &&& x@.bytes == file_of(&source, len)
                &&& x@.intact == intact(&source, len)
                &&& x.spec_path() == path@
            },
    {
        let ghost f = file_of(&source, len);
        let mut scan_from: u64 = 0;
        if len >= 56 {
            if let Ok(hdr) = read_at(&source, 0, 56) {
                proof {
                    if intact(&source, len) {
                        assert(hdr@ =~= f.subrange(0, 56));
                    }
                }
                if let Ok(h) = FileHeader::parse(hdr.as_slice()) {
                    scan_from = if h.header_length > 56 {
                        h.header_length as u64
                    } else {
                        56
                    };
                }
            }
        }
        assert(intact(&source, len) ==> scan_from == salvage_start(f));
        let first: u64 = match find_first_record(&source, len, scan_from) {
            Some(first) => first,
            None => {
                return Err(
                    HipoError::BadMagic { offset: 0, found: 0, expected: HEADER_MAGIC },
                );
            },
        };
        proof {
            lemma_first_record(f, scan_from as int);
        }
        let dictionary = parse_dictionary(&source, len, first);
        let mut first_data: u64 = first;
        if !dictionary.dict.is_empty() {
            let h = read_header(&source, len, first)?;
            let total: u64 = h.total_bytes();
            if total > len - first {
                return Err(
                    HipoError::CorruptRecord { offset: first, reason: "record extends past EOF" },
                );
            }
            first_data = first + total;
        }
        let mut index = build_index_by_scanning(&source, len, first_data, 0, true)?;
        let ghost found_spans = index@;
        let n: usize = index.record_count();
        if n > 0 {
            let last: u64 = index.records()[n - 1].file_offset;
            if holds_file_index(&source, len, last) {
                index.pop_last();
            }
        }
        assert(intact(&source, len) ==> index@ == without_trailer(f, found_spans));
        let file_header = FileHeader {
            file_number: 1,
            header_length: 56,
            record_count: index.record_count() as u32,
            index_array_length: 0,
            bit_info: 0x5000_0006,
            user_header_length: (first_data - first) as u32,
            user_register: 0,
            trailer_position: 0,
            user_int1: 0,
            user_int2: 0,
            endianness: Endianness::Little,
        };
        let Dictionary { dict, tag_registry, config } = dictionary;
        Ok(
            FileInner {
                path,
                source,
                len,
                file_header,
                dict: Arc::new(dict),
                tag_registry,
                config,
                index,
            },
        )
    }

    /// Where the file came from.
    pub fn path(&self) -> (r: &str)
        ensures
            r@ == self.spec_path(),
    {
        self.path.as_str()
    }

    pub fn file_header(&self) -> (r: &FileHeader)
        ensures
            *r == self@.info.header,
    {
        &self.file_header
    }

    pub fn dict(&self) -> (r: &Arc<Dict>)
        ensures
            r@ == self@.info.dictionary.dict,
    {
        &self.dict
    }

    pub fn tag_registry(&self) -> (r: &TagRegistry)
        ensures
            r@ == self@.info.dictionary.tags,
    {
        &self.tag_registry
    }

    pub fn config(&self) -> (r: &[(String, String)])
        ensures
            config_views(r@) == self@.info.dictionary.config,
    {
        self.config.as_slice()
    }

    /// The data records: neither the dictionary nor the trailer.
    pub fn index(&self) -> (r: &FileEventIndex)
        ensures
            r@ == self@.info.spans,
    {
        &self.index
    }

    /// Read the whole record at `offset`: its header, and its bytes.
    pub fn read_record(&self, offset: u64) -> (r: Result<(RecordHeader, Vec<u8>)>)
        ensures
            self@.intact || r is Ok ==> match record_in(self@.bytes, offset as int) {
                Ok((h, b)) => r is Ok && r->Ok_0.0 == h && r->Ok_0.1@ == b,
                Err(e) => r == Err::<(RecordHeader, Vec<u8>), HipoError>(e),
            },
            r matches Ok(p) ==> p.0.header_length <= p.0.record_length && p.1.len()
                == p.0.record_length,
    {
        read_record(&self.source, self.len, offset)
    }

    /// How many bytes the file has.
    pub fn len(&self) -> (r: u64)
        ensures
            r == self.spec_len(),
            self@.intact ==> r == self@.bytes.len(),
    {
        self.len
    }

    /// Read the header of the record at `offset`, and no more.
    pub fn read_record_header(&self, offset: u64) -> (r: Result<RecordHeader>)
        ensures
            self@.intact || r is Ok ==> r == header_in(self@.bytes, offset as int),
            r is Ok ==> r->Ok_0.header_length <= r->Ok_0.record_length,
    {
        read_header(&self.source, self.len, offset)
    }

    /// Read `n` bytes from `offset` on.
    pub fn read_bytes(&self, offset: u64, n: usize) -> (r: Result<Vec<u8>>)
        ensures
            self@.intact && offset + n <= self@.bytes.len() ==> r is Ok,
            r is Ok && offset + n <= self.spec_len() ==> offset + n <= self@.bytes.len()
                && r->Ok_0@ == self@.bytes.subrange(offset as int, offset + n),
            r is Ok ==> r->Ok_0.len() == n,
    {
        let r = read_at(&self.source, offset, n);
        proof {
            if r is Ok && offset + n <= self.spec_len() {
                assert(r->Ok_0@ =~= self@.bytes.subrange(offset as int, offset + n));
            }
        }
        r
    }
}

} // verus!
