//! Files on disk: what is written where, and what is read from where.

use vstd::prelude::*;
use crate::error::HipoError;
#[allow(unused_imports)]
use crate::laws::bytes::{law_le16_bytes, law_le32_bytes, law_u32_at_bytes};
#[allow(unused_imports)]
use crate::laws::headers::{eight, four};
#[allow(unused_imports)]
use crate::laws::patterns::kept_at;
use crate::read::inner::FileInner;
#[allow(unused_imports)]
use crate::read::inner::{index_bank_in, intact, rows_indexed};
use crate::read::source::ReadAt;
use crate::schema::types::Schema;
#[allow(unused_imports)]
use crate::seqs::concat;
#[allow(unused_imports)]
use crate::wire::bytes::{le16, le32, le64, u32_at, u64_at, Endianness};
#[allow(unused_imports)]
use crate::wire::constants::CompressionType;
#[allow(unused_imports)]
use crate::wire::event_index::{events_in, lemma_events_same, with_span, RecordSpan};
use crate::wire::file_header::FileHeader;
use crate::write::file::{build_dictionary_event, build_trailer_record, file_header, IndexEntry};
#[allow(unused_imports)]
use crate::write::file::{
    event_counts, first_words, no_ident, positions, record_lengths, second_words, single_event,
    text_bank, trailer_data, trailer_event,
};
#[allow(unused_imports)]
use crate::write::record::{block_written, lens_of};

verus! {

/// The header of a file that is written: file number 1, 56 bytes of header, then as many bytes of
/// dictionary as it says, version 6 with a dictionary, and, once there is one, the place of the
/// trailer and the mark that there is an index in it.
pub proof fn law_file_header_of_a_writer(dict_len: u32, trailer: Option<u64>, h: FileHeader)
    requires
        call_ensures(file_header, (dict_len, trailer), h),
    ensures
        h.file_number == 1,
        h.header_length == 56,
        h.user_header_length == dict_len,
        h.index_array_length == 0,
        h.trailer_position == (match trailer {
            Some(t) => t,
            None => 0,
        }),
        h.bit_info % 0x100 == 6,
        h.bit_info as int / 0x100 % 2 == 1,
        (h.bit_info as int / 0x400 % 2 == 1) == (trailer is Some),
        h.bit_info as int / 0x1000_0000 == 5,
        h.endianness == Endianness::Little,
{
}

/// Four bytes are a number wherever they stand.
proof fn lemma_four_same(s: Seq<u8>, i: int, t: Seq<u8>, j: int)
    requires
        s[i] == t[j] && s[i + 1] == t[j + 1] && s[i + 2] == t[j + 2] && s[i + 3] == t[j + 3],
    ensures
        four(s, i, false) == four(t, j, false),
{
    reveal(four);
}

proof fn lemma_four_of(v: u32)
    ensures
        le32(v).len() == 4,
        four(le32(v), 0, false) == v,
{
    law_le32_bytes(v);
    reveal(four);
}

proof fn lemma_eight_of(v: u64)
    ensures
        le64(v).len() == 8,
        eight(le64(v), 0, false) == v,
{
    let lo = (v % 0x1_0000_0000) as u32;
    let hi = (v / 0x1_0000_0000) as u32;
    lemma_four_of(lo);
    lemma_four_of(hi);
    let s = le64(v);
    lemma_four_same(s, 0, le32(lo), 0);
    lemma_four_same(s, 4, le32(hi), 0);
}

proof fn lemma_positions(es: Seq<IndexEntry>, n: nat, k: int)
    ensures
        positions(es, n).len() == 8 * n,
        0 <= k < n ==> eight(positions(es, n), 8 * k, false) == es[k].position,
    decreases n,
{
    if n > 0 {
        let m = (n - 1) as nat;
        lemma_positions(es, m, k);
        lemma_eight_of(es[n - 1].position);
        let (a, b, s) = (positions(es, m), le64(es[n - 1].position), positions(es, n));
        assert(s == a + b);
        if 0 <= k < m {
            lemma_four_same(s, 8 * k, a, 8 * k);
            lemma_four_same(s, 8 * k + 4, a, 8 * k + 4);
        } else if k == m {
            lemma_four_same(s, 8 * k, b, 0);
            lemma_four_same(s, 8 * k + 4, b, 4);
        }
    }
}

proof fn lemma_first_words(es: Seq<IndexEntry>, n: nat, k: int)
    ensures
        first_words(es, n).len() == 8 * n,
        0 <= k < n ==> eight(first_words(es, n), 8 * k, false) == es[k].user_word_1,
    decreases n,
{
    if n > 0 {
        let m = (n - 1) as nat;
        lemma_first_words(es, m, k);
        lemma_eight_of(es[n - 1].user_word_1);
        let (a, b, s) = (first_words(es, m), le64(es[n - 1].user_word_1), first_words(es, n));
        assert(s == a + b);
        if 0 <= k < m {
            lemma_four_same(s, 8 * k, a, 8 * k);
            lemma_four_same(s, 8 * k + 4, a, 8 * k + 4);
        } else if k == m {
            lemma_four_same(s, 8 * k, b, 0);
            lemma_four_same(s, 8 * k + 4, b, 4);
        }
    }
}

proof fn lemma_second_words(es: Seq<IndexEntry>, n: nat, k: int)
    ensures
        second_words(es, n).len() == 8 * n,
        0 <= k < n ==> eight(second_words(es, n), 8 * k, false) == es[k].user_word_2,
    decreases n,
{
    if n > 0 {
        let m = (n - 1) as nat;
        lemma_second_words(es, m, k);
        lemma_eight_of(es[n - 1].user_word_2);
        let (a, b, s) = (second_words(es, m), le64(es[n - 1].user_word_2), second_words(es, n));
        assert(s == a + b);
        if 0 <= k < m {
            lemma_four_same(s, 8 * k, a, 8 * k);
            lemma_four_same(s, 8 * k + 4, a, 8 * k + 4);
        } else if k == m {
            lemma_four_same(s, 8 * k, b, 0);
            lemma_four_same(s, 8 * k + 4, b, 4);
        }
    }
}

proof fn lemma_record_lengths(es: Seq<IndexEntry>, n: nat, k: int)
    ensures
        record_lengths(es, n).len() == 4 * n,
        0 <= k < n ==> four(record_lengths(es, n), 4 * k, false) == es[k].record_length as int % 0x1_0000_0000,
    decreases n,
{
    if n > 0 {
        let m = (n - 1) as nat;
        lemma_record_lengths(es, m, k);
        let v = (es[n - 1].record_length % 0x1_0000_0000) as u32;
        lemma_four_of(v);
        let (a, b, s) = (record_lengths(es, m), le32(v), record_lengths(es, n));
        assert(s == a + b);
        if 0 <= k < m {
            lemma_four_same(s, 4 * k, a, 4 * k);
        } else if k == m {
            lemma_four_same(s, 4 * k, b, 0);
        }
    }
}

proof fn lemma_event_counts(es: Seq<IndexEntry>, n: nat, k: int)
    ensures
        event_counts(es, n).len() == 4 * n,
        0 <= k < n ==> four(event_counts(es, n), 4 * k, false) == es[k].event_count as int,
    decreases n,
{
    if n > 0 {
        let m = (n - 1) as nat;
        lemma_event_counts(es, m, k);
        let v = es[n - 1].event_count;
        lemma_four_of(v);
        let (a, b, s) = (event_counts(es, m), le32(v), event_counts(es, n));
        assert(s == a + b);
        if 0 <= k < m {
            lemma_four_same(s, 4 * k, a, 4 * k);
        } else if k == m {
            lemma_four_same(s, 4 * k, b, 0);
        }
    }
}

/// An event with one structure: 16 bytes of header, then group, item, type 11 and length of the
/// structure, and its data.
proof fn lemma_single_event(group: u16, item: u8, data: Seq<u8>)
    requires
        data.len() <= u32::MAX - 24,
    ensures
        ({
            let s = single_event(group, item, data);
            &&& s.len() == 24 + data.len()
            &&& s[0] == 0x45 && s[1] == 0x56 && s[2] == 0x4e && s[3] == 0x54
            &&& four(s, 4, false) == s.len()
            &&& four(s, 8, false) == 0
            &&& s[16] + s[17] * 0x100 == group
            &&& s[18] == item
            &&& s[19] == 11
            &&& four(s, 20, false) == data.len()
            &&& s.subrange(24, s.len() as int) == data
        }),
{
    let bank = text_bank(group, item, data);
    law_le16_bytes(group);
    lemma_four_of(data.len() as u32);
    assert(bank.len() == 8 + data.len());
    crate::laws::builders::lemma_event_bytes(bank, 0);
    let s = single_event(group, item, data);
    let tail = s.subrange(16, s.len() as int);
    assert(tail[0] == s[16] && tail[1] == s[17] && tail[2] == s[18] && tail[3] == s[19]);
    assert(bank[0] == le16(group)[0] && bank[1] == le16(group)[1]);
    lemma_four_same(bank, 4, le32(data.len() as u32), 0);
    lemma_four_same(s, 20, bank, 4);
    assert(s.subrange(24, s.len() as int) =~= data);
}

/// The entry of a dictionary for a schema is an event with one structure of group 120 and item 2,
/// whose data is the schema's text.
pub proof fn law_dictionary_event_is_written(schema: Schema, v: Vec<u8>, text: String)
    requires
        call_ensures(build_dictionary_event, (&schema,), Ok::<Vec<u8>, HipoError>(v)),
        call_ensures(Schema::to_text, (&schema,), text),
        vstd::utf8::encode_utf8(text@).len() <= u32::MAX - 24,
    ensures
        v@[0] == 0x45 && v@[1] == 0x56 && v@[2] == 0x4e && v@[3] == 0x54,
        four(v@, 4, false) == v@.len(),
        v@[16] + v@[17] * 0x100 == 120,
        v@[18] == 2,
        v@[19] == 11,
        v@.subrange(24, v@.len() as int) == vstd::utf8::encode_utf8(text@),
{
    lemma_single_event(120, 2, vstd::utf8::encode_utf8(text@));
}

/// The bytes of a trailer around its data.
proof fn lemma_trailer_record(e: Seq<IndexEntry>, s: Seq<u8>)
    requires
        crate::write::file::is_trailer(s, e),
        trailer_data(e).len() <= u32::MAX - 24,
    ensures
        ({
            let data = trailer_data(e);
            &&& s.len() >= 84 + data.len()
            &&& four(s, 56, false) == 24 + data.len()
            &&& s[76] + s[77] * 0x100 == 32111
            &&& s[78] == 1
            &&& four(s, 80, false) == data.len()
            &&& forall|i: int| 0 <= i < data.len() ==> #[trigger] data[i] == s[84 + i]
        }),
{
    let data = trailer_data(e);
    let event = trailer_event(e);
    lemma_single_event(32111, 1, data);
    let events = seq![event];
    let packed = choose|packed: Seq<u8>| #[trigger]
        block_written(s, events, CompressionType::Uncompressed, no_ident(), packed);
    assert(concat(events) =~= event) by {
        assert(events.drop_last() =~= Seq::<Seq<u8>>::empty());
        assert(concat(events.drop_last()) =~= Seq::<u8>::empty());
    }
    let len = event.len() as u32;
    let lens = lens_of(events);
    assert(lens =~= seq![len]);
    lemma_four_of(len);
    let table = crate::wire::tables::u32s_bytes(lens);
    assert(table =~= le32(len)) by {
        assert(lens.drop_last() =~= Seq::<u32>::empty());
        assert(crate::wire::tables::u32s_bytes(lens.drop_last()) =~= Seq::<u8>::empty());
    }
    assert(packed == table + event);
    lemma_in_record(s, packed);
    assert forall|i: int| 0 <= i < event.len() implies #[trigger] event[i] == s[60 + i] by {
        assert(packed[4 + i] == s[56 + (4 + i)]);
    }
    assert forall|i: int| 0 <= i < 4 implies #[trigger] table[i] == s[56 + i] by {
        assert(packed[i] == s[56 + i]);
    }
    lemma_four_run(s, 56, table, 0);
    lemma_four_run(s, 60, event, 20);
    assert(event[16] == s[60int + 16] && event[17] == s[60int + 17]);
    assert(event[18] == s[60int + 18]);
    let tail = event.subrange(24, event.len() as int);
    assert forall|i: int| 0 <= i < data.len() implies #[trigger] data[i] == s[84 + i] by {
        assert(tail[i] == event[24 + i]);
        assert(event[24 + i] == s[60 + (24 + i)]);
    }
}

/// The trailer is an uncompressed record of one event with one structure of group 32111 and item 1.
/// Its data, from byte 84 of the record on, is one column after the other: the place of every
/// record in 8 bytes, its length in 4, its number of events in 4, and its two user words in 8 each.
#[verifier::rlimit(60)]
#[verifier::spinoff_prover]
pub proof fn law_trailer_is_written(es: &[IndexEntry], v: Vec<u8>, k: int)
    requires
        call_ensures(build_trailer_record, (es,), Ok::<Vec<u8>, HipoError>(v)),
        0 <= k < es@.len(),
        32 * es@.len() <= u32::MAX - 24,
    ensures
        ({
            let s = v@;
            let n = es@.len() as int;
            &&& s.len() >= 84 + 32 * n
            &&& four(s, 56, false) == 24 + 32 * n
            &&& s[76] + s[77] * 0x100 == 32111
            &&& s[78] == 1
            &&& four(s, 80, false) == 32 * n
            &&& eight(s, 84 + 8 * k, false) == es@[k].position
            &&& four(s, 84 + 8 * n + 4 * k, false) == es@[k].record_length as int % 0x1_0000_0000
            &&& four(s, 84 + 12 * n + 4 * k, false) == es@[k].event_count
            &&& eight(s, 84 + 16 * n + 8 * k, false) == es@[k].user_word_1
            &&& eight(s, 84 + 24 * n + 8 * k, false) == es@[k].user_word_2
        }),
{
    let e = es@;
    let n = e.len();
    let s = v@;
    lemma_positions(e, n, k);
    lemma_record_lengths(e, n, k);
    lemma_event_counts(e, n, k);
    lemma_first_words(e, n, k);
    lemma_second_words(e, n, k);
    lemma_trailer_record(e, s);
    let data = trailer_data(e);
    let (a, b, c, f, g) = (
        positions(e, n),
        record_lengths(e, n),
        event_counts(e, n),
        first_words(e, n),
        second_words(e, n),
    );
    assert forall|i: int| 0 <= i < a.len() implies #[trigger] a[i] == s[84 + i] by {
        assert(data[i] == a[i]);
    }
    assert forall|i: int| 0 <= i < b.len() implies #[trigger] b[i] == s[84 + 8 * n + i] by {
        assert(data[8 * n + i] == b[i]);
    }
    assert forall|i: int| 0 <= i < c.len() implies #[trigger] c[i] == s[84 + 12 * n + i] by {
        assert(data[12 * n + i] == c[i]);
    }
    assert forall|i: int| 0 <= i < f.len() implies #[trigger] f[i] == s[84 + 16 * n + i] by {
        assert(data[16 * n + i] == f[i]);
    }
    assert forall|i: int| 0 <= i < g.len() implies #[trigger] g[i] == s[84 + 24 * n + i] by {
        assert(data[24 * n + i] == g[i]);
    }
    lemma_four_run(s, 84, a, 8 * k);
    lemma_four_run(s, 84, a, 8 * k + 4);
    lemma_four_run(s, 84int + 8 * n, b, 4 * k);
    lemma_four_run(s, 84int + 12 * n, c, 4 * k);
    lemma_four_run(s, 84int + 16 * n, f, 8 * k);
    lemma_four_run(s, 84int + 16 * n, f, 8 * k + 4);
    lemma_four_run(s, 84int + 24 * n, g, 8 * k);
    lemma_four_run(s, 84int + 24 * n, g, 8 * k + 4);
}

/// A number of a run that stands at byte `at` of `s`.
proof fn lemma_four_run(s: Seq<u8>, at: int, t: Seq<u8>, i: int)
    requires
        forall|j: int| 0 <= j < t.len() ==> #[trigger] t[j] == s[at + j],
        0 <= i,
        i + 4 <= t.len(),
    ensures
        four(s, at + i, false) == four(t, i, false),
{
    assert(t[i] == s[at + i] && t[i + 1] == s[at + (i + 1)]);
    assert(t[i + 2] == s[at + (i + 2)] && t[i + 3] == s[at + (i + 3)]);
    lemma_four_same(s, at + i, t, i);
}

/// The block of an uncompressed record stands right behind its header.
proof fn lemma_in_record(s: Seq<u8>, packed: Seq<u8>)
    requires
        exists|h: crate::wire::record_header::RecordHeader|
            s == #[trigger] crate::write::record::framed(h, packed),
    ensures
        s.len() >= 56 + packed.len(),
        forall|i: int| 0 <= i < packed.len() ==> #[trigger] packed[i] == s[56 + i],
{
    let h = choose|h: crate::wire::record_header::RecordHeader|
        s == #[trigger] crate::write::record::framed(h, packed);
    assert(h.encoded().len() == 56);
}

/// The place, the length and the number of events that row `k` of an index of `n` rows gives.
pub open spec fn row_place(bank: Seq<u8>, k: int) -> int {
    eight(bank, 8 * k, false)
}

/// A row of an index lists a data record: not one before the first of them, nor the trailer.
pub open spec fn lists_data(bank: Seq<u8>, first_data: int, trailer: int, k: int) -> bool {
    row_place(bank, k) >= first_data && row_place(bank, k) != trailer
}

proof fn lemma_row(bank: Seq<u8>, n: int, k: int)
    ensures
        u64_at(bank, 8 * k) == eight(bank, 8 * k, false),
        u32_at(bank, 8 * n + 4 * k) == four(bank, 8 * n + 4 * k, false),
        u32_at(bank, 12 * n + 4 * k) == four(bank, 12 * n + 4 * k, false),
{
    law_u32_at_bytes(bank, 8 * k);
    law_u32_at_bytes(bank, 8 * k + 4);
    law_u32_at_bytes(bank, 8 * n + 4 * k);
    law_u32_at_bytes(bank, 12 * n + 4 * k);
    reveal(four);
}

/// Span `i` is the record of row `k`.
pub open spec fn span_of_row(bank: Seq<u8>, span: RecordSpan, k: int) -> bool {
    let n = bank.len() as int / 32;
    &&& span.file_offset == row_place(bank, k)
    &&& span.record_length == four(bank, 8 * n + 4 * k, false)
    &&& span.event_count == four(bank, 12 * n + 4 * k, false)
}

#[verifier::rlimit(40)]
#[verifier::spinoff_prover]
proof fn lemma_rows(
    bank: Seq<u8>,
    file_len: nat,
    first_data: int,
    trailer: int,
    k: nat,
    spans: Seq<RecordSpan>,
    before: Seq<int>,
) -> (at: Seq<int>)
    requires
        k <= bank.len() / 32,
        bank.len() / 32 <= 0x1_0000_0000,
        rows_indexed(bank, file_len, first_data, trailer, k, spans) is Some,
        events_in(spans) <= k * 0x8000_0000,
        kept_at(k as int, |j: int| lists_data(bank, first_data, trailer, j), before),
        spans.len() == before.len(),
        forall|i: int| 0 <= i < spans.len() ==> span_of_row(bank, #[trigger] spans[i], before[i]),
    ensures
        ({
            let r = rows_indexed(bank, file_len, first_data, trailer, k, spans)->0;
            &&& kept_at(
                bank.len() as int / 32,
                |j: int| lists_data(bank, first_data, trailer, j),
                at,
            )
            &&& r.len() == at.len()
            &&& forall|i: int| 0 <= i < r.len() ==> span_of_row(bank, #[trigger] r[i], at[i])
        }),
    decreases bank.len() / 32 - k,
{
    let n = bank.len() / 32;
    let keep = |j: int| lists_data(bank, first_data, trailer, j);
    if k >= n {
        before
    } else {
        lemma_row(bank, n as int, k as int);
        let pos = u64_at(bank, 8 * k as int);
        let len = u32_at(bank, 8 * n + 4 * k as int);
        let entries = u32_at(bank, 12 * n + 4 * k as int);
        if !keep(k as int) {
            assert(kept_at((k + 1) as int, keep, before)) by {
                assert forall|j: int| 0 <= j < k + 1 && #[trigger] keep(j) implies before.contains(
                    j,
                ) by {}
            }
            lemma_rows(bank, file_len, first_data, trailer, k + 1, spans, before)
        } else {
            let more = with_span(spans, pos, len as u64, entries);
            let next = before.push(k as int);
            assert(events_in(spans) + entries <= u64::MAX);
            lemma_events_same(spans, more, spans.len());
            assert(events_in(more) == events_in(spans) + entries);
            assert(kept_at((k + 1) as int, keep, next)) by {
                assert forall|i: int| 0 <= i < next.len() implies 0 <= #[trigger] next[i] < k + 1
                    && keep(next[i]) by {
                    if i < before.len() {
                        assert(next[i] == before[i]);
                        assert(keep(before[i]));
                    }
                }
                assert forall|i: int, j: int| 0 <= i < j < next.len() implies next[i] < next[j] by {
                    assert(next[i] == before[i] && keep(before[i]));
                    if j < before.len() {
                        assert(next[j] == before[j]);
                    }
                }
                assert forall|j: int| 0 <= j < k + 1 && #[trigger] keep(j) implies next.contains(
                    j,
                ) by {
                    if j < k {
                        assert(before.contains(j));
                        let i = choose|i: int| 0 <= i < before.len() && before[i] == j;
                        assert(next[i] == j);
                    } else {
                        assert(next[before.len() as int] == j);
                    }
                }
            }
            assert forall|i: int| 0 <= i < more.len() implies span_of_row(
                bank,
                #[trigger] more[i],
                next[i],
            ) by {
                if i < spans.len() {
                    assert(more[i] == spans[i] && next[i] == before[i]);
                    assert(span_of_row(bank, spans[i], before[i]));
                }
            }
            lemma_rows(bank, file_len, first_data, trailer, k + 1, more, next)
        }
    }
}

/// A file whose trailer has a sound index has the records that the index lists, in its order:
/// every row but those of the dictionary and of the trailer itself, with the place, the length and
/// the number of events that the row gives.
pub proof fn law_file_is_opened_by_its_index<S: ReadAt>(
    source: S,
    len: u64,
    path: String,
    file: FileInner<S>,
    bank: Seq<u8>,
) -> (at: Seq<int>)
    requires
        call_ensures(
            FileInner::<S>::from_source,
            (source, len, path),
            Ok::<FileInner<S>, HipoError>(file),
        ),
        intact(&source, len),
        file@.info.header.trailer_position != 0,
        index_bank_in(file@.bytes, file@.info.header.trailer_position as int) == Some(bank),
        bank.len() % 32 == 0,
        bank.len() / 32 <= 0x1_0000_0000,
        ({
            let h = file@.info.header;
            rows_indexed(
                bank,
                file@.bytes.len(),
                h.header_length + h.user_header_length,
                h.trailer_position as int,
                0,
                Seq::empty(),
            ) is Some
        }),
    ensures
        file@.bytes == source.bytes().subrange(0, len as int),
        ({
            let h = file@.info.header;
            let spans = file@.info.spans;
            &&& kept_at(
                bank.len() as int / 32,
                |j: int|
                    lists_data(
                        bank,
                        h.header_length + h.user_header_length,
                        h.trailer_position as int,
                        j,
                    ),
                at,
            )
            &&& spans.len() == at.len()
            &&& forall|i: int|
                0 <= i < spans.len() ==> span_of_row(bank, #[trigger] spans[i], at[i])
        }),
{
    let h = file@.info.header;
    lemma_rows(
        bank,
        file@.bytes.len(),
        h.header_length + h.user_header_length,
        h.trailer_position as int,
        0,
        Seq::empty(),
        Seq::empty(),
    )
}

} // verus!
