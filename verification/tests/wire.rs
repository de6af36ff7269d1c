use oxihipo::compress::{compress, inflate_stream};
use oxihipo::event::{Event, EventBuilder};
use oxihipo::fuzz_api::decode_record;
use oxihipo::schema::{DataType, Dict, Schema};
use oxihipo::wire::by_bank::ByBankRecord;
use oxihipo::wire::bytes::{
    read_u32_le, read_u64_le, write_u32_le, write_u64_le, Endianness,
};
use oxihipo::wire::constants::{
    Codec, CompressionType, Layout, BANK_STRUCTURE_SIZE, COMP_TYPE_SHIFT, FH_MAGIC_NUMBER,
    FILE_HEADER_SIZE, HEADER_MAGIC, HEADER_MAGIC_BE, RECORD_HEADER_SIZE, RH_BIT_INFO, RH_COMP_WORD,
    RH_DATA_LENGTH, RH_EVENT_COUNT, RH_HEADER_LENGTH, RH_INDEX_ARRAY_LEN, RH_MAGIC_NUMBER,
    RH_RECORD_LENGTH, RH_RECORD_NUMBER, RH_USER_HEADER_LEN, RH_USER_WORD1, RH_USER_WORD2,
};
use oxihipo::wire::file_header::FileHeader;
use oxihipo::wire::per_column::PerColumnRecord;
use oxihipo::wire::record::Record;
use oxihipo::wire::record_header::RecordHeader;
use oxihipo::write::record::RecordIdent;
use oxihipo::write::record_builder::build_record_bytes;
use oxihipo::{Compression, HipoError};

#[test]
fn round_trip_u32() {
    let mut buf = [0u8; 8];
    write_u32_le(&mut buf, 0, 0xDEAD_BEEF);
    write_u32_le(&mut buf, 4, 0x1234_5678);
    assert_eq!(read_u32_le(&buf, 0), 0xDEAD_BEEF);
    assert_eq!(read_u32_le(&buf, 4), 0x1234_5678);
}

#[test]
fn round_trip_u64() {
    let mut buf = [0u8; 8];
    write_u64_le(&mut buf, 0, 0x0123_4567_89AB_CDEF);
    assert_eq!(read_u64_le(&buf, 0), 0x0123_4567_89AB_CDEF);
}

#[test]
fn endian_from_magic() {
    assert_eq!(
        Endianness::from_magic(HEADER_MAGIC),
        Some(Endianness::Little)
    );
    assert_eq!(
        Endianness::from_magic(HEADER_MAGIC_BE),
        Some(Endianness::Big)
    );
    assert_eq!(Endianness::from_magic(0xDEADBEEF), None);
}

#[test]
fn unaligned_reads() {
    let buf = [0u8, 0xEF, 0xBE, 0xAD, 0xDE, 0u8, 0u8, 0u8];
    assert_eq!(read_u32_le(&buf, 1), 0xDEAD_BEEF);
}

fn file_sample() -> FileHeader {
    FileHeader {
        file_number: 1,
        header_length: 56,
        record_count: 42,
        index_array_length: 168,
        bit_info: 0x5000_0006 | 0x400,
        user_header_length: 0,
        user_register: 0xDEAD_BEEF_DEAD_BEEF,
        trailer_position: 0x1234_5678,
        user_int1: 1,
        user_int2: 2,
        endianness: Endianness::Little,
    }
}

#[test]
fn file_header_round_trip() {
    let mut buf = [0u8; FILE_HEADER_SIZE];
    file_sample().write(&mut buf);
    let parsed = FileHeader::parse(&buf).unwrap();
    assert_eq!(parsed.file_number, 1);
    assert_eq!(parsed.record_count, 42);
    assert_eq!(parsed.version(), 6);
    assert!(parsed.has_trailer_with_index());
    assert!(!parsed.has_dictionary());
    assert_eq!(parsed.user_register, 0xDEAD_BEEF_DEAD_BEEF);
    assert_eq!(parsed.trailer_position, 0x1234_5678);
}

#[test]
fn rejects_bad_magic() {
    let mut buf = [0u8; FILE_HEADER_SIZE];
    file_sample().write(&mut buf);
    buf[0] = 0xAA;
    let err = FileHeader::parse(&buf).unwrap_err();
    assert!(matches!(err, HipoError::BadMagic { .. }));
}

#[test]
fn rejects_bad_endian_magic() {
    let mut buf = [0u8; FILE_HEADER_SIZE];
    file_sample().write(&mut buf);
    write_u32_le(&mut buf, FH_MAGIC_NUMBER, 0xDEAD_BEEF);
    let err = FileHeader::parse(&buf).unwrap_err();
    assert!(matches!(err, HipoError::BadMagic { .. }));
}

#[test]
fn rejects_unsupported_version() {
    let mut buf = [0u8; FILE_HEADER_SIZE];
    let mut h = file_sample();
    h.bit_info = 0x5000_00FF;
    h.write(&mut buf);
    let err = FileHeader::parse(&buf).unwrap_err();
    assert!(matches!(err, HipoError::UnsupportedVersion { .. }));
}

#[test]
fn too_small() {
    let buf = [0u8; 16];
    let err = FileHeader::parse(&buf).unwrap_err();
    assert!(matches!(err, HipoError::FileTooSmall { .. }));
}

fn record_sample() -> RecordHeader {
    RecordHeader {
        record_length: 4096,
        record_number: 7,
        header_length: 56,
        event_count: 100,
        index_array_length: 400,
        bit_info: 0x4000_0006,
        user_header_length: 0,
        data_length: 8000,
        compressed_data_length: 4000,
        compression: CompressionType::Lz4,
        user_word_1: 0,
        user_word_2: 0,
        endianness: Endianness::Little,
        user_header_padding: 0,
        data_padding: 0,
        compressed_data_padding: 0,
    }
}

#[test]
fn record_header_round_trip() {
    let mut buf = [0u8; RECORD_HEADER_SIZE];
    record_sample().write(&mut buf);
    let parsed = RecordHeader::parse(&buf).unwrap();
    assert_eq!(parsed.record_number, 7);
    assert_eq!(parsed.event_count, 100);
    assert_eq!(parsed.compression, CompressionType::Lz4);
    assert_eq!(parsed.compressed_data_length, 4000);
    assert_eq!(parsed.data_length, 8000);
}

#[test]
fn decompressed_size_includes_padding() {
    let h = record_sample();
    assert_eq!(h.decompressed_payload_size(), 8400);
}

#[test]
fn parses_big_endian() {
    let mut le = [0u8; RECORD_HEADER_SIZE];
    record_sample().write(&mut le);
    let expect = RecordHeader::parse(&le).unwrap();

    let mut be = le;
    for off in [
        RH_RECORD_LENGTH,
        RH_RECORD_NUMBER,
        RH_HEADER_LENGTH,
        RH_EVENT_COUNT,
        RH_INDEX_ARRAY_LEN,
        RH_BIT_INFO,
        RH_USER_HEADER_LEN,
        RH_DATA_LENGTH,
        RH_COMP_WORD,
    ] {
        be[off..off + 4].reverse();
    }
    be[RH_USER_WORD1..RH_USER_WORD1 + 8].reverse();
    be[RH_USER_WORD2..RH_USER_WORD2 + 8].reverse();
    write_u32_le(&mut be, RH_MAGIC_NUMBER, HEADER_MAGIC_BE);

    let got = RecordHeader::parse(&be).unwrap();
    assert!(matches!(got.endianness, Endianness::Big));
    assert_eq!(got.record_length, expect.record_length);
    assert_eq!(got.event_count, expect.event_count);
    assert_eq!(got.index_array_length, expect.index_array_length);
    assert_eq!(got.data_length, expect.data_length);
    assert_eq!(got.compression, expect.compression);
    assert_eq!(got.user_word_1, expect.user_word_1);
    assert_eq!(got.user_word_2, expect.user_word_2);
}

#[test]
fn reclaimed_tags_4_and_5_are_zstd_and_only_15_is_unassigned() {
    for (tag, want) in [
        (4u32, (Codec::Zstd, Layout::PerChunk)),
        (5, (Codec::Zstd, Layout::PerBank)),
    ] {
        let mut buf = [0u8; RECORD_HEADER_SIZE];
        record_sample().write(&mut buf);
        write_u32_le(&mut buf, RH_COMP_WORD, tag << COMP_TYPE_SHIFT);
        let h = RecordHeader::parse(&buf)
            .unwrap_or_else(|e| panic!("tag {tag} should now parse: {e:?}"));
        assert_eq!((h.compression.codec(), h.compression.layout()), want);
    }

    let mut buf = [0u8; RECORD_HEADER_SIZE];
    record_sample().write(&mut buf);
    write_u32_le(&mut buf, RH_COMP_WORD, 15u32 << COMP_TYPE_SHIFT);
    let err = RecordHeader::parse(&buf).unwrap_err();
    assert!(
        matches!(err, HipoError::UnknownCompression(15)),
        "tag 15 should be rejected, got {err:?}"
    );

    for tag in 0u8..15 {
        let ct = CompressionType::from_tag(tag)
            .unwrap_or_else(|| panic!("tag {tag} should be assigned"));
        assert_eq!(
            CompressionType::for_pair(ct.codec(), ct.layout()),
            ct,
            "tag {tag} does not round-trip through (codec, layout)"
        );
    }
}

#[test]
fn rejects_header_longer_than_record() {
    let mut buf = [0u8; RECORD_HEADER_SIZE];
    let mut h = record_sample();
    h.record_length = 4096;
    h.header_length = 8192;
    h.write(&mut buf);
    let err = RecordHeader::parse(&buf).unwrap_err();
    assert!(matches!(err, HipoError::CorruptRecord { .. }));
}

fn build_test_record(events: &[&[u8]], compression: CompressionType) -> Vec<u8> {
    let event_count = events.len() as u32;
    let index_array_length = event_count * 4;
    let mut payload = vec![0u8; index_array_length as usize];
    for (i, ev) in events.iter().enumerate() {
        write_u32_le(&mut payload, i * 4, ev.len() as u32);
    }
    let data_start = payload.len();
    for ev in events {
        payload.extend_from_slice(ev);
    }
    let data_length = (payload.len() - data_start) as u32;

    let mut compressed = Vec::new();
    compress(compression, &payload, &mut compressed).unwrap();
    let compressed_len = compressed.len() as u32;

    let pad = (4 - (compressed_len % 4)) % 4;
    compressed.extend(vec![0u8; pad as usize]);

    let header_length = RECORD_HEADER_SIZE as u32;
    let total_bytes = header_length + compressed.len() as u32;

    let bit_info: u32 = 6 | (pad << 24);

    let header = RecordHeader {
        record_length: total_bytes as u64,
        record_number: 1,
        header_length,
        event_count,
        index_array_length,
        bit_info,
        user_header_length: 0,
        data_length,
        compressed_data_length: compressed_len,
        compression,
        user_word_1: 0,
        user_word_2: 0,
        endianness: Endianness::Little,
        user_header_padding: 0,
        data_padding: 0,
        compressed_data_padding: pad as u8,
    };

    let mut out = vec![0u8; total_bytes as usize];
    header.write(&mut out[..RECORD_HEADER_SIZE]);
    out[RECORD_HEADER_SIZE..].copy_from_slice(&compressed);
    out
}

#[test]
fn round_trip_uncompressed() {
    let evs: &[&[u8]] = &[b"hello", b"world!!", b"x"];
    let raw = build_test_record(evs, CompressionType::Uncompressed);
    let mut rec = Record::new();
    rec.load(&raw).unwrap();
    assert_eq!(rec.event_count(), 3);
    assert_eq!(rec.event(0).unwrap(), b"hello");
    assert_eq!(rec.event(1).unwrap(), b"world!!");
    assert_eq!(rec.event(2).unwrap(), b"x");
    assert!(rec.event(3).is_none());

    let mut collected: Vec<&[u8]> = Vec::new();
    let mut it = rec.iter();
    while let Some(e) = it.next() {
        collected.push(e);
    }
    assert_eq!(collected, evs);
}

#[test]
fn round_trip_lz4() {
    let evs: &[&[u8]] = &[
        &[0xAB; 200],
        &[0xCD; 1024],
        b"the quick brown fox jumps over the lazy dog",
    ];
    let raw = build_test_record(evs, CompressionType::Lz4);
    let mut rec = Record::new();
    rec.load(&raw).unwrap();
    assert_eq!(rec.event_count(), 3);
    assert_eq!(rec.event(1).unwrap().len(), 1024);
    assert!(rec.event(1).unwrap().iter().all(|&b| b == 0xCD));
}

#[test]
fn empty_record() {
    let raw = build_test_record(&[], CompressionType::Uncompressed);
    let mut rec = Record::new();
    rec.load(&raw).unwrap();
    assert_eq!(rec.event_count(), 0);
    assert_eq!(rec.iter().remaining(), 0);
}

#[test]
fn buffer_reuse() {
    let mut rec = Record::new();
    let raw1 = build_test_record(&[&[1; 100]], CompressionType::Lz4);
    let raw2 = build_test_record(&[&[2; 100]], CompressionType::Lz4);
    rec.load(&raw1).unwrap();
    let cap_after_first = rec.payload_capacity();
    rec.load(&raw2).unwrap();
    assert!(rec.payload_capacity() >= cap_after_first);
}

#[test]
fn a_bare_record_is_decoded() {
    let raw = build_test_record(&[b"ab", b"", b"cde"], CompressionType::Gzip);
    let rec = decode_record(&raw).unwrap();
    assert_eq!(rec.event_count(), 3);
    assert_eq!(rec.event(0), Some(&b"ab"[..]));
    assert_eq!(rec.event(1), Some(&b""[..]));
    assert_eq!(rec.event(2), Some(&b"cde"[..]));
    assert_eq!(rec.event(3), None);
    assert!(matches!(
        decode_record(&raw[..raw.len() - 1]),
        Err(HipoError::FileTooSmall { .. })
    ));
    assert!(decode_record(&raw[..10]).is_err());
}

fn build_event(evno: u32) -> Vec<u8> {
    let mut eb = EventBuilder::new();
    let mut p = vec![0u8; BANK_STRUCTURE_SIZE];
    p[0..2].copy_from_slice(&300u16.to_le_bytes());
    p[2] = 1;
    p[3] = 11;
    let particle_payload = vec![(evno & 0xff) as u8; 64];
    write_u32_le(&mut p, 4, particle_payload.len() as u32);
    p.extend_from_slice(&particle_payload);
    eb.add_bank_bytes(&p);

    let mut e = vec![0u8; BANK_STRUCTURE_SIZE];
    e[0..2].copy_from_slice(&300u16.to_le_bytes());
    e[2] = 30;
    e[3] = 11;
    let event_payload = (evno as u64).to_le_bytes().to_vec();
    write_u32_le(&mut e, 4, event_payload.len() as u32);
    e.extend_from_slice(&event_payload);
    eb.add_bank_bytes(&e);
    eb.finish()
}

fn by_bank(events: &[Vec<u8>]) -> Vec<u8> {
    build_record_bytes(
        events,
        &Dict::new(),
        Compression::Lz4PerBank,
        RecordIdent { record_number: 1, user_word_1: 0, user_word_2: 0 },
    )
    .unwrap()
}

#[test]
fn parses_directory_without_decompressing() {
    let evs: Vec<Vec<u8>> = (0..10).map(build_event).collect();
    let raw = by_bank(&evs);
    let rec = ByBankRecord::parse(&raw).unwrap();
    for b in 0..rec.num_banks() as u32 {
        assert!(
            !rec.is_bank_inflated(b),
            "parsing the directory must not decompress any bank"
        );
    }
    assert_eq!(rec.event_count(), 10);
    assert_eq!(rec.num_banks(), 2);
    for e in 0..10 {
        assert!(rec.has(e, 0));
        assert!(rec.has(e, 1));
    }
}

#[test]
fn touching_one_bank_does_not_inflate_others() {
    let evs: Vec<Vec<u8>> = (0..10).map(build_event).collect();
    let raw = by_bank(&evs);
    let mut rec = ByBankRecord::parse(&raw).unwrap();

    let event_b = rec.bank_index(300, 30).unwrap();
    let particle_b = rec.bank_index(300, 1).unwrap();

    for e in 0..rec.event_count() {
        let _ = rec.bank_stream(event_b).unwrap();
        let range = rec.bank_byte_range(e, event_b);
        assert_eq!(range.len(), 8);
    }
    assert!(rec.is_bank_inflated(event_b));
    assert!(
        !rec.is_bank_inflated(particle_b),
        "particle bank must stay compressed when never requested"
    );

    let first = rec.bank_stream(particle_b).unwrap().as_ptr();
    for _ in 0..rec.event_count() {
        assert_eq!(
            rec.bank_stream(particle_b).unwrap().as_ptr(),
            first,
            "a bank is inflated once, regardless of access count"
        );
    }
    assert!(rec.is_bank_inflated(particle_b));
}

#[test]
fn round_trip_preserves_event_bytes() {
    let evs: Vec<Vec<u8>> = (0..5).map(build_event).collect();
    let raw = by_bank(&evs);
    let mut rec = ByBankRecord::parse(&raw).unwrap();

    let particle_b = rec.bank_index(300, 1).unwrap();
    let event_b = rec.bank_index(300, 30).unwrap();
    let p_stream = rec.bank_stream(particle_b).unwrap().to_vec();
    let e_stream = rec.bank_stream(event_b).unwrap().to_vec();

    for evno in 0..5_u32 {
        let original = Event::new(&evs[evno as usize]);
        let (_, orig_particle) = original.find(300, 1).unwrap();
        let (_, orig_event) = original.find(300, 30).unwrap();

        let p_range = rec.bank_byte_range(evno, particle_b);
        let e_range = rec.bank_byte_range(evno, event_b);
        assert_eq!(&p_stream[p_range], orig_particle);
        assert_eq!(&e_stream[e_range], orig_event);
    }
}

const ROW_SIZE: usize = 4 + 4 + 12 + 2;

fn particle_dict() -> Dict {
    let mut d = Dict::new();
    d.add(Schema::from_columns(
        "REC::Particle",
        300,
        1,
        vec![
            ("pid".into(), DataType::Int, 1),
            ("px".into(), DataType::Float, 1),
            ("cov".into(), DataType::Float, 3),
            ("status".into(), DataType::Short, 1),
        ],
    ));
    d
}

fn build_particle_event(rows: u32, seed: u32) -> Vec<u8> {
    let data_len = rows as usize * ROW_SIZE;
    let mut s = vec![0u8; BANK_STRUCTURE_SIZE + data_len];
    s[0..2].copy_from_slice(&300u16.to_le_bytes());
    s[2] = 1;
    s[3] = 4;
    write_u32_le(&mut s, 4, data_len as u32);
    let base = BANK_STRUCTURE_SIZE;
    let (pid_off, px_off) = (base, base + rows as usize * 4);
    let (cov_off, st_off) = (px_off + rows as usize * 4, px_off + rows as usize * 16);
    for r in 0..rows as usize {
        let pid = (seed * 100 + r as u32) as i32;
        s[pid_off + r * 4..pid_off + r * 4 + 4].copy_from_slice(&pid.to_le_bytes());
        let px = seed as f32 + r as f32;
        s[px_off + r * 4..px_off + r * 4 + 4].copy_from_slice(&px.to_le_bytes());
        for k in 0..3 {
            let v = (r * 3 + k) as f32;
            let o = cov_off + r * 12 + k * 4;
            s[o..o + 4].copy_from_slice(&v.to_le_bytes());
        }
        let st = (r as i16) - 1;
        s[st_off + r * 2..st_off + r * 2 + 2].copy_from_slice(&st.to_le_bytes());
    }
    let mut eb = EventBuilder::new();
    eb.add_bank_bytes(&s);
    eb.finish()
}

fn per_column(events: &[Vec<u8>]) -> Vec<u8> {
    build_record_bytes(
        events,
        &particle_dict(),
        Compression::Lz4PerColumn,
        RecordIdent { record_number: 1, user_word_1: 0, user_word_2: 0 },
    )
    .unwrap()
}

#[test]
fn parses_without_decompressing_and_splits_columns() {
    let evs: Vec<Vec<u8>> = (0..10).map(|s| build_particle_event(3, s)).collect();
    let raw = per_column(&evs);
    let rec = PerColumnRecord::parse(&raw).unwrap();
    assert_eq!(rec.event_count(), 10);
    assert_eq!(rec.num_banks(), 1);
    let b = rec.bank_index(300, 1).unwrap();
    assert!(!rec.is_opaque(b));
    assert_eq!(rec.num_columns(b), 4);
    for c in 0..4 {
        assert!(
            !rec.is_column_inflated(b, c),
            "parsing the directory must not inflate any column"
        );
    }
}

#[test]
fn touching_one_column_does_not_inflate_others() {
    let evs: Vec<Vec<u8>> = (0..8).map(|s| build_particle_event(3, s)).collect();
    let raw = per_column(&evs);
    let mut rec = PerColumnRecord::parse(&raw).unwrap();
    let b = rec.bank_index(300, 1).unwrap();

    let px = rec.column_stream(b, 1).unwrap().to_vec();
    assert!(rec.is_column_inflated(b, 1));
    assert!(!rec.is_column_inflated(b, 0), "pid must stay compressed");
    assert!(!rec.is_column_inflated(b, 2), "cov must stay compressed");
    assert!(!rec.is_column_inflated(b, 3), "status must stay compressed");

    let vals: Vec<f32> = px
        .chunks(4)
        .map(|c| f32::from_le_bytes([c[0], c[1], c[2], c[3]]))
        .collect();
    assert_eq!(vals.len(), 8 * 3);
    assert_eq!(vals[0], 0.0);
    assert_eq!(vals[3], 1.0);
    assert_eq!(vals[3 * 5 + 2], 5.0 + 2.0);
}

#[test]
fn empty_and_opaque_banks_round_trip() {
    let mut s = vec![0u8; BANK_STRUCTURE_SIZE + 5];
    s[0..2].copy_from_slice(&999u16.to_le_bytes());
    s[2] = 7;
    s[3] = 11;
    write_u32_le(&mut s, 4, 5);
    s[BANK_STRUCTURE_SIZE..].copy_from_slice(b"hello");
    let mut eb = EventBuilder::new();
    eb.add_bank_bytes(&s);
    let ev = eb.finish();
    let raw = per_column(&[ev]);
    let mut rec = PerColumnRecord::parse(&raw).unwrap();
    let b = rec.bank_index(999, 7).unwrap();
    assert!(rec.is_opaque(b), "schema-less bank must be opaque");
    let range = rec.bank_byte_range(0, b);
    let stream = rec.column_stream(b, 0).unwrap();
    assert_eq!(&stream[range], b"hello");
}

#[test]
fn a_damaged_directory_is_an_error() {
    let evs: Vec<Vec<u8>> = (0..4).map(|s| build_particle_event(2, s)).collect();
    let raw = per_column(&evs);
    for at in 56..90 {
        let mut bad = raw.clone();
        bad[at] ^= 0xff;
        match PerColumnRecord::parse(&bad) {
            Ok(rec) => assert_eq!(rec.event_count(), 4),
            Err(e) => assert!(!e.message().is_empty()),
        }
    }
    assert!(ByBankRecord::parse(&raw).is_err());
}

#[test]
fn a_stream_shorter_than_declared_is_refused() {
    let evs: Vec<Vec<u8>> = (0..3).map(build_event).collect();
    let raw = by_bank(&evs);
    let header = RecordHeader::parse(&raw).unwrap();
    let section = &raw[RECORD_HEADER_SIZE..];
    let (banks, events) = (read_u32_le(section, 4) as usize, read_u32_le(section, 8) as usize);
    let packed = read_u32_le(section, 12) as usize;
    let dir_len = read_u32_le(section, 16) as usize;
    let mut dir =
        inflate_stream(CompressionType::Lz4, &section[20..20 + packed], dir_len).unwrap();
    // One byte more for the first bank: in all, and in the first event.
    let all = 8 * banks;
    let first = 12 * banks + 4 * events + events * banks.div_ceil(8);
    let whole = read_u32_le(&dir, all);
    let share = read_u32_le(&dir, first);
    write_u32_le(&mut dir, all, whole + 1);
    write_u32_le(&mut dir, first, share + 1);
    let mut out = Vec::new();
    compress(CompressionType::Lz4, &dir, &mut out).unwrap();
    let mut changed = section[..20].to_vec();
    write_u32_le(&mut changed, 12, out.len() as u32);
    changed.extend_from_slice(&out);
    changed.extend_from_slice(&section[20 + packed..]);

    let mut rec = ByBankRecord::parse_section(header, &changed).unwrap();
    assert!(matches!(
        rec.bank_stream(0),
        Err(HipoError::DecompressUnderflow { produced, expected })
            if produced == whole as usize && expected == whole as usize + 1
    ));
    assert!(!rec.is_bank_inflated(0));
    assert!(rec.bank_data(0, 0).is_none());
    let len = rec.bank_stream(1).unwrap().len();
    assert!(rec.is_bank_inflated(1));
    assert_eq!(rec.bank_byte_range(0, 1).start, 0);
    for e in 1..3 {
        assert_eq!(rec.bank_byte_range(e - 1, 1).end, rec.bank_byte_range(e, 1).start);
    }
    assert_eq!(rec.bank_byte_range(2, 1).end, len);
}

fn reason(r: Result<(), HipoError>) -> &'static str {
    match r {
        Err(HipoError::CorruptRecord { offset: 0, reason }) => reason,
        other => panic!("not a corrupt record: {other:?}"),
    }
}

#[test]
fn a_damaged_record_says_what_is_wrong() {
    let evs: Vec<Vec<u8>> = (0..3).map(|s| build_particle_event(2, s)).collect();
    let columns = per_column(&evs);
    let banks = by_bank(&(0..3).map(build_event).collect::<Vec<_>>());
    let column_header = RecordHeader::parse(&columns).unwrap();
    let bank_header = RecordHeader::parse(&banks).unwrap();

    assert_eq!(
        reason(PerColumnRecord::parse(&banks).map(|_| ())),
        "PerColumnRecord::parse called on a non-per-column record"
    );
    assert_eq!(
        reason(ByBankRecord::parse(&columns).map(|_| ())),
        "ByBankRecord::parse called on non-Lz4ByBank record"
    );
    assert_eq!(
        reason(PerColumnRecord::parse(&columns[..columns.len() - 4]).map(|_| ())),
        "Lz4PerColumn: record extends past buffer"
    );
    assert_eq!(
        reason(Record::new().load(&columns)),
        "Record::load on by-bank record; use ByBankRecord::parse"
    );

    let at_columns = |edit: &dyn Fn(&mut Vec<u8>)| {
        let mut s = columns[RECORD_HEADER_SIZE..].to_vec();
        edit(&mut s);
        reason(PerColumnRecord::parse_section(column_header, &s).map(|_| ()))
    };
    let at_banks = |edit: &dyn Fn(&mut Vec<u8>)| {
        let mut s = banks[RECORD_HEADER_SIZE..].to_vec();
        edit(&mut s);
        reason(ByBankRecord::parse_section(bank_header, &s).map(|_| ()))
    };
    let faults: [(&dyn Fn(&mut Vec<u8>), &str); 5] = [
        (&|s| s.truncate(19), "section truncated (header)"),
        (&|s| s[0] = 99, "unsupported extension-format version"),
        (&|s| write_u32_le(s, 8, 4), "event_count mismatch with record header"),
        (&|s| write_u32_le(s, 12, 1 << 20), "directory truncated"),
        (
            &|s| write_u32_le(s, 16, 3),
            "directory size inconsistent with bank/event counts",
        ),
    ];
    for (edit, what) in faults {
        assert_eq!(at_columns(edit), format!("Lz4PerColumn: {what}"));
        assert_eq!(at_banks(edit), format!("Lz4ByBank: {what}"));
    }
    let cut = |s: &mut Vec<u8>| {
        let n = s.len() - 8;
        s.truncate(n);
    };
    assert_eq!(at_columns(&cut), "Lz4PerColumn: stream bytes run past section end");
    assert_eq!(at_banks(&cut), "Lz4ByBank: stream bytes run past section end");

    let mut rec = PerColumnRecord::parse(&columns).unwrap();
    assert_eq!(
        reason(rec.column_stream(0, 99).map(|_| ())),
        "Lz4PerColumn: column index out of range"
    );
}
