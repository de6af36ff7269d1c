use std::sync::atomic::{AtomicUsize, Ordering};
use std::sync::Arc;

use oxihipo::clas12::RecParticle;
use oxihipo::compress::inflate_stream;
use oxihipo::event::row_typed::PindexIndex;
use oxihipo::event::{Bank, BankRow, Event, EventBuilder, OwnedEvent};
use oxihipo::read::inner::FileInner;
use oxihipo::read::entries::{absent_chunk, place_shares};
use oxihipo::read::merge::merge_chunks;
use oxihipo::read::plan::build_plan;
use oxihipo::read::skim::{append_tagged, copy_next, retag};
use oxihipo::read::{ColumnData, FnSource, InMemory, ReadAt};
use oxihipo::schema::{ColumnHandle, DataType, Dict, Float32, Schema};
use oxihipo::wire::bytes::read_u32_le;
use oxihipo::wire::constants::{CompressionType, RECORD_HEADER_SIZE};
use oxihipo::wire::record_header::RecordHeader;
use oxihipo::write::{Writer, WriterOptions};
use oxihipo::{Chain, Compression, Filter, HipoError, TagRegistry, WriteSummary};

fn f(x: f32) -> Float32 {
    Float32 { bits: x.to_bits() }
}

const MODES: [Compression; 6] = [
    Compression::Uncompressed,
    Compression::Lz4,
    Compression::Lz4Best,
    Compression::Gzip,
    Compression::Lz4PerBank,
    Compression::Lz4PerColumn,
];

/// The bytes of a finished file.
fn close(mut w: Writer) -> (Vec<u8>, WriteSummary) {
    let mut file = w.take_bytes();
    let done = w.finish().unwrap();
    file.extend_from_slice(&done.rest);
    file[..56].copy_from_slice(&done.header);
    assert_eq!(file.len() as u64, done.summary.bytes);
    (file, done.summary)
}

fn open(bytes: Vec<u8>) -> Chain<InMemory> {
    chain_of(vec![bytes])
}

fn chain_of(files: Vec<Vec<u8>>) -> Chain<InMemory> {
    let mut inners = Vec::new();
    for bytes in files {
        let len = bytes.len() as u64;
        let inner =
            FileInner::from_source(InMemory::new(bytes), len, "mem".to_string()).unwrap();
        inners.push(Arc::new(inner));
    }
    Chain::from_inners(inners).unwrap()
}

fn sample_dict() -> Dict {
    let mut d = Dict::new();
    d.add(Schema::from_columns(
        "REC::Particle",
        300,
        1,
        vec![
            ("pid".into(), DataType::Int, 1),
            ("px".into(), DataType::Float, 1),
        ],
    ));
    d
}

#[test]
fn empty_chain_metadata() {
    let chain: Chain<InMemory> = Chain::default();
    assert_eq!(chain.file_count(), 0);
    assert_eq!(chain.event_count(), 0);
    assert!(chain.is_empty());
    assert!(chain.events().next().is_none());
}

#[test]
fn builder_round_trip() {
    let mut w = Writer::create()
        .schemas(&sample_dict())
        .compression(Compression::Uncompressed)
        .build()
        .unwrap();
    for pid in 1..=5 {
        w.event(|ev| {
            ev.bank("REC::Particle", |b| {
                b.row(|r| {
                    r.set("pid", pid)?;
                    r.set("px", f(pid as f32 * 0.1))?;
                    Ok(())
                })?;
                Ok(())
            })?;
            Ok(())
        })
        .unwrap();
    }
    let (bytes, _) = close(w);

    let f = open(bytes);
    assert_eq!(f.event_count(), 5);
    assert!(f.schemas().get("REC::Particle").is_some());
}

#[test]
fn unknown_schema_errors() {
    let mut w = Writer::create().schemas(&sample_dict()).build().unwrap();
    let err = w
        .event(|ev| {
            ev.bank("NOPE", |_b| Ok(()))?;
            Ok(())
        })
        .unwrap_err();
    assert!(matches!(err, HipoError::UnknownSchema { .. }));
}

#[test]
fn finish_returns_summary() {
    let mut w = Writer::create()
        .schemas(&sample_dict())
        .compression(Compression::Uncompressed)
        .build()
        .unwrap();
    for pid in 1..=5 {
        w.event(|ev| {
            ev.bank("REC::Particle", |b| {
                b.row(|r| {
                    r.set("pid", pid)?;
                    r.set("px", f(pid as f32 * 0.1))?;
                    Ok(())
                })?;
                Ok(())
            })?;
            Ok(())
        })
        .unwrap();
    }
    let (_, summary) = close(w);
    assert_eq!(summary.events, 5);
    assert_eq!(summary.records, 1);
    assert!(summary.bytes > 0);
}

#[test]
fn drop_without_finish_is_still_readable() {
    let mut w = Writer::create()
        .schemas(&sample_dict())
        .compression(Compression::Uncompressed)
        .build()
        .unwrap();
    w.event(|ev| {
        ev.bank("REC::Particle", |b| {
            b.row(|r| {
                r.set("pid", 7)?;
                r.set("px", f(0.7_f32))?;
                Ok(())
            })?;
            Ok(())
        })?;
        Ok(())
    })
    .unwrap();
    w.flush_record().unwrap();
    let bytes = w.take_bytes();
    drop(w);
    let f = open(bytes);
    assert_eq!(f.event_count(), 1);
}

#[test]
fn the_read_path_works_over_a_non_file_source() {
    let mut d = Dict::new();
    d.add(Schema::from_columns(
        "REC::Particle",
        300,
        31,
        vec![("pid".into(), DataType::Int, 1)],
    ));
    let mut w = Writer::create()
        .schemas(&d)
        .max_record_events(4)
        .build()
        .unwrap();
    for e in 0..20i32 {
        w.event(|ev| {
            ev.bank("REC::Particle", |b| {
                b.row(|r| {
                    r.set("pid", e)?;
                    Ok(())
                })?;
                Ok(())
            })?;
            Ok(())
        })
        .unwrap();
    }
    let (bytes, summary) = close(w);
    assert_eq!(summary.records, 5);

    let len = bytes.len() as u64;
    let from_memory =
        FileInner::from_source(InMemory::new(bytes.clone()), len, "mem".to_string()).unwrap();
    let disk = bytes.clone();
    let reads = Arc::new(AtomicUsize::new(0));
    let seen = reads.clone();
    let from_disk = FileInner::from_source(
        FnSource::new(move |offset: u64, n: usize| {
            seen.fetch_add(1, Ordering::Relaxed);
            let start = offset as usize;
            match disk.get(start..start + n) {
                Some(run) => Ok(run.to_vec()),
                None => Err(HipoError::Io(std::io::Error::from(
                    std::io::ErrorKind::UnexpectedEof,
                ))),
            }
        }),
        len,
        "disk".to_string(),
    )
    .unwrap();
    assert_eq!(from_memory.path(), "mem");
    assert_eq!(from_disk.path(), "disk");
    assert!(reads.load(Ordering::Relaxed) > 0);

    assert_eq!(from_memory.dict().len(), from_disk.dict().len());
    assert_eq!(
        from_memory.dict().get("REC::Particle").unwrap().entries(),
        from_disk.dict().get("REC::Particle").unwrap().entries()
    );
    assert_eq!(from_memory.index().total_events(), 20);
    assert_eq!(from_disk.index().total_events(), 20);
    assert_eq!(from_memory.index().records().len(), 5);
    assert_eq!(from_disk.index().records().len(), 5);
    for (ra, rb) in from_memory
        .index()
        .records()
        .iter()
        .zip(from_disk.index().records())
    {
        let (h, a) = from_memory.read_record(ra.file_offset).unwrap();
        let (_, b) = from_disk.read_record(rb.file_offset).unwrap();
        assert_eq!(a, b);
        let at = ra.file_offset as usize;
        assert_eq!(a, bytes[at..at + ra.record_length as usize]);
        assert_eq!(h.event_count, 4);
    }

    let chain = open(bytes);
    assert_eq!(chain.event_count(), 20);
}

/// A row type with no ghost part.
struct Hit {
    pid: i32,
    px: Float32,
    lost: i16,
}

impl BankRow for Hit {
    const NAME: &'static str = "REC::Particle";
    const GROUP: u16 = 300;
    const ITEM: u8 = 1;

    type Handles = (ColumnHandle<i32>, ColumnHandle<Float32>, ColumnHandle<i16>);

    fn resolve_handles(schema: &Schema) -> Self::Handles {
        (
            schema.handle("pid").unwrap_or_else(|_| ColumnHandle::placeholder()),
            schema.handle("px").unwrap_or_else(|_| ColumnHandle::placeholder()),
            schema.handle("lost").unwrap_or_else(|_| ColumnHandle::placeholder()),
        )
    }

    fn from_row_with_handles(bank: &Bank<'_>, row: u32, handles: &Self::Handles) -> Self {
        Hit {
            pid: bank.read_handle_or_default(handles.0, row),
            px: bank.read_handle_or_default(handles.1, row),
            lost: bank.read_handle_or_default(handles.2, row),
        }
    }
}

#[test]
fn rows_of_a_type_of_the_caller() {
    let mut w = Writer::create().schemas(&sample_dict()).build().unwrap();
    w.event(|ev| {
        ev.bank("REC::Particle", |b| {
            b.row(|r| {
                r.set("pid", 11i32)?;
                r.set("px", f(0.5))?;
                Ok(())
            })?;
            Ok(())
        })?;
        Ok(())
    })
    .unwrap();
    let (bytes, _) = close(w);
    let chain = open(bytes);
    let ev = chain.event(0).unwrap();
    let mut rows = ev.rows::<Hit>();
    let hit = rows.next().unwrap();
    assert_eq!((hit.pid, hit.px, hit.lost), (11, f(0.5), 0));
    assert!(rows.next().is_none());
}

fn filter_dict() -> Dict {
    let mut d = Dict::new();
    d.add(Schema::from_columns(
        "REC::Particle",
        300,
        1,
        vec![("pid".into(), DataType::Int, 1)],
    ));
    d.add(Schema::from_columns(
        "REC::Calorimeter",
        332,
        11,
        vec![("e".into(), DataType::Float, 1)],
    ));
    d
}

#[test]
fn binds_known_names() {
    let d = filter_dict();
    let mut f = Filter::require(&["REC::Particle", "UNKNOWN"]);
    f.bind(&d);
    assert_eq!(f.required_ids(), vec![(300_u16, 1_u8)]);
}

#[test]
fn validate_rejects_unknown() {
    let d = filter_dict();
    let f = Filter::require(&["UNKNOWN"]);
    let err = f.validate(&d).unwrap_err();
    assert!(matches!(err, HipoError::UnknownSchema { .. }));
}

#[test]
fn validate_passes_for_known() {
    let d = filter_dict();
    let f = Filter::require(&["REC::Particle", "REC::Calorimeter"]);
    f.validate(&d).unwrap();
}

#[test]
fn record_tag_chained() {
    let f = Filter::require(&["REC::Particle"]).record_tag(&[1_u64, 2, 3]);
    assert_eq!(f.record_tags(), &[1, 2, 3]);
}

/// Two banks, the second in every third event only.
fn two_banks() -> Dict {
    let mut d = Dict::new();
    d.add(Schema::from_columns(
        "REC::Particle",
        300,
        31,
        vec![
            ("pid".into(), DataType::Int, 1),
            ("px".into(), DataType::Float, 1),
            ("charge".into(), DataType::Byte, 1),
            ("status".into(), DataType::Short, 1),
        ],
    ));
    d.add(Schema::from_columns(
        "REC::Calorimeter",
        332,
        11,
        vec![
            ("pindex".into(), DataType::Short, 1),
            ("energy".into(), DataType::Float, 3),
        ],
    ));
    d
}

fn two_bank_event(d: &Dict, n: i32) -> Vec<u8> {
    let mut eb = EventBuilder::new().with_tag(n as u32 % 4);
    let mut p = oxihipo::event::BankBuilder::new(d.get("REC::Particle").unwrap());
    for k in 0..(n % 3) {
        p.push_row()
            .set_i32("pid", 100 * n + k)
            .unwrap()
            .set_f32("px", f(n as f32 + 0.25 * k as f32))
            .unwrap()
            .set_i8("charge", (k - 1) as i8)
            .unwrap()
            .set_i16("status", -(n as i16))
            .unwrap();
    }
    eb.add(p).unwrap();
    if n % 3 == 2 {
        let mut c = oxihipo::event::BankBuilder::new(d.get("REC::Calorimeter").unwrap());
        for k in 0..4i16 {
            c.push_row()
                .set_i16("pindex", k % 2)
                .unwrap()
                .set_array("energy", &[f(1.0), f(k as f32), f(n as f32)])
                .unwrap();
        }
        eb.add(c).unwrap();
    }
    eb.finish()
}

fn two_bank_file(mode: Compression, from: i32, n: i32, per_record: u32) -> Vec<u8> {
    let d = two_banks();
    let mut w = Writer::create()
        .schemas(&d)
        .tag_registry(&TagRegistry::from_names(&[("low", 0), ("high bit", 1)]))
        .compression(mode)
        .max_record_events(per_record)
        .build()
        .unwrap();
    for e in from..from + n {
        w.append_raw(&two_bank_event(&d, e)).unwrap();
    }
    close(w).0
}

#[test]
fn events_read_back_in_every_layout() {
    let d = two_banks();
    for mode in MODES {
        let chain = open(two_bank_file(mode, 0, 20, 6));
        assert_eq!(chain.event_count(), 20);
        assert_eq!(chain.record_count(), 4);
        assert_eq!(chain.tag_registry().position("high bit"), Some(1));
        assert_eq!(chain.schemas().len(), 2);
        assert!(chain
            .schemas()
            .get("REC::Calorimeter")
            .unwrap()
            .same_as(d.get("REC::Calorimeter").unwrap()));
        let mut it = chain.events();
        for n in 0..20 {
            let ev = it.next().unwrap().unwrap();
            let written = two_bank_event(&d, n);
            assert_eq!(ev.bytes(), written, "{mode:?}, event {n}");
            assert_eq!(chain.event(n as u64).unwrap().bytes(), written);
            assert_eq!(ev.tag(), n as u32 % 4);
            let plain = OwnedEvent::new(written, Arc::clone(ev.dict()));
            for (bank, col) in [("REC::Particle", "pid"), ("REC::Calorimeter", "pindex")] {
                assert_eq!(ev.has(bank), plain.has(bank));
                assert_eq!(ev.bank(bank).is_some(), plain.bank(bank).is_some());
                assert_eq!(ev.get::<i32>(bank, col, 1), plain.get::<i32>(bank, col, 1));
            }
        }
        assert!(it.next().is_none());
        assert!(chain.event(20).is_none());
    }
}

#[test]
fn an_unfinished_file_is_walked() {
    for mode in MODES {
        let d = two_banks();
        let mut w = Writer::create()
            .schemas(&d)
            .options(
                WriterOptions::default()
                    .with_compression(mode)
                    .with_max_record_events(3),
            )
            .build()
            .unwrap();
        for e in 0..7 {
            w.append_raw(&two_bank_event(&d, e)).unwrap();
        }
        let bytes = w.take_bytes();
        let chain = open(bytes);
        assert_eq!(chain.event_count(), 6);
        assert_eq!(chain.event(5).unwrap().bytes(), two_bank_event(&d, 5));
        let header = chain.file_header().unwrap();
        assert_eq!(header.trailer_position, 0);
        assert!(!header.has_trailer_with_index());
    }
}

#[test]
fn a_damaged_header_can_be_salvaged() {
    let mut bytes = two_bank_file(Compression::Lz4, 0, 9, 4);
    bytes[0] ^= 0xff;
    let len = bytes.len() as u64;
    let err = FileInner::from_source(InMemory::new(bytes.clone()), len, "bad".to_string());
    assert!(matches!(
        err,
        Err(HipoError::BadMagic { .. }) | Err(HipoError::Path { .. })
    ));
    let inner =
        FileInner::salvage_from_source(InMemory::new(bytes), len, "bad".to_string()).unwrap();
    assert_eq!(inner.index().total_events(), 9);
    assert_eq!(inner.dict().len(), 2);
}

#[test]
fn a_file_that_is_too_short_is_no_file() {
    let err = FileInner::from_source(InMemory::new(vec![0; 20]), 20, "x".to_string()).unwrap_err();
    assert!(err.message().contains("too small: 20 bytes (need at least 56)"));
}

#[test]
fn reading_past_the_end_is_an_io_error() {
    let src = InMemory::new(vec![1, 2, 3, 4]);
    let mut buf = [0u8; 2];
    src.read_exact_at(&mut buf, 1).unwrap();
    assert_eq!(buf, [2, 3]);
    assert!(matches!(src.read_exact_at(&mut buf, 3), Err(HipoError::Io(_))));
}

#[test]
fn chains_number_events_across_files() {
    let chain = chain_of(vec![
        two_bank_file(Compression::Lz4PerColumn, 0, 5, 2),
        two_bank_file(Compression::Uncompressed, 5, 7, 3),
    ]);
    let d = two_banks();
    assert_eq!(chain.file_count(), 2);
    assert_eq!(chain.event_count(), 12);
    assert_eq!(chain.event_offsets(), &[0, 5, 12]);
    for n in 0..12u64 {
        assert_eq!(chain.event(n).unwrap().bytes(), two_bank_event(&d, n as i32));
    }
    assert_eq!(chain.locate(7), Some((1, 0, 2)));
    assert_eq!(chain.locate(12), None);
    let spans = chain.record_spans();
    assert_eq!(spans.len(), 6);
    assert_eq!((spans[3].file_index, spans[3].record_index), (1, 0));
    assert_eq!((spans[4].global_event_start, spans[4].event_count), (8, 3));
    let copy = chain.clone();
    assert_eq!(copy.event_count(), 12);
}

#[test]
fn files_that_contradict_each_other_make_no_chain() {
    let a = two_bank_file(Compression::Lz4, 0, 2, 2);
    let mut d = Dict::new();
    d.add(Schema::from_columns(
        "REC::Particle",
        300,
        31,
        vec![("pid".into(), DataType::Long, 1)],
    ));
    let w = Writer::create().schemas(&d).build().unwrap();
    let b = close(w).0;
    let mut inners = Vec::new();
    for bytes in [a, b] {
        let len = bytes.len() as u64;
        inners.push(Arc::new(
            FileInner::from_source(InMemory::new(bytes), len, "f".to_string()).unwrap(),
        ));
    }
    assert!(matches!(
        Chain::from_inners(inners),
        Err(HipoError::SchemaParse(_))
    ));
}

#[test]
fn filters_keep_events_with_the_banks_they_require() {
    for mode in MODES {
        let chain = open(two_bank_file(mode, 0, 20, 6))
            .with_filter(Filter::require(&["REC::Calorimeter"]))
            .unwrap();
        let mut it = chain.events();
        let mut tags: Vec<u32> = Vec::new();
        while let Some(ev) = it.next() {
            tags.push(ev.unwrap().tag());
        }
        let want: Vec<u32> = (0..20u32).filter(|n| n % 3 == 2).map(|n| n % 4).collect();
        assert_eq!(tags, want);
        assert_eq!(chain.event_tags(None).unwrap(), want);
        let stats = chain.for_each(|_ev| {}).unwrap();
        assert_eq!((stats.events_in, stats.events_yielded), (20, 6));
        assert_eq!((stats.records, stats.files), (4, 1));
    }
    assert!(matches!(
        open(two_bank_file(Compression::Lz4, 0, 2, 2)).with_filter(Filter::require(&["NOPE"])),
        Err(HipoError::UnknownSchema { .. })
    ));
}

#[test]
fn record_tags_select_records() {
    let d = two_banks();
    let mut w = Writer::create()
        .schemas(&d)
        .max_record_events(2)
        .build()
        .unwrap();
    for e in 0..6 {
        if e % 2 == 0 {
            w.flush_record().unwrap();
            w.set_user_word_1(e as u64);
        }
        w.append_raw(&two_bank_event(&d, e)).unwrap();
    }
    let bytes = close(w).0;
    let chain = open(bytes)
        .with_filter(Filter::new().record_tag(&[2]))
        .unwrap();
    let mut it = chain.events();
    let mut found = Vec::new();
    while let Some(ev) = it.next() {
        found.push(ev.unwrap().bytes());
    }
    assert_eq!(found, vec![two_bank_event(&d, 2), two_bank_event(&d, 3)]);
    assert_eq!(chain.build_tasks(), vec![(0, 1)]);
}

#[test]
fn ranges_visit_each_event_once() {
    let chain = chain_of(vec![
        two_bank_file(Compression::Lz4PerBank, 0, 10, 4),
        two_bank_file(Compression::Gzip, 10, 10, 4),
    ]);
    let stats = chain.for_each_ranges(&[3..6, 5..9, 18..40, 7..7], |_ev| {}).unwrap();
    assert_eq!(stats.events_yielded, 8);
    assert_eq!(stats.events_in, 8);
    assert_eq!(stats.records, 4);
    let stats = chain.for_each_range(0..20, |_ev| {}).unwrap();
    assert_eq!((stats.events_yielded, stats.records), (20, 6));
}

#[test]
fn columns_are_read_whole() {
    for mode in MODES {
        let chain = chain_of(vec![
            two_bank_file(mode, 0, 10, 4),
            two_bank_file(mode, 10, 5, 4),
        ]);
        let out = chain
            .read_columns(
                &[
                    ("REC::Particle", &["pid", "charge"]),
                    ("REC::Calorimeter", &["energy"]),
                ],
                None,
            )
            .unwrap();
        assert_eq!(out.len(), 2);
        assert_eq!(out[0].event_count(), 15);
        let mut rows = 0i64;
        let mut want = Vec::new();
        for n in 0..15i32 {
            assert_eq!(out[0].offsets[n as usize], rows);
            for k in 0..(n % 3) {
                want.push(100 * n + k);
                rows += 1;
            }
        }
        assert_eq!(out[0].total_rows(), rows);
        assert_eq!(out[0].columns[0].data, ColumnData::I32(want));
        assert_eq!(out[0].columns[1].data.data_type(), DataType::Byte);
        assert_eq!(out[1].columns[0].inner_len, 3);
        assert_eq!(out[1].columns[0].data.len(), 5 * 4 * 3);

        let (offsets, pids) = chain
            .read_column_typed::<i32>("REC::Particle", "pid", Some(4..8))
            .unwrap();
        assert_eq!(offsets, vec![0, 1, 3, 3, 4]);
        assert_eq!(pids, vec![400, 500, 501, 700]);
        assert_eq!(
            chain
                .column_values::<[Float32; 3]>("REC::Calorimeter", "energy", Some(2..3))
                .unwrap()[3],
            [f(1.0), f(3.0), f(2.0)]
        );
        assert!(matches!(
            chain.column_values::<i32>("REC::Particle", "px", None),
            Err(HipoError::TypeMismatch { .. })
        ));
    }
}

#[test]
fn columns_are_read_at_chosen_events() {
    for mode in MODES {
        let chain = open(two_bank_file(mode, 0, 12, 5));
        let out = chain
            .read_columns_at(&[("REC::Particle", &["pid"])], &[11, 2, 2, 4])
            .unwrap();
        assert_eq!(out[0].offsets, vec![0, 2, 4, 6, 7]);
        assert_eq!(
            out[0].columns[0].data,
            ColumnData::I32(vec![1100, 1101, 200, 201, 200, 201, 400])
        );
        let out = chain
            .read_columns_at(&[("REC::Particle", &["pid"])], &[12, 1])
            .unwrap();
        assert_eq!(out[0].offsets, vec![0, 0, 1]);
        assert!(matches!(
            chain.read_columns_at(&[("NOPE", &["pid"])], &[1]),
            Err(HipoError::UnknownSchema { .. })
        ));
    }
}

#[test]
fn a_column_is_swept() {
    for mode in MODES {
        let chain = open(two_bank_file(mode, 0, 12, 5));
        let mut seen: Vec<i32> = Vec::new();
        chain
            .for_each_column::<i32, _>("REC::Particle", "pid", |v: &[i32]| {
                seen.extend_from_slice(v);
            })
            .unwrap();
        let mut want = Vec::new();
        for n in 0..12 {
            for k in 0..(n % 3) {
                want.push(100 * n + k);
            }
        }
        assert_eq!(seen, want, "{mode:?}");
        assert!(matches!(
            chain.for_each_column::<i32, _>("REC::Particle", "nope", |_v: &[i32]| {}),
            Err(HipoError::UnknownColumn { .. })
        ));
    }
}

#[test]
fn occupancy_counts_rows() {
    for mode in MODES {
        let chain = open(two_bank_file(mode, 0, 12, 5));
        let o = chain.bank_occupancy(None).unwrap();
        assert_eq!(o.events_scanned, 12);
        assert_eq!(o.banks[0].name, "REC::Particle");
        assert_eq!(
            (o.banks[0].events, o.banks[0].total_rows, o.banks[0].max_rows),
            (8, 12, 2)
        );
        assert_eq!(
            (o.banks[1].events, o.banks[1].total_rows, o.banks[1].max_rows),
            (4, 16, 4)
        );
        let o = chain.bank_occupancy(Some(2..3)).unwrap();
        assert_eq!((o.events_scanned, o.banks[1].total_rows), (1, 4));
    }
}

#[test]
fn tags_are_patched_in_place() {
    let mut bytes = two_bank_file(Compression::Uncompressed, 0, 9, 4);
    let before = open(bytes.clone());
    let patches = before.tag_patches(&[(6, 77), (0, 5)]).unwrap();
    assert_eq!(patches.len(), 2);
    for p in &patches {
        let at = p.offset as usize;
        bytes[at..at + 4].copy_from_slice(&p.tag.to_le_bytes());
    }
    let after = open(bytes);
    for n in 0..9u64 {
        let tag = match n {
            6 => 77,
            0 => 5,
            _ => n as u32 % 4,
        };
        assert_eq!(after.event(n).unwrap().tag(), tag);
    }
    assert!(matches!(
        before.tag_patches(&[(9, 1)]),
        Err(HipoError::EventIndexOutOfRange { index: 9, total: 9 })
    ));
    let packed = open(two_bank_file(Compression::Lz4, 0, 9, 4));
    assert!(matches!(
        packed.tag_patches(&[(1, 1)]),
        Err(HipoError::InPlaceTagUnsupported { compression: "lz4", .. })
    ));
}

#[test]
fn a_skim_copies_what_passes() {
    let d = two_banks();
    for from in [Compression::Lz4PerColumn, Compression::Lz4PerBank, Compression::Gzip] {
        let chain = open(two_bank_file(from, 0, 20, 6))
            .with_filter(Filter::require(&["REC::Calorimeter"]))
            .unwrap();
        let mut w = chain.skim_writer(Compression::Lz4).unwrap();
        let mut events = chain.events();
        let mut n = 0;
        while copy_next(&mut events, &mut w).unwrap() {
            n += 1;
        }
        assert_eq!(n, 6);
        let (bytes, summary) = close(w);
        assert_eq!(summary.events, 6);
        let copy = open(bytes);
        assert_eq!(copy.schemas().len(), 2);
        assert_eq!(copy.tag_registry().position("low"), Some(0));
        for (k, n) in (0..20).filter(|n| n % 3 == 2).enumerate() {
            assert_eq!(copy.event(k as u64).unwrap().bytes(), two_bank_event(&d, n));
        }
    }
}

#[test]
fn a_skim_in_memory_is_the_same_file() {
    for mode in MODES {
        let chain = open(two_bank_file(Compression::Lz4PerBank, 0, 20, 6))
            .with_filter(Filter::require(&["REC::Calorimeter"]))
            .unwrap();
        let (bytes, summary) = chain.skim(mode).unwrap();
        let mut w = chain.skim_writer(mode).unwrap();
        let mut events = chain.events();
        while copy_next(&mut events, &mut w).unwrap() {}
        let (stepwise, other) = close(w);
        assert_eq!(bytes, stepwise);
        assert_eq!(summary, other);
        assert_eq!(summary.events, 6);
        assert_eq!(summary.bytes, bytes.len() as u64);
        assert_eq!(open(bytes).event_count(), 6);
    }
}

#[test]
fn a_failing_read_is_never_taken_for_data() {
    let bytes = two_bank_file(Compression::Lz4, 0, 20, 6);
    let len = bytes.len() as u64;
    let broken = Arc::new(AtomicUsize::new(0));
    let switch = broken.clone();
    let source = FnSource::new(move |offset: u64, n: usize| {
        let start = offset as usize;
        match bytes.get(start..start + n) {
            Some(run) if switch.load(Ordering::Relaxed) == 0 => Ok(run.to_vec()),
            _ => Err(HipoError::Io(std::io::Error::from(
                std::io::ErrorKind::TimedOut,
            ))),
        }
    });
    let inner = FileInner::from_reader(source, len, "net".to_string()).unwrap();
    let chain = Chain::from_inners(vec![Arc::new(inner)]).unwrap();
    assert!(chain.event(3).is_some());
    assert_eq!(chain.event_tags(None).unwrap().len(), 20);
    broken.store(1, Ordering::Relaxed);
    // The record that was decoded last is still at hand; no other is.
    assert!(chain.event(3).is_some());
    assert!(chain.event(13).is_none());
    assert!(matches!(chain.events().next(), Some(Err(HipoError::Io(_)))));
    assert!(matches!(chain.event_tags(None), Err(HipoError::Io(_))));
    assert!(matches!(
        chain.read_columns(&[("REC::Particle", &["pid"])], None),
        Err(HipoError::Io(_))
    ));
    assert!(matches!(
        chain.read_columns(&[("REC::Nothing", &[])], None),
        Err(HipoError::UnknownSchema { .. })
    ));
    assert!(matches!(
        chain.skim(Compression::Lz4),
        Err(HipoError::Io(_))
    ));
    assert_eq!(chain.event_count(), 20);
}

#[test]
fn a_skim_can_tag_anew() {
    let chain = open(two_bank_file(Compression::Lz4, 0, 6, 6));
    let mut w = chain
        .retag_writer(Compression::Lz4PerColumn, &[("even", 0), ("odd", 1)])
        .unwrap();
    let mut events = chain.events();
    let mut n = 0u32;
    while let Some(ev) = events.next() {
        append_tagged(&mut w, &ev.unwrap(), 1 << (n % 2)).unwrap();
        n += 1;
    }
    let copy = open(close(w).0);
    assert_eq!(copy.event_tags(None).unwrap(), vec![1, 2, 1, 2, 1, 2]);
    assert_eq!(copy.tag_registry().position("odd"), Some(1));
    assert_eq!(copy.tag_registry().position("low"), None);
    let d = two_banks();
    let again = retag(two_bank_event(&d, 5), 9);
    assert_eq!(Event::new(&again).tag(), 9);
    assert_eq!(again[12..], two_bank_event(&d, 5)[12..]);
}

#[test]
fn tag_names_that_cannot_be_stored_stop_the_writer() {
    assert!(matches!(
        Writer::create().tag_names(&[("a=b", 1)]).build(),
        Err(HipoError::InvalidTagName { .. })
    ));
}

#[test]
fn an_event_that_fails_is_not_appended() {
    let mut w = Writer::create().schemas(&sample_dict()).build().unwrap();
    assert!(w
        .event(|_ev| Err(HipoError::InvalidUsage { what: "no" }))
        .is_err());
    assert!(w
        .event(|ev| {
            ev.bank("REC::Particle", |b| {
                b.row(|r| {
                    r.set("pid", 1i64)?;
                    Ok(())
                })
            })?;
            Ok(())
        })
        .is_err());
    let (_, summary) = close(w);
    assert_eq!((summary.events, summary.records), (0, 0));
}

#[test]
fn rows_are_read_as_values() {
    for mode in MODES {
        let chain = open(two_bank_file(mode, 0, 6, 3));
        let ev = chain.event(5).unwrap();
        let mut rows = ev.rows::<RecParticle>();
        assert_eq!(rows.len(), 2);
        let first = rows.next().unwrap();
        assert_eq!((first.pid, first.px, first.charge, first.status), (500, f(5.0), -1, -5));
        assert_eq!(first.beta, f(0.0));
        let second = rows.next().unwrap();
        assert_eq!((second.pid, second.px, second.charge), (501, f(5.25), 0));
        assert!(rows.next().is_none());
        assert!(ev.rows_for_pindex::<RecParticle>(0).next().is_none());

        let bank = ev.bank("REC::Calorimeter").unwrap();
        let index = PindexIndex::build_from_column(&bank, "pindex").unwrap();
        assert_eq!(index.rows_for(0), vec![0, 2]);
        assert_eq!(index.rows_for(1), vec![1, 3]);
        assert_eq!(index.rows_for(2), Vec::<u32>::new());
        assert!(PindexIndex::build_from_column(&bank, "index").is_none());
    }
}

#[test]
fn a_corrupt_record_is_an_error_once() {
    let mut bytes = two_bank_file(Compression::Lz4, 0, 9, 3);
    let second = open(bytes.clone()).file(0).index().records()[1];
    let at = second.file_offset as usize + RECORD_HEADER_SIZE;
    for b in &mut bytes[at..at + 20] {
        *b = 0xff;
    }
    let chain = open(bytes);
    let mut it = chain.events();
    for _ in 0..3 {
        it.next().unwrap().unwrap();
    }
    assert!(it.next().unwrap().is_err());
    assert!(it.next().is_none());
    assert!(chain.event(4).is_none());
    assert!(chain.event(7).is_some());
    assert!(chain.for_each(|_ev| {}).is_err());
    assert!(chain.read_columns(&[("REC::Particle", &["pid"])], None).is_err());
    assert!(chain.read_columns(&[("REC::Particle", &["pid"])], Some(0..3)).is_ok());
}

#[test]
fn errors_say_what_and_where() {
    let e = HipoError::CorruptRecord { offset: 0, reason: "bad" };
    assert_eq!(e.at_offset(0x1f0).message(), "corrupt record at offset 0x1f0: bad");
    let e = HipoError::BadMagic { offset: 28, found: 0xab, expected: 0xc0da_0100 };
    assert_eq!(
        e.at_offset(0x1000).message(),
        "invalid HIPO magic at offset 0x101c: got 0x000000ab, expected 0xc0da0100"
    );
    let e = HipoError::Compression("short").at_offset(16).at_offset(99);
    assert_eq!(
        e.with_path("a b.hipo".to_string()).message(),
        "file \"a b.hipo\": record at offset 0x10: compression error: short"
    );
    let e = HipoError::EventIndexOutOfRange { index: 10, total: 7 };
    assert_eq!(e.message(), "event index 10 out of range: the chain has 7 events");
}

#[test]
fn a_record_that_is_none_cannot_be_written() {
    let mut w = Writer::create().schemas(&sample_dict()).build().unwrap();
    assert!(w.write_record(vec![1, 2, 3]).is_err());
    let whole = two_bank_file(Compression::Lz4, 0, 3, 3);
    let chain = open(whole);
    let span = chain.file(0).index().records()[0];
    let (_, record) = chain.file(0).read_record(span.file_offset).unwrap();
    w.write_record(record).unwrap();
    let (bytes, summary) = close(w);
    assert_eq!((summary.records, summary.events), (1, 3));
    assert_eq!(open(bytes).event_count(), 3);
}

/// A file of one bank of its own, in columns.
fn own_bank_file(name: &str, group: u16, from: i32, n: i32) -> Vec<u8> {
    let mut d = Dict::new();
    d.add(Schema::from_columns(
        name,
        group,
        1,
        vec![("a".into(), DataType::Int, 1), ("b".into(), DataType::Short, 1)],
    ));
    let mut w = Writer::create()
        .schemas(&d)
        .compression(Compression::Lz4PerColumn)
        .max_record_events(2)
        .build()
        .unwrap();
    for e in from..from + n {
        let mut eb = EventBuilder::new();
        let mut b = oxihipo::event::BankBuilder::new(d.get(name).unwrap());
        b.push_row().set_i32("a", e).unwrap().set_i16("b", -(e as i16)).unwrap();
        eb.add(b).unwrap();
        w.append_raw(&eb.finish()).unwrap();
    }
    close(w).0
}

#[test]
fn files_with_dictionaries_of_their_own_are_walked_and_copied() {
    let chain = chain_of(vec![
        own_bank_file("X::One", 20, 0, 3),
        own_bank_file("Y::Two", 21, 3, 4),
    ]);
    let mut walk = chain.events();
    for n in 0..7u64 {
        let ev = walk.next().unwrap().unwrap();
        let name = if n < 3 { "X::One" } else { "Y::Two" };
        assert_eq!(ev.bank(name).unwrap().get::<i32>("a", 0), n as i32);
        assert_eq!(ev.bytes(), chain.event(n).unwrap().bytes());
    }
    assert!(walk.next().is_none());
    assert!(chain.event(7).is_none());

    let (bytes, summary) = chain.skim(Compression::Lz4).unwrap();
    assert_eq!(summary.events, 7);
    let copy = open(bytes);
    for n in 0..7u64 {
        assert_eq!(copy.event(n).unwrap().bytes(), chain.event(n).unwrap().bytes());
    }
}

#[test]
fn a_chain_keeps_the_record_it_decoded_last() {
    let bytes = two_bank_file(Compression::Lz4, 0, 20, 6);
    let len = bytes.len() as u64;
    let reads = Arc::new(AtomicUsize::new(0));
    let broken = Arc::new(AtomicUsize::new(0));
    let (count, switch) = (reads.clone(), broken.clone());
    let source = FnSource::new(move |offset: u64, n: usize| {
        count.fetch_add(1, Ordering::Relaxed);
        let start = offset as usize;
        match bytes.get(start..start + n) {
            Some(run) if switch.load(Ordering::Relaxed) == 0 => Ok(run.to_vec()),
            _ => Err(HipoError::Io(std::io::Error::from(std::io::ErrorKind::TimedOut))),
        }
    });
    let inner = FileInner::from_source(source, len, "net".to_string()).unwrap();
    let chain = Chain::from_inners(vec![Arc::new(inner)]).unwrap();
    let d = two_banks();
    assert_eq!(chain.event(2).unwrap().bytes(), two_bank_event(&d, 2));
    let once = reads.load(Ordering::Relaxed);
    for n in [0u64, 5, 1, 4, 3] {
        assert_eq!(chain.event(n).unwrap().bytes(), two_bank_event(&d, n as i32));
    }
    assert_eq!(reads.load(Ordering::Relaxed), once);
    assert_eq!(chain.event(6).unwrap().bytes(), two_bank_event(&d, 6));
    assert!(reads.load(Ordering::Relaxed) > once);
    broken.store(1, Ordering::Relaxed);
    // Copies share what is kept.
    let copy = chain.clone();
    assert_eq!(copy.event(9).unwrap().bytes(), two_bank_event(&d, 9));
    assert_eq!(chain.event(11).unwrap().bytes(), two_bank_event(&d, 11));
    assert!(chain.event(12).is_none());
    assert!(chain.event(20).is_none());
    assert_eq!(chain.event(7).unwrap().bytes(), two_bank_event(&d, 7));
}

#[test]
fn no_record_holds_more_events_than_asked_for() {
    let counts = |per_record: u32| -> Vec<u32> {
        open(two_bank_file(Compression::Lz4PerBank, 0, 10, per_record))
            .file(0)
            .index()
            .records()
            .iter()
            .map(|r| r.event_count)
            .collect()
    };
    assert_eq!(counts(4), vec![4, 4, 2]);
    assert_eq!(counts(0), vec![1; 10]);
    assert_eq!(counts(100), vec![10]);
}

#[test]
fn an_offset_that_is_known_stays() {
    let e = HipoError::CorruptRecord { offset: 0x40, reason: "bad" };
    assert_eq!(e.at_offset(0x1f0).message(), "corrupt record at offset 0x40: bad");
}

#[test]
fn a_file_without_a_dictionary_is_salvaged() {
    let mut w = Writer::create()
        .compression(Compression::Lz4)
        .max_record_events(2)
        .build()
        .unwrap();
    let d = two_banks();
    for n in 0..5 {
        w.append_raw(&two_bank_event(&d, n)).unwrap();
    }
    let (mut bytes, _) = close(w);
    for b in &mut bytes[..56] {
        *b = 0;
    }
    let len = bytes.len() as u64;
    assert!(FileInner::from_source(InMemory::new(bytes.clone()), len, "z".to_string()).is_err());
    let inner =
        FileInner::salvage_from_source(InMemory::new(bytes), len, "z".to_string()).unwrap();
    assert_eq!(inner.index().records().len(), 3);
    let chain = Chain::from_inners(vec![Arc::new(inner)]).unwrap();
    assert_eq!(chain.event_count(), 5);
    assert_eq!(chain.event(4).unwrap().bytes(), two_bank_event(&d, 4));
}

#[test]
fn overlapping_ranges_are_counted_once() {
    let chain = open(two_bank_file(Compression::Lz4, 0, 20, 6));
    let stats = chain.for_each_ranges(&[2..9, 5..12, 18..40, 3..4], |_ev| {}).unwrap();
    assert_eq!(stats.events_in, 12);
    assert_eq!(chain.for_each(|_ev| {}).unwrap().events_in, 20);
}

#[test]
fn a_sweep_hands_out_the_values_of_the_column() {
    for mode in MODES {
        let chain = open(two_bank_file(mode, 0, 20, 6));
        let all = chain.column_values::<i32>("REC::Particle", "pid", None).unwrap();
        let swept = std::sync::Mutex::new(Vec::new());
        chain
            .for_each_column::<i32, _>("REC::Particle", "pid", |run: &[i32]| {
                swept.lock().unwrap().extend_from_slice(run);
            })
            .unwrap();
        assert_eq!(swept.into_inner().unwrap(), all);
        assert_eq!(all.len(), 19);
    }
}

#[test]
fn a_read_of_columns_gives_the_same_again() {
    for mode in MODES {
        let chain = open(two_bank_file(mode, 0, 20, 6));
        let selection: [(&str, &[&str]); 2] =
            [("REC::Particle", &["pid", "px"]), ("REC::Calorimeter", &[])];
        assert_eq!(
            chain.read_columns(&selection, Some(3..17)).unwrap(),
            chain.read_columns(&selection, Some(3..17)).unwrap()
        );
        let every: Vec<u64> = (3..17).collect();
        assert_eq!(
            chain.read_columns(&selection, Some(3..17)).unwrap(),
            chain.read_columns_at(&selection, &every).unwrap()
        );
    }
}

#[test]
fn a_scan_hands_out_what_the_filter_lets_through() {
    for mode in MODES {
        let chain = open(two_bank_file(mode, 0, 20, 6))
            .with_filter(Filter::require(&["REC::Calorimeter"]))
            .unwrap();
        let seen = AtomicUsize::new(0);
        chain
            .for_each(|ev| {
                assert!(ev.has("REC::Calorimeter"));
                assert_eq!(ev.col::<i16>("REC::Calorimeter", "pindex").unwrap(), vec![0, 1, 0, 1]);
                seen.fetch_add(1, Ordering::Relaxed);
            })
            .unwrap();
        assert_eq!(seen.load(Ordering::Relaxed), 6);

        let pids = std::sync::Mutex::new(Vec::new());
        chain
            .for_each_ranges(&[4..9, 11..12], |ev| {
                pids.lock().unwrap().push(ev.get::<i32>("REC::Particle", "pid", 0));
            })
            .unwrap();
        assert_eq!(pids.into_inner().unwrap(), vec![500, 800, 1100]);
    }
}

#[test]
fn a_refused_sweep_visits_nothing() {
    let chain = open(two_bank_file(Compression::Lz4PerColumn, 0, 12, 5));
    let mut visits = 0;
    let mut count = |_v: &[i16]| visits += 1;
    assert!(matches!(
        chain.for_each_column::<i16, _>("NOPE", "pid", &mut count),
        Err(HipoError::UnknownSchema { .. })
    ));
    assert!(matches!(
        chain.for_each_column::<i16, _>("REC::Particle", "nope", &mut count),
        Err(HipoError::UnknownColumn { .. })
    ));
    assert!(matches!(
        chain.for_each_column::<i16, _>("REC::Particle", "pid", &mut count),
        Err(HipoError::TypeMismatch { .. })
    ));
    assert_eq!(visits, 0);
}

#[test]
fn a_contradiction_names_the_file_and_the_bank() {
    let file = |label: &str, name: &str, group: u16, ty: DataType| {
        let mut d = Dict::new();
        d.add(Schema::from_columns(name, group, 1, vec![("a".into(), ty, 1)]));
        let bytes = close(Writer::create().schemas(&d).build().unwrap()).0;
        let len = bytes.len() as u64;
        Arc::new(FileInner::from_source(InMemory::new(bytes), len, label.to_string()).unwrap())
    };
    let text = |files: Vec<Arc<FileInner<InMemory>>>| match Chain::from_inners(files) {
        Err(HipoError::SchemaParse(msg)) => msg,
        _ => panic!("no contradiction"),
    };
    assert_eq!(
        text(vec![
            file("one.hipo", "X::A", 7, DataType::Int),
            file("two.hipo", "X::A", 7, DataType::Short),
        ]),
        "chain file two.hipo declares bank X::A with a different layout than an earlier file; \
         reading them together would decode columns against the wrong schema"
    );
    assert_eq!(
        text(vec![
            file("one.hipo", "X::A", 7, DataType::Int),
            file("two.hipo", "X::B", 7, DataType::Int),
        ]),
        "chain file two.hipo declares bank X::B with id (7, 1), which an earlier file already \
         uses for X::A; banks are located by id, so one would be decoded as the other"
    );
}

#[test]
fn a_lost_column_leaves_the_others() {
    let mut bytes = two_bank_file(Compression::Lz4PerColumn, 0, 6, 6);
    let at = open(bytes.clone()).file(0).index().records()[0].file_offset as usize;
    let header = RecordHeader::parse(&bytes[at..]).unwrap();
    let end = at + header.record_length as usize - header.compressed_data_padding as usize;
    let section = &bytes[at + RECORD_HEADER_SIZE..end];
    let (banks, events) = (read_u32_le(section, 4) as usize, read_u32_le(section, 8) as usize);
    let packed = read_u32_le(section, 12) as usize;
    let dir_len = read_u32_le(section, 16) as usize;
    let dir = inflate_stream(CompressionType::Lz4, &section[20..20 + packed], dir_len).unwrap();
    // The last stream is the last column of the bank with the largest id.
    let table = 6 * banks + 4 * events + events * banks.div_ceil(8) + 4 * banks * events;
    let streams = (dir.len() - table) / 8;
    let last = read_u32_le(&dir, table + 8 * (streams - 1)) as usize;
    for b in &mut bytes[end - last..end] {
        *b = 0xff;
    }

    let chain = open(bytes);
    let ev = chain.event(5).unwrap();
    assert_eq!(ev.get::<i32>("REC::Particle", "pid", 1), 501);
    let bank = ev.bank("REC::Calorimeter").unwrap();
    assert_eq!(bank.rows(), 4);
    assert_eq!(bank.col::<i16>("pindex").unwrap(), vec![0, 1, 0, 1]);
    assert_eq!(bank.get::<[Float32; 3]>("energy", 1), [f(0.0); 3]);
    let lost = |e: HipoError| {
        matches!(
            e,
            HipoError::CorruptRecord { reason: "Lz4PerColumn: column stream cannot be read", .. }
        )
    };
    assert!(lost(bank.col::<[Float32; 3]>("energy").unwrap_err()));
    assert!(lost(bank.array_at::<Float32>("energy", 0).unwrap_err()));

    let ctx = ev.ctx();
    assert!(ctx.column_bank("REC::Calorimeter").is_some());
    assert!(ctx.column_bank("NOPE").is_none());
    assert_eq!(ctx.col::<i16>("REC::Calorimeter", "pindex").unwrap(), vec![0, 1, 0, 1]);
    assert_eq!(ctx.get::<i16>("REC::Calorimeter", "pindex", 3), 1);
    assert_eq!(ctx.get::<i16>("REC::Calorimeter", "pindex", 4), 0);
    assert_eq!(ctx.get::<[Float32; 3]>("REC::Calorimeter", "energy", 1), [f(0.0); 3]);
    assert!(lost(ctx.col::<[Float32; 3]>("REC::Calorimeter", "energy").unwrap_err()));
    assert!(matches!(
        ctx.col::<i32>("REC::Calorimeter", "pindex"),
        Err(HipoError::TypeMismatch { .. })
    ));

    assert!(chain.read_columns(&[("REC::Calorimeter", &["pindex"])], None).is_ok());
    assert!(chain.read_columns(&[("REC::Calorimeter", &["energy"])], None).is_err());
}

#[test]
fn a_bank_read_column_by_column_is_the_bank() {
    for mode in MODES {
        let chain = open(two_bank_file(mode, 0, 9, 4));
        for n in 0..9 {
            let ev = chain.event(n).unwrap();
            let ctx = ev.ctx();
            match ctx.column_bank("REC::Particle") {
                Some(b) => {
                    assert_eq!(mode, Compression::Lz4PerColumn);
                    let whole = ctx.bank("REC::Particle").unwrap();
                    assert_eq!(b.rows(), whole.rows());
                    assert_eq!(b.col::<i32>("pid").unwrap(), whole.col::<i32>("pid").unwrap());
                    assert_eq!(b.get::<i8>("charge", 1), whole.get::<i8>("charge", 1));
                }
                None => assert!(mode != Compression::Lz4PerColumn || !ctx.has("REC::Particle")),
            }
        }
    }
}

#[test]
fn records_can_be_counted_apart() {
    for mode in MODES {
        let chain = chain_of(vec![two_bank_file(mode, 0, 12, 5), two_bank_file(mode, 12, 7, 5)]);
        let mut halves = [chain.no_tally(), chain.no_tally()];
        for (k, (f, rec)) in chain.build_tasks().into_iter().enumerate() {
            halves[k % 2].merge(&chain.record_tally(f, rec, Some((1, 18))).unwrap());
        }
        let [mut total, rest] = halves;
        total.merge(&rest);
        assert_eq!(total.events, 17);
        assert_eq!(chain.occupancy_of(&total), chain.bank_occupancy(Some(1..18)).unwrap());
    }
}

#[test]
fn chosen_events_can_be_read_record_by_record() {
    let chain = open(two_bank_file(Compression::Lz4PerBank, 0, 12, 5));
    let entries = [11u64, 2, 40, 2, 4];
    let selection: [(&str, &[&str]); 2] =
        [("REC::Particle", &["pid"]), ("REC::Calorimeter", &["pindex"])];
    let plan = build_plan(chain.schemas(), &selection).unwrap();
    let mut chunks: Vec<_> = entries.iter().map(|_| absent_chunk(&plan)).collect();
    let groups = chain.group_entries(&entries);
    assert_eq!(groups.len(), 2);
    for g in groups.iter().rev() {
        let shares = chain
            .process_record_entries(g.file, g.record, &plan, &g.wanted)
            .unwrap();
        place_shares(shares, &mut chunks);
    }
    let apart = merge_chunks(&plan, &chunks).unwrap();
    assert_eq!(apart, chain.read_columns_at(&selection, &entries).unwrap());
    assert_eq!(apart[0].event_count(), apart[1].event_count());
}
