use std::sync::Arc;

use oxihipo::event::{BankBuilder, Event, EventBuilder, EventCtx};
use oxihipo::read::inner::FileInner;
use oxihipo::read::{ColumnData, InMemory};
use oxihipo::schema::{DataType, Dict, Float32, Float64, Schema};
use oxihipo::wire::bytes::read_i32_le;
use oxihipo::wire::constants::HeaderType;
use oxihipo::write::{Writer, WriterOptions};
use oxihipo::{Bank, Chain, Compression, Filter};

fn dict() -> Dict {
    let mut d = Dict::new();
    d.add(Schema::from_columns(
        "A::B",
        7,
        3,
        vec![
            ("x".into(), DataType::Double, 1),
            ("n".into(), DataType::Short, 1),
        ],
    ));
    d
}

fn event(x: f64, n: i16) -> Vec<u8> {
    let d = dict();
    let mut bank = BankBuilder::new(d.get("A::B").unwrap());
    bank.push_row()
        .set_f64("x", Float64 { bits: x.to_bits() })
        .unwrap()
        .set_i16("n", n)
        .unwrap();
    let mut ev = EventBuilder::new();
    ev.add_bank(&bank).unwrap();
    ev.finish()
}

#[test]
fn a_bank_added_to_an_event_is_found_there() {
    let d = dict();
    let bytes = event(0.25, -4);
    let ev = Event::new(&bytes);
    let (_, data) = ev.find(7, 3).unwrap();
    let bank = Bank::new(d.get("A::B").unwrap(), data).unwrap();
    assert_eq!(bank.rows(), 1);
    assert_eq!(
        bank.get::<Float64>("x", 0),
        Float64 { bits: 0.25f64.to_bits() }
    );
    assert_eq!(bank.get::<i16>("n", 0), -4);
}

#[test]
fn an_owned_event_outlives_its_view() {
    let d = Arc::new(dict());
    let owned = {
        let bytes = event(1.5, 9);
        EventCtx::new(Event::new(&bytes), &d).to_owned_with(d.clone())
    };
    assert_eq!(owned.bytes(), event(1.5, 9));
}

#[test]
fn decompressed_sizes_count_the_index_and_the_events() {
    for mode in [Compression::Uncompressed, Compression::Lz4, Compression::Gzip] {
        let mut w = Writer::create()
            .schemas(&dict())
            .compression(mode)
            .max_record_events(2)
            .build()
            .unwrap();
        for n in 0..3 {
            w.append_raw(&event(0.5, n)).unwrap();
        }
        let done = w.finish().unwrap();
        let mut bytes = done.rest;
        bytes[..56].copy_from_slice(&done.header);
        let len = bytes.len() as u64;
        let inner = FileInner::from_source(InMemory::new(bytes), len, "m".to_string()).unwrap();
        let chain = Chain::from_inners(vec![Arc::new(inner)]).unwrap();
        let one = event(0.5, 0).len() as u64;
        assert_eq!(
            chain.record_decompressed_sizes().unwrap(),
            vec![8 + 2 * one, 4 + one]
        );
        assert!(chain.user_config().is_empty());
    }
}

#[test]
fn a_filter_tells_what_it_asks_for() {
    assert!(!Filter::default().is_active());
    let f = Filter::require(&["A::B", "C::D"]);
    assert!(f.is_active());
    assert_eq!(f.required_names(), ["A::B".to_string(), "C::D".to_string()]);
}

#[test]
fn column_data_takes_values_of_its_own_type_alone() {
    let mut c = ColumnData::empty_for(DataType::Short);
    c.push_i8(1);
    c.push_i16(2);
    c.push_i32(3);
    c.push_i64(4);
    c.push_f32(Float32 { bits: 5 });
    c.push_f64(Float64 { bits: 6 });
    c.push_i16(7);
    assert_eq!(c, ColumnData::I16(vec![2, 7]));
    assert_eq!(ColumnData::empty_for(DataType::Double), ColumnData::F64(vec![]));
}

#[test]
fn header_kinds_stand_in_the_top_four_bits() {
    assert!(matches!(
        HeaderType::from_bit_info(0x5000_0006),
        Some(HeaderType::HipoFile)
    ));
    assert!(matches!(
        HeaderType::from_bit_info(0x4fff_ffff),
        Some(HeaderType::HipoRecord)
    ));
    assert!(HeaderType::from_bit_info(0xf000_0000).is_none());
    assert_eq!(read_i32_le(&[0, 0xfe, 0xff, 0xff, 0xff], 1), -2);
}

#[test]
fn a_writer_from_a_dictionary_and_options() {
    let options = WriterOptions::default().with_compression(Compression::Uncompressed);
    let mut w = Writer::create_with(&dict(), options).unwrap();
    assert_eq!(w.schemas().len(), 1);
    assert_eq!(w.options().compression, Compression::Uncompressed);
    w.append_raw(&event(0.5, 1)).unwrap();
    assert_eq!(w.finish().unwrap().summary.events, 1);
}
