use std::sync::Arc;

use oxihipo::event::{Bank, BankBuilder, Event, EventBuilder, OwnedEvent};
use oxihipo::fuzz_api::walk_structures;
use oxihipo::schema::{DataType, Dict, Float32, Schema};
use oxihipo::wire::bytes::write_u32_le;
use oxihipo::wire::constants::{BANK_STRUCTURE_SIZE, EH_SIZE, EVENT_HEADER_SIZE};

fn f(x: f32) -> Float32 {
    Float32 { bits: x.to_bits() }
}

fn build_event(structures: &[(u16, u8, &[u8])]) -> Vec<u8> {
    let mut buf = vec![0u8; EVENT_HEADER_SIZE];
    buf[0..4].copy_from_slice(b"EVNT");
    for (g, i, data) in structures {
        buf.extend_from_slice(&g.to_le_bytes());
        buf.push(*i);
        buf.push(11);
        buf.extend_from_slice(&(data.len() as u32).to_le_bytes());
        buf.extend_from_slice(data);
    }
    let total = buf.len() as u32;
    write_u32_le(&mut buf, EH_SIZE, total);
    buf
}

#[test]
fn finds_structures_in_order() {
    let buf = build_event(&[(300, 1, b"first"), (332, 11, b"second")]);
    let e = Event::new(&buf);
    let (h1, d1) = e.find(300, 1).unwrap();
    assert_eq!(d1, b"first");
    assert_eq!(h1.data_size, 5);
    let (_h2, d2) = e.find(332, 11).unwrap();
    assert_eq!(d2, b"second");
    assert!(e.has(332, 11));
    assert!(!e.has(0, 0));
}

#[test]
fn iterates_all_structures() {
    let buf = build_event(&[(1, 1, b"a"), (2, 2, b"bb"), (3, 3, b"ccc")]);
    let e = Event::new(&buf);
    let mut groups: Vec<u16> = Vec::new();
    let mut it = e.iter_structures();
    while let Some((h, _)) = it.next() {
        groups.push(h.group);
    }
    assert_eq!(groups, vec![1, 2, 3]);
    assert_eq!(walk_structures(&buf), 3);
}

#[test]
fn truncated_event_stops_iteration_safely() {
    let mut buf = build_event(&[(1, 1, b"hello"), (2, 2, b"world")]);
    buf.pop();
    let e = Event::new(&buf);
    let count = e.structures().len();
    assert!(count <= 2);
    assert_eq!(count, 1);
}

#[test]
fn empty_event() {
    let buf = build_event(&[]);
    let e = Event::new(&buf);
    assert_eq!(e.structures().len(), 0);
    assert!(e.find(0, 0).is_none());
}

fn build_event_bytes(schema: &Schema, pid: i32) -> Vec<u8> {
    let mut struct_bytes = vec![0u8; BANK_STRUCTURE_SIZE + 4];
    struct_bytes[0..2].copy_from_slice(&schema.group().to_le_bytes());
    struct_bytes[2] = schema.item();
    struct_bytes[3] = 11;
    write_u32_le(&mut struct_bytes, 4, 4);
    struct_bytes[BANK_STRUCTURE_SIZE..].copy_from_slice(&pid.to_le_bytes());

    let mut eb = EventBuilder::new();
    eb.add_bank_bytes(&struct_bytes);
    eb.finish()
}

fn one_column(name: &str) -> Schema {
    Schema::from_columns(name, 1, 1, vec![("pid".into(), DataType::Int, 1)])
}

#[test]
fn owned_event_round_trip() {
    let mut dict = Dict::new();
    let schema = one_column("X");
    dict.add(one_column("X"));
    let bytes = build_event_bytes(&schema, 42);
    let owned = OwnedEvent::new(bytes, Arc::new(dict));

    let bank = owned.bank("X").unwrap();
    assert_eq!(&*bank.col::<i32>("pid").unwrap(), &[42]);
    assert!(owned.has("X"));
}

#[test]
fn owned_event_is_send() {
    fn assert_send<T: Send>() {}
    assert_send::<OwnedEvent>();
}

#[test]
fn structures_bytes_enables_verbatim_decorate() {
    let mut dict = Dict::new();
    let sa = one_column("A");
    let sb = Schema::from_columns("B", 2, 2, vec![("e".into(), DataType::Float, 1)]);
    dict.add(one_column("A"));
    dict.add(Schema::from_columns("B", 2, 2, vec![("e".into(), DataType::Float, 1)]));
    let src = OwnedEvent::new(build_event_bytes(&sa, 42), Arc::new(dict));
    assert_eq!(src.structures_bytes(), &src.bytes()[16..]);

    let mut bb = BankBuilder::new(&sb);
    bb.push_row().set_f32("e", f(1.5)).unwrap();
    let mut eb = EventBuilder::new().with_tag(7u32);
    eb.add_bank_bytes(&src.structures_bytes());
    eb.add(bb).unwrap();
    let merged = eb.finish();

    let ev = Event::new(&merged);
    assert_eq!(ev.tag(), 7);
    assert!(
        ev.has(1, 1) && ev.has(2, 2),
        "both source and new bank present"
    );
    let (_, a) = ev.find(1, 1).unwrap();
    assert_eq!(Bank::new(&sa, a).unwrap().col::<i32>("pid").unwrap()[0], 42);
    let (_, b) = ev.find(2, 2).unwrap();
    assert_eq!(Bank::new(&sb, b).unwrap().col::<Float32>("e").unwrap()[0], f(1.5));
}

#[test]
fn slice_constructor_shares_buffer() {
    let mut dict = Dict::new();
    let schema = one_column("X");
    dict.add(one_column("X"));
    let bytes = build_event_bytes(&schema, 7);
    let len = bytes.len() as u32;
    let payload = Arc::new(bytes);
    let dict_arc = Arc::new(dict);

    let a = OwnedEvent::slice(Arc::clone(&payload), 0, len, Arc::clone(&dict_arc));
    let b = OwnedEvent::slice(Arc::clone(&payload), 0, len, Arc::clone(&dict_arc));
    assert_eq!(
        a.bank("X").unwrap().col::<i32>("pid").unwrap(),
        b.bank("X").unwrap().col::<i32>("pid").unwrap()
    );
    assert_eq!(Arc::strong_count(&payload), 3);
}

#[test]
fn what_an_event_builder_was_given_comes_back() {
    let mut eb = EventBuilder::new().with_tag(9);
    for k in 0u8..5 {
        let data = vec![k; k as usize * 3];
        let mut bank = vec![k, 1, k, 11];
        bank.extend_from_slice(&(data.len() as u32).to_le_bytes());
        bank.extend_from_slice(&data);
        eb.add_bank_bytes(&bank);
    }
    assert_eq!(eb.structure_count(), 5);
    let size = eb.finished_size();
    let bytes = eb.finish();
    assert_eq!(bytes.len(), size);
    let ev = Event::new(&bytes);
    assert_eq!(ev.tag(), 9);
    let sts = ev.structures();
    assert_eq!(sts.len(), 5);
    for k in 0u8..5 {
        let (h, data) = sts[k as usize];
        assert_eq!(h.group, 0x100 + k as u16);
        assert_eq!(h.item, k);
        assert_eq!(data, &vec![k; k as usize * 3][..]);
    }
}
