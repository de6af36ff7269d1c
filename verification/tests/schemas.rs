use oxihipo::clas12::{RecEvent, RecParticle};
use oxihipo::event::{BankRow, Event};
use oxihipo::read::dictionary::parse_dict_schema;
use oxihipo::schema::{BankPatterns, ColumnHandle, DataType, Dict, Float32, Schema, SchemaIndex};
use oxihipo::wire::constants::{
    DICT_GROUP, DICT_ITEM, DICT_JSON_ITEM, EH_SIZE, EVENT_HEADER_SIZE,
};
use oxihipo::HipoError;

#[test]
fn ids_match_clas12_dictionary() {
    assert_eq!(RecParticle::NAME, "REC::Particle");
    assert_eq!((RecParticle::GROUP, RecParticle::ITEM), (300, 31));
    assert_eq!(RecEvent::NAME, "REC::Event");
    assert_eq!((RecEvent::GROUP, RecEvent::ITEM), (300, 30));
}

fn dict_event(item: u8, text: &str) -> Vec<u8> {
    let mut bank = Vec::new();
    bank.extend_from_slice(&DICT_GROUP.to_le_bytes());
    bank.push(item);
    bank.push(6);
    bank.extend_from_slice(&(text.len() as u32).to_le_bytes());
    bank.extend_from_slice(text.as_bytes());
    let mut event = vec![0u8; EVENT_HEADER_SIZE];
    event[0..4].copy_from_slice(b"EVNT");
    event.extend_from_slice(&bank);
    let total = event.len() as u32;
    event[EH_SIZE..EH_SIZE + 4].copy_from_slice(&total.to_le_bytes());
    event
}

#[test]
fn reads_json_only_dictionary_event() {
    let json = r#"{ "name": "REC::Particle", "group": 400, "item": 1,
            "entries": [ { "name": "pid", "type": "I" }, { "name": "px", "type": "F" },
                         { "name": "cov", "type": "F#5" } ] }"#;
    let ev_buf = dict_event(DICT_JSON_ITEM, json);
    let ev = Event::new(&ev_buf);
    let schema = parse_dict_schema(&ev).expect("JSON-only dictionary event must parse");
    assert_eq!(schema.name(), "REC::Particle");
    assert_eq!(schema.group(), 400);
    assert_eq!(schema.item(), 1);
    assert_eq!(schema.entries().len(), 3);
    assert_eq!(schema.entries()[2].length, 5);
}

#[test]
fn reads_compact_text_dictionary_event() {
    let text = "{REC::Traj/100/1}{tid/I,cov/F#5,hit/S#3}";
    let ev_buf = dict_event(DICT_ITEM, text);
    let ev = Event::new(&ev_buf);
    let schema = parse_dict_schema(&ev).expect("compact dictionary event must parse");
    assert_eq!(schema.name(), "REC::Traj");
    assert_eq!(schema.entries().len(), 3);
}

fn sample() -> Dict {
    let mut f = Dict::new();
    f.add(Schema::from_columns(
        "REC::Particle",
        300,
        1,
        vec![
            ("pid".into(), DataType::Int, 1),
            ("px".into(), DataType::Float, 1),
        ],
    ));
    f.add(Schema::from_columns(
        "REC::Calorimeter",
        332,
        11,
        vec![("energy".into(), DataType::Float, 1)],
    ));
    f
}

#[test]
fn add_and_lookup() {
    let f = sample();
    assert!(f.get("REC::Particle").is_some());
    assert!(f.get("REC::Cherenkov").is_none());
    assert_eq!(f.get_by_id(300, 1).map(|s| s.name()), Some("REC::Particle"));
    assert_eq!(
        f.get_by_id(332, 11).map(|s| s.name()),
        Some("REC::Calorimeter")
    );
}

#[test]
fn parse_text_errors_instead_of_panicking_past_the_id_space() {
    let text = |n: usize| {
        let mut t = String::with_capacity(n * 20);
        for i in 0..n {
            t.push_str(&format!("{{S{i}/300/1}}{{a/I}}\n"));
        }
        t
    };

    let full = Dict::parse_text(&text(65_536)).expect("65536 schemas must fit");
    assert_eq!(full.len(), 65_536);

    let err = Dict::parse_text(&text(65_537))
        .expect_err("65537 schemas cannot fit in a u16 id space");
    let msg = err.message();
    assert!(
        msg.contains("65536"),
        "message should name the real limit: {msg}"
    );
}

#[test]
fn try_add_reports_the_overflow_rather_than_panicking() {
    let mut d = Dict::new();
    for i in 0..65_536u32 {
        d.try_add(Schema::from_columns(
            format!("S{i}").as_str(),
            300,
            1,
            vec![("a".into(), DataType::Int, 1)],
        ))
        .expect("within the id space");
    }
    assert_eq!(d.len(), 65_536);

    assert!(
        d.try_add(Schema::from_columns(
            "S0",
            300,
            1,
            vec![("b".into(), DataType::Float, 1)],
        ))
        .is_ok(),
        "replacing an existing schema must not hit the id cap"
    );
    assert_eq!(d.len(), 65_536);

    let err = d
        .try_add(Schema::from_columns(
            "one_too_many",
            300,
            1,
            vec![("a".into(), DataType::Int, 1)],
        ))
        .expect_err("the id space is exhausted");
    assert!(err.message().contains("one_too_many"));
}

#[test]
fn require_errors_with_name() {
    let f = sample();
    let err = f.require("XX").unwrap_err();
    assert!(err.message().contains("XX"));
}

#[test]
fn text_roundtrip_dict() {
    let f = sample();
    let text = f.to_text();
    let f2 = Dict::parse_text(&text).unwrap();
    assert_eq!(f2.len(), 2);
    assert_eq!(f2.get("REC::Particle").unwrap().entries().len(), 2);
}

#[test]
fn duplicate_name_replaces() {
    let mut f = sample();
    f.add(Schema::from_columns(
        "REC::Particle",
        300,
        1,
        vec![("pid".into(), DataType::Int, 1)],
    ));
    assert_eq!(f.len(), 2);
    assert_eq!(f.get("REC::Particle").unwrap().entries().len(), 1);
}

fn sample_schema() -> Schema {
    Schema::from_columns(
        "REC::Particle",
        300,
        1,
        vec![
            ("pid".into(), DataType::Int, 1),
            ("px".into(), DataType::Float, 1),
            ("charge".into(), DataType::Byte, 1),
        ],
    )
}

#[test]
fn resolves_matching_type() {
    let s = sample_schema();
    let h = ColumnHandle::<i32>::resolve(&s, "pid").unwrap();
    assert_eq!(h.column_index(), 0);
    let h = ColumnHandle::<Float32>::resolve(&s, "px").unwrap();
    assert_eq!(h.column_index(), 1);
}

#[test]
fn rejects_type_mismatch() {
    let s = sample_schema();
    let err = ColumnHandle::<i32>::resolve(&s, "px").unwrap_err();
    assert!(matches!(err, HipoError::TypeMismatch { .. }));
}

#[test]
fn rejects_missing_column() {
    let s = sample_schema();
    let err = ColumnHandle::<i32>::resolve(&s, "missing").unwrap_err();
    assert!(matches!(err, HipoError::UnknownColumn { .. }));
}

fn families() -> Dict {
    let mut d = Dict::new();
    for (name, g, i) in [
        ("REC::Particle", 300u16, 1u8),
        ("REC::Traj", 300, 2),
        ("RECHB::Particle", 310, 1),
        ("RECAI::Particle", 320, 1),
        ("MC::Lund", 40, 3),
    ] {
        d.add(Schema::from_columns(
            name,
            g,
            i,
            vec![("v".into(), DataType::Int, 1)],
        ));
    }
    d
}

fn names(p: &str) -> Vec<String> {
    let d = families();
    BankPatterns::parse(p)
        .unwrap()
        .resolve(&d)
        .unwrap()
        .iter()
        .map(|s| s.name().to_string())
        .collect()
}

#[test]
fn exact_prefix_and_suffix() {
    assert_eq!(names("REC::Particle"), ["REC::Particle"]);
    assert_eq!(names("REC::*"), ["REC::Particle", "REC::Traj"]);
    assert_eq!(
        names("*::Particle"),
        ["REC::Particle", "RECHB::Particle", "RECAI::Particle"]
    );
    assert_eq!(names("*").len(), 5);
}

#[test]
fn comma_list_unions_and_tolerates_a_trailing_comma() {
    assert_eq!(
        names("MC::Lund, REC::Particle,"),
        ["REC::Particle", "MC::Lund"]
    );
}

#[test]
fn a_misspelled_literal_is_an_unknown_schema_not_an_empty_result() {
    let d = families();
    let err = BankPatterns::parse("REC::Partical")
        .unwrap()
        .resolve(&d)
        .unwrap_err();
    assert!(
        matches!(err, HipoError::UnknownSchema { ref name } if name == "REC::Partical"),
        "{err:?}"
    );
}

#[test]
fn a_wildcard_matching_nothing_is_an_error_too() {
    let d = families();
    let err = BankPatterns::parse("XYZ::*")
        .unwrap()
        .resolve(&d)
        .unwrap_err();
    assert!(err.message().contains("matches no bank"), "{err:?}");
}

#[test]
fn an_empty_pattern_list_is_rejected() {
    assert!(BankPatterns::parse("").is_err());
    assert!(BankPatterns::from_slice(&[]).is_err());
}

#[test]
fn a_pattern_that_is_no_glob_is_rejected() {
    let err = BankPatterns::parse("REC::[").unwrap_err();
    assert_eq!(
        err.message(),
        "schema parse error: bad bank pattern \"REC::[\": Pattern syntax error near position 5: \
         invalid range pattern"
    );
    assert!(BankPatterns::parse("MC::Lund").unwrap().matches("MC::Lund"));
    assert!(!BankPatterns::parse("MC::Lund").unwrap().matches("MC::Lunds"));
    assert!(BankPatterns::parse("MC::L?nd").unwrap().matches("MC::Lond"));
}

#[test]
fn data_type_roundtrip() {
    for ty in [
        DataType::Byte,
        DataType::Short,
        DataType::Int,
        DataType::Float,
        DataType::Double,
        DataType::Long,
    ] {
        assert_eq!(DataType::from_letter(ty.letter()), Some(ty));
        assert_eq!(DataType::from_type_id(ty.type_id()), Some(ty));
    }
}

#[test]
fn schema_layout_columnar() {
    let s = Schema::from_columns(
        "REC::Particle",
        300,
        1,
        vec![
            ("pid".into(), DataType::Int, 1),
            ("px".into(), DataType::Float, 1),
            ("py".into(), DataType::Float, 1),
            ("charge".into(), DataType::Byte, 1),
        ],
    );
    assert_eq!(s.row_size(), 4 + 4 + 4 + 1);
    assert_eq!(s.bytes_for_rows(10), 130);
    assert_eq!(s.column_byte_offset(0, 10), 0);
    assert_eq!(s.column_byte_offset(1, 10), 40);
    assert_eq!(s.column_byte_offset(2, 10), 80);
    assert_eq!(s.column_byte_offset(3, 10), 120);
    assert_eq!(s.cell_byte_offset(2, 5, 10), 100);
}

#[test]
fn schema_layout_with_array_columns() {
    let s = Schema::from_columns(
        "X",
        1,
        1,
        vec![
            ("a".into(), DataType::Int, 1u32),
            ("b".into(), DataType::Float, 4u32),
            ("c".into(), DataType::Byte, 2u32),
        ],
    );
    assert_eq!(s.row_size(), 22);
    assert_eq!(s.column_length(0), 1);
    assert_eq!(s.column_length(1), 4);
    assert_eq!(s.column_length(2), 2);
    assert_eq!(s.column_byte_offset(0, 10), 0);
    assert_eq!(s.column_byte_offset(1, 10), 40);
    assert_eq!(s.column_byte_offset(2, 10), 200);
    assert_eq!(s.cell_byte_offset(1, 5, 10), 120);
}

#[test]
fn schema_index_lookup() {
    let mut idx = SchemaIndex::new();
    idx.insert(300, 1, 7);
    idx.insert(120, 2, 0);
    assert_eq!(idx.get(300, 1), Some(7));
    assert_eq!(idx.get(120, 2), Some(0));
    assert_eq!(idx.get(300, 2), None);
    assert_eq!(idx.get(0, 0), None);
}

#[test]
fn missing_column_error() {
    let s = Schema::from_columns("X", 1, 1, vec![("a".into(), DataType::Int, 1)]);
    assert_eq!(s.column_index("a"), Some(0));
    assert!(s.column_index("b").is_none());
    let err = s.require_column("b").unwrap_err();
    assert!(err.message().contains("\"b\""));
}

#[test]
fn schema_text_is_read_back() {
    let s = Schema::from_columns(
        "REC::Traj",
        300,
        40,
        vec![
            ("pindex".into(), DataType::Short, 1),
            ("cov".into(), DataType::Double, 15),
            ("n".into(), DataType::Long, 1),
            ("c".into(), DataType::Byte, 1),
        ],
    );
    let text = s.to_text();
    assert_eq!(text, "{REC::Traj/300/40}{pindex/S,cov/D#15,n/L,c/B}");
    let back = Schema::parse_text(&text).unwrap();
    assert!(back.same_as(&s));
    assert!(matches!(
        Schema::parse_text("{X/1}{a/I}"),
        Err(HipoError::SchemaParse(_))
    ));
    assert!(matches!(
        Schema::parse_text("{X/1/2}{a/Q}"),
        Err(HipoError::SchemaParse(_))
    ));
}

fn one_column(name: &str, group: u16, item: u8) -> Schema {
    Schema::from_columns(name, group, item, vec![("a".into(), DataType::Int, 1)])
}

#[test]
fn the_last_schema_that_fits_is_found_by_id() {
    let mut d = Dict::new();
    for i in 0..65_535u32 {
        d.add(one_column(&format!("S{i}"), 300, 1));
    }
    d.add(one_column("last", u16::MAX, 255));
    assert_eq!(d.len(), 65_536);
    assert_eq!(d.get_by_id(u16::MAX, 255).unwrap().name(), "last");
    assert_eq!(d.get_by_id(300, 1).unwrap().name(), "S65534");
    let err = d.try_add(one_column("more", 1, 1)).unwrap_err();
    assert_eq!(
        err.message(),
        "schema parse error: dictionary exceeds 65536 schemas: a schema id is a u16, so there \
         is none left to assign to \"more\""
    );
}

#[test]
fn a_replaced_schema_gives_up_its_id() {
    let mut d = Dict::new();
    d.add(one_column("A", 10, 1));
    d.add(one_column("B", 11, 1));
    d.add(one_column("A", 12, 1));
    assert!(d.get_by_id(10, 1).is_none());
    assert_eq!(d.get_by_id(12, 1).unwrap().name(), "A");
    assert_eq!(d.get_by_id(11, 1).unwrap().name(), "B");
    d.add(one_column("A", 11, 1));
    assert_eq!(d.get_by_id(11, 1).unwrap().name(), "A");
    d.add(one_column("A", 13, 1));
    assert!(d.get_by_id(11, 1).is_none());
}

#[test]
fn an_index_gives_up_an_id() {
    let mut ix = SchemaIndex::new();
    ix.insert(5, 6, 7);
    ix.insert(u16::MAX, 255, u16::MAX);
    ix.remove(5, 6);
    assert_eq!(ix.get(5, 6), None);
    assert_eq!(ix.get(u16::MAX, 255), Some(u16::MAX));
}
