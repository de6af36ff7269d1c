use oxihipo::event::{Composite, CompositeFormat};
use oxihipo::schema::{DataType, Float32, Float64};
use oxihipo::wire::bytes::write_u32_le;
use oxihipo::wire::constants::BANK_STRUCTURE_SIZE;
use oxihipo::HipoError;

fn f(x: f32) -> Float32 {
    Float32 { bits: x.to_bits() }
}

fn d(x: f64) -> Float64 {
    Float64 { bits: x.to_bits() }
}

#[test]
fn parse_format_ilf() {
    let f = CompositeFormat::parse("ilf").unwrap();
    assert_eq!(f.fields().len(), 3);
    assert_eq!(f.fields()[0].ty, DataType::Int);
    assert_eq!(f.fields()[1].ty, DataType::Long);
    assert_eq!(f.fields()[2].ty, DataType::Float);
    assert_eq!(f.fields()[0].row_offset, 0);
    assert_eq!(f.fields()[1].row_offset, 4);
    assert_eq!(f.fields()[2].row_offset, 12);
    assert_eq!(f.row_size(), 16);
}

#[test]
fn parse_format_skips_separators() {
    let f = CompositeFormat::parse("i,l,f,").unwrap();
    assert_eq!(f.fields().len(), 3);
    assert_eq!(f.row_size(), 16);
}

#[test]
fn parse_format_empty_errors() {
    let err = CompositeFormat::parse("xyz").unwrap_err();
    assert!(matches!(err, HipoError::SchemaParse(_)));
}

fn build_composite_bytes(group: u16, item: u8, format: &str, rows_data: &[u8]) -> Vec<u8> {
    let format_bytes = format.as_bytes();
    let data_size = format_bytes.len() + rows_data.len();
    let mut out = Vec::with_capacity(BANK_STRUCTURE_SIZE + data_size);
    out.extend_from_slice(&group.to_le_bytes());
    out.push(item);
    out.push(11);
    let length_word = (data_size as u32) | ((format_bytes.len() as u32) << 24);
    let mut len_bytes = [0u8; 4];
    write_u32_le(&mut len_bytes, 0, length_word);
    out.extend_from_slice(&len_bytes);
    out.extend_from_slice(format_bytes);
    out.extend_from_slice(rows_data);
    out
}

#[test]
fn composite_from_structure_round_trip() {
    let mut rows = Vec::new();
    rows.extend_from_slice(&11i32.to_le_bytes());
    rows.extend_from_slice(&0.5f32.to_le_bytes());
    rows.extend_from_slice(&22i32.to_le_bytes());
    rows.extend_from_slice(&((-0.25f32).to_le_bytes()));

    let bytes = build_composite_bytes(123, 45, "if", &rows);
    let comp = Composite::from_structure(&bytes).unwrap();
    assert_eq!(comp.rows(), 2);
    assert_eq!(comp.i32(0, 0), 11);
    assert_eq!(comp.single(1, 0), f(0.5));
    assert_eq!(comp.i32(0, 1), 22);
    assert_eq!(comp.single(1, 1), f(-0.25));
}

#[test]
fn composite_rejects_truncated() {
    let bytes = build_composite_bytes(1, 1, "i", &[0, 0]);
    let err = Composite::from_structure(&bytes).unwrap_err();
    assert!(matches!(err, HipoError::CorruptRecord { .. }));
}

#[test]
fn composite_rejects_zero_format_length() {
    let mut bytes = build_composite_bytes(1, 1, "i", &[0; 4]);
    bytes[7] = 0;
    bytes[4] = 0;
    bytes[5] = 0;
    let err = Composite::from_structure(&bytes).unwrap_err();
    assert!(matches!(err, HipoError::CorruptRecord { .. }));
}

#[test]
fn composite_mixed_types() {
    let mut rows = Vec::new();
    rows.push(0xABu8);
    rows.extend_from_slice(&1234i16.to_le_bytes());
    rows.extend_from_slice(&0xDEADBEEFCAFEi64.to_le_bytes());
    rows.extend_from_slice(&(-42i32).to_le_bytes());
    rows.extend_from_slice(&1.75f32.to_le_bytes());
    rows.extend_from_slice(&0.125f64.to_le_bytes());
    assert_eq!(rows.len(), 27);

    let bytes = build_composite_bytes(1, 1, "bslifd", &rows);
    let comp = Composite::from_structure(&bytes).unwrap();
    assert_eq!(comp.format().row_size(), 27);
    assert_eq!(comp.rows(), 1);
    assert_eq!(comp.i8(0, 0), 0xABu8 as i8);
    assert_eq!(comp.i16(1, 0), 1234);
    assert_eq!(comp.i64(2, 0), 0xDEADBEEFCAFE_i64);
    assert_eq!(comp.i32(3, 0), -42);
    assert_eq!(comp.single(4, 0), f(1.75));
    assert_eq!(comp.double(5, 0), d(0.125));
}

#[test]
fn a_field_of_another_type_reads_as_zero() {
    let bytes = build_composite_bytes(1, 1, "i", &7i32.to_le_bytes());
    let comp = Composite::from_structure(&bytes).unwrap();
    assert_eq!(comp.i64(0, 0), 7);
    assert_eq!(comp.single(0, 0), f(0.0));
    assert_eq!(comp.double(0, 0), d(0.0));
}
