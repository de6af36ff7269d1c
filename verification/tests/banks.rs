use oxihipo::event::{Bank, BankBuilder, Event, EventBuilder};
use oxihipo::schema::{DataType, Float32, Schema};
use oxihipo::wire::bytes::write_u32_le;
use oxihipo::wire::constants::BANK_STRUCTURE_SIZE;
use oxihipo::write::row::BankWriter;
use oxihipo::HipoError;

fn f(x: f32) -> Float32 {
    Float32 { bits: x.to_bits() }
}

fn floats(v: &[f32]) -> Vec<Float32> {
    v.iter().map(|x| f(*x)).collect()
}

fn make_bank_data(rows: u32) -> (Schema, Vec<u8>) {
    let s = Schema::from_columns(
        "REC::Particle",
        300,
        1,
        vec![
            ("pid".into(), DataType::Int, 1),
            ("px".into(), DataType::Float, 1),
            ("charge".into(), DataType::Byte, 1),
        ],
    );

    let mut data = Vec::new();
    for i in 0..rows {
        data.extend_from_slice(&((i as i32) * 10).to_le_bytes());
    }
    for i in 0..rows {
        let v = i as f32 + 0.5;
        data.extend_from_slice(&v.to_le_bytes());
    }
    for i in 0..rows {
        data.push((i as i8 - 1) as u8);
    }
    (s, data)
}

#[test]
fn rows_inferred_from_size() {
    let (s, data) = make_bank_data(5);
    let bank = Bank::new(&s, &data).unwrap();
    assert_eq!(bank.rows(), 5);
}

#[test]
fn generic_col_returns_typed_slices() {
    let (s, data) = make_bank_data(4);
    let bank = Bank::new(&s, &data).unwrap();
    let pids = bank.col::<i32>("pid").unwrap();
    assert_eq!(&*pids, &[0, 10, 20, 30]);
    let pxs = bank.col::<Float32>("px").unwrap();
    assert_eq!(&*pxs, &floats(&[0.5, 1.5, 2.5, 3.5])[..]);
    let chg = bank.col::<i8>("charge").unwrap();
    assert_eq!(&*chg, &[-1, 0, 1, 2]);
}

#[test]
fn handle_round_trip() {
    let (s, data) = make_bank_data(3);
    let bank = Bank::new(&s, &data).unwrap();
    let h = s.handle::<Float32>("px").unwrap();
    assert_eq!(&*bank.read(h), &floats(&[0.5, 1.5, 2.5])[..]);
}

#[test]
fn get_scalar_type_inferred() {
    let (s, data) = make_bank_data(4);
    let bank = Bank::new(&s, &data).unwrap();

    let pid0: i32 = bank.get("pid", 0);
    let pid3: i32 = bank.get("pid", 3);
    let px2: Float32 = bank.get("px", 2);
    let chg1: i8 = bank.get("charge", 1);
    assert_eq!(pid0, 0);
    assert_eq!(pid3, 30);
    assert_eq!(px2, f(2.5));
    assert_eq!(chg1, 0);
}

#[test]
fn get_defaults_on_miss_or_mismatch() {
    let (s, data) = make_bank_data(2);
    let bank = Bank::new(&s, &data).unwrap();

    let missing: i32 = bank.get("nope", 0);
    assert_eq!(missing, 0);

    let mismatched: Float32 = bank.get("pid", 0);
    assert_eq!(mismatched, f(0.0));

    let oob: i32 = bank.get("pid", 99);
    assert_eq!(oob, 0);
}

#[test]
fn type_mismatch_errors() {
    let (s, data) = make_bank_data(2);
    let bank = Bank::new(&s, &data).unwrap();
    let err = bank.col::<Float32>("pid").unwrap_err();
    assert!(matches!(err, HipoError::TypeMismatch { .. }));
}

fn make_array_bank() -> (Schema, Vec<u8>) {
    let s = Schema::from_columns(
        "X",
        1,
        1,
        vec![
            ("pid".into(), DataType::Int, 1u32),
            ("px".into(), DataType::Float, 3u32),
        ],
    );
    let rows: u32 = 3;
    let pid_bytes = rows as usize * 4;
    let px_bytes = rows as usize * 12;
    let mut data = vec![0u8; pid_bytes + px_bytes];
    write_u32_le(&mut data, 0, 11);
    write_u32_le(&mut data, 4, 22);
    write_u32_le(&mut data, 8, 33);
    let rows_data: [[f32; 3]; 3] = [[0.1, 0.2, 0.3], [1.0, 1.1, 1.2], [2.0, 2.1, 2.2]];
    let mut off = pid_bytes;
    for row in &rows_data {
        for v in row {
            data[off..off + 4].copy_from_slice(&v.to_le_bytes());
            off += 4;
        }
    }
    (s, data)
}

#[test]
fn col_array_typed() {
    let (s, data) = make_array_bank();
    let bank = Bank::new(&s, &data).unwrap();
    let arrays = bank.col::<[Float32; 3]>("px").unwrap();
    assert_eq!(arrays.len(), 3);
    assert_eq!(arrays[0], [f(0.1), f(0.2), f(0.3)]);
    assert_eq!(arrays[2], [f(2.0), f(2.1), f(2.2)]);
}

#[test]
fn get_array_typed() {
    let (s, data) = make_array_bank();
    let bank = Bank::new(&s, &data).unwrap();
    let row1: [Float32; 3] = bank.get("px", 1);
    assert_eq!(row1, [f(1.0), f(1.1), f(1.2)]);
}

#[test]
fn get_array_wrong_length_returns_default() {
    let (s, data) = make_array_bank();
    let bank = Bank::new(&s, &data).unwrap();
    let row: [Float32; 4] = bank.get("px", 0);
    assert_eq!(row, [f(0.0); 4]);
}

#[test]
fn array_at_runtime() {
    let (s, data) = make_array_bank();
    let bank = Bank::new(&s, &data).unwrap();
    let row2 = bank.array_at::<Float32>("px", 2).unwrap();
    assert_eq!(&*row2, &floats(&[2.0, 2.1, 2.2])[..]);
    let err = bank.array_at::<i32>("px", 0).unwrap_err();
    assert!(matches!(err, HipoError::TypeMismatch { .. }));
    let err = bank.array_at::<Float32>("px", 99).unwrap_err();
    assert!(matches!(err, HipoError::CorruptRecord { .. }));
}

#[test]
fn col_array_wrong_length_rejected() {
    let (s, data) = make_array_bank();
    let bank = Bank::new(&s, &data).unwrap();
    let err = bank.col::<[Float32; 4]>("px").unwrap_err();
    assert!(matches!(err, HipoError::ColumnLengthMismatch { .. }));
    let err = bank.col::<Float32>("px").unwrap_err();
    assert!(matches!(err, HipoError::ColumnLengthMismatch { .. }));
}

#[test]
fn handle_resolution_checks_length() {
    let (s, _) = make_array_bank();
    let _ok = s.handle::<[Float32; 3]>("px").unwrap();
    let err = s.handle::<[Float32; 4]>("px").unwrap_err();
    assert!(matches!(err, HipoError::ColumnLengthMismatch { .. }));
    let err = s.handle::<Float32>("px").unwrap_err();
    assert!(matches!(err, HipoError::ColumnLengthMismatch { .. }));
}

#[test]
fn corrupt_size_rejected() {
    let (s, mut data) = make_bank_data(3);
    data.push(0);
    let err = Bank::new(&s, &data).unwrap_err();
    assert!(matches!(err, HipoError::CorruptRecord { .. }));
}

#[test]
fn empty_bank() {
    let s = Schema::from_columns("X", 1, 1, vec![("a".into(), DataType::Int, 1)]);
    let bank = Bank::new(&s, &[]).unwrap();
    assert_eq!(bank.rows(), 0);
    assert_eq!(&*bank.col::<i32>("a").unwrap(), &[] as &[i32]);
}

#[test]
fn misaligned_8byte_col_copies_into_owned() {
    let s = Schema::from_columns(
        "Y",
        1,
        1,
        vec![
            ("tag".into(), DataType::Byte, 1),
            ("v".into(), DataType::Long, 1),
        ],
    );
    let mut data = Vec::new();
    data.push(0x11_u8);
    data.push(0x22_u8);
    data.extend_from_slice(&0x1122_3344_5566_7788_i64.to_le_bytes());
    data.extend_from_slice(&(-1_i64).to_le_bytes());
    let bank = Bank::new(&s, &data).unwrap();
    let vs = bank.col::<i64>("v").unwrap();
    assert_eq!(vs.len(), 2);
    assert_eq!(vs[0], 0x1122_3344_5566_7788);
    assert_eq!(vs[1], -1);
}

fn schema() -> Schema {
    Schema::from_columns(
        "REC::Particle",
        300,
        1,
        vec![
            ("pid".into(), DataType::Int, 1),
            ("px".into(), DataType::Float, 1),
            ("charge".into(), DataType::Byte, 1),
        ],
    )
}

#[test]
fn bank_builder_round_trip() {
    let s = schema();
    let mut b = BankBuilder::with_row_capacity(&s, 3);
    b.push_row()
        .set_i32("pid", 11)
        .unwrap()
        .set_f32("px", f(0.5))
        .unwrap()
        .set_i8("charge", -1)
        .unwrap();
    b.push_row()
        .set_i32("pid", 22)
        .unwrap()
        .set_f32("px", f(1.5))
        .unwrap()
        .set_i8("charge", 1)
        .unwrap();
    b.push_row()
        .set_i32("pid", 33)
        .unwrap()
        .set_f32("px", f(2.5))
        .unwrap()
        .set_i8("charge", 0)
        .unwrap();
    assert_eq!(b.rows(), 3);
    let bytes = b.finish().unwrap();

    assert_eq!(u16::from_le_bytes([bytes[0], bytes[1]]), 300);
    assert_eq!(bytes[2], 1);
    assert_eq!(bytes[3], 11);
    let data_size = u32::from_le_bytes(bytes[4..8].try_into().unwrap());
    assert_eq!(data_size as usize, bytes.len() - BANK_STRUCTURE_SIZE);

    let bank = Bank::new(&s, &bytes[BANK_STRUCTURE_SIZE..]).unwrap();
    assert_eq!(bank.rows(), 3);
    assert_eq!(&*bank.col::<i32>("pid").unwrap(), &[11, 22, 33]);
    assert_eq!(&*bank.col::<Float32>("px").unwrap(), &floats(&[0.5, 1.5, 2.5])[..]);
    assert_eq!(&*bank.col::<i8>("charge").unwrap(), &[-1, 1, 0]);
}

#[test]
fn bank_builder_random_access_set() {
    let s = schema();
    let mut b = BankBuilder::new(&s);
    b.push_rows(3);
    b.set_i32_at("pid", 2, 33).unwrap();
    b.set_i32_at("pid", 1, 22).unwrap();
    b.set_i32_at("pid", 0, 11).unwrap();
    let bytes = b.finish().unwrap();
    let bank = Bank::new(&s, &bytes[BANK_STRUCTURE_SIZE..]).unwrap();
    assert_eq!(&*bank.col::<i32>("pid").unwrap(), &[11, 22, 33]);
}

#[test]
fn bank_builder_type_mismatch_errors() {
    let s = schema();
    let mut b = BankBuilder::new(&s);
    b.push_row();
    let err = b.set_f32("pid", f(1.0)).unwrap_err();
    assert!(matches!(err, HipoError::TypeMismatch { .. }));
}

#[test]
fn bank_builder_missing_column_errors() {
    let s = schema();
    let mut b = BankBuilder::new(&s);
    b.push_row();
    let err = b.set_i32("nope", 1).unwrap_err();
    assert!(matches!(err, HipoError::UnknownColumn { .. }));
}

#[test]
fn bank_builder_set_before_push_errors() {
    let s = schema();
    let mut b = BankBuilder::new(&s);
    let err = b.set_i32("pid", 1).unwrap_err();
    assert!(matches!(err, HipoError::InvalidUsage { .. }), "{err:?}");
}

#[test]
fn event_builder_round_trip() {
    let s = schema();
    let mut b = BankBuilder::new(&s);
    b.push_row()
        .set_i32("pid", 42)
        .unwrap()
        .set_f32("px", f(1.75))
        .unwrap()
        .set_i8("charge", 1)
        .unwrap();
    let mut eb = EventBuilder::new().with_tag(7u32);
    eb.add(b).unwrap();
    let bytes = eb.finish();

    let event = Event::new(&bytes);
    assert_eq!(event.size() as usize, bytes.len());
    assert_eq!(event.tag(), 7);
    let (hdr, data) = event.find(300, 1).unwrap();
    assert_eq!(hdr.group, 300);
    assert_eq!(hdr.item, 1);
    let bank = Bank::new(&s, data).unwrap();
    assert_eq!(bank.rows(), 1);
    assert_eq!(&*bank.col::<i32>("pid").unwrap(), &[42]);
    assert_eq!(&*bank.col::<Float32>("px").unwrap(), &floats(&[1.75])[..]);
}

#[test]
fn bank_builder_with_array_columns() {
    let s = Schema::from_columns(
        "X",
        1,
        1,
        vec![
            ("pid".into(), DataType::Int, 1u32),
            ("px".into(), DataType::Float, 3u32),
        ],
    );
    let mut b = BankBuilder::with_row_capacity(&s, 3);
    b.push_row()
        .set_i32("pid", 11)
        .unwrap()
        .set_array("px", &[f(0.1), f(0.2), f(0.3)])
        .unwrap();
    b.push_row()
        .set_i32("pid", 22)
        .unwrap()
        .set_array("px", &[f(1.0), f(1.1), f(1.2)])
        .unwrap();
    b.push_row()
        .set_i32("pid", 33)
        .unwrap()
        .set_array("px", &[f(2.0), f(2.1), f(2.2)])
        .unwrap();
    let bytes = b.finish().unwrap();

    let bank = Bank::new(&s, &bytes[BANK_STRUCTURE_SIZE..]).unwrap();
    assert_eq!(bank.rows(), 3);

    let arrays = bank.col::<[Float32; 3]>("px").unwrap();
    assert_eq!(arrays.len(), 3);
    assert_eq!(arrays[0], [f(0.1), f(0.2), f(0.3)]);
    assert_eq!(arrays[1], [f(1.0), f(1.1), f(1.2)]);
    assert_eq!(arrays[2], [f(2.0), f(2.1), f(2.2)]);

    let row1: [Float32; 3] = bank.get("px", 1);
    assert_eq!(row1, [f(1.0), f(1.1), f(1.2)]);

    let row2 = bank.array_at::<Float32>("px", 2).unwrap();
    assert_eq!(&*row2, &floats(&[2.0, 2.1, 2.2])[..]);

    assert_eq!(&*bank.col::<i32>("pid").unwrap(), &[11, 22, 33]);
}

#[test]
fn bank_builder_array_wrong_length_errors() {
    let s = Schema::from_columns("X", 1, 1, vec![("px".into(), DataType::Float, 3u32)]);
    let mut b = BankBuilder::new(&s);
    b.push_row();
    let err = b.set_array("px", &[f(0.1), f(0.2)]).unwrap_err();
    assert!(matches!(err, HipoError::ColumnLengthMismatch { .. }));
}

#[test]
fn bank_builder_scalar_set_on_array_column_errors() {
    let s = Schema::from_columns("X", 1, 1, vec![("px".into(), DataType::Float, 3u32)]);
    let mut b = BankBuilder::new(&s);
    b.push_row();
    let err = b.set_f32("px", f(0.5)).unwrap_err();
    assert!(matches!(err, HipoError::ColumnLengthMismatch { .. }));
}

#[test]
fn row_writer_set_array_via_const_generic() {
    let s = Schema::from_columns("X", 1, 1, vec![("v".into(), DataType::Float, 4u32)]);
    let mut w = BankWriter::new(BankBuilder::new(&s));
    w.row(|r| {
        r.set("v", [f(0.25), f(0.5), f(0.75), f(1.0)])?;
        Ok(())
    })
    .unwrap();
    let bytes = w.into_inner().finish().unwrap();
    let bank = Bank::new(&s, &bytes[BANK_STRUCTURE_SIZE..]).unwrap();
    let row0: [Float32; 4] = bank.get("v", 0);
    assert_eq!(row0, [f(0.25), f(0.5), f(0.75), f(1.0)]);
}

#[test]
fn event_builder_multiple_banks() {
    let s1 = schema();
    let s2 = Schema::from_columns("REC::Event", 300, 30, vec![("evno".into(), DataType::Long, 1)]);

    let mut b1 = BankBuilder::new(&s1);
    b1.push_row().set_i32("pid", 1).unwrap();
    let mut b2 = BankBuilder::new(&s2);
    b2.push_row().set_i64("evno", 99).unwrap();

    let mut eb = EventBuilder::new().with_tag(0u32);
    eb.add(b1).unwrap().add(b2).unwrap();
    assert_eq!(eb.structure_count(), 2);
    let bytes = eb.finish();

    let event = Event::new(&bytes);
    assert_eq!(event.structures().len(), 2);
    assert!(event.has(300, 1));
    assert!(event.has(300, 30));
}

#[test]
fn with_row_capacity_reserves_for_array_columns() {
    let schema = Schema::from_columns(
        "T::Test",
        1000,
        1,
        vec![
            ("cov".into(), DataType::Float, 16),
            ("px".into(), DataType::Float, 1),
        ],
    );
    const ROWS: u32 = 1000;
    let columns = BankBuilder::with_row_capacity(&schema, ROWS).into_buffers();

    assert!(
        columns[0].capacity() >= ROWS as usize * 4 * 16,
        "array column reserved {} bytes, needs {}",
        columns[0].capacity(),
        ROWS as usize * 4 * 16
    );
    assert!(columns[1].capacity() >= ROWS as usize * 4);

    let cap_before = columns[0].capacity();
    let mut b = BankBuilder::with_buffers(&schema, columns);
    b.push_rows(ROWS);
    assert_eq!(b.rows(), ROWS);
    let columns = b.into_buffers();
    assert_eq!(
        columns[0].capacity(),
        cap_before,
        "the array column regrew, so the reservation was short"
    );
    assert_eq!(columns[0].len(), ROWS as usize * 4 * 16);
}

#[test]
fn a_bank_of_sixteen_mebibytes_is_too_large() {
    let s = Schema::from_columns("BIG", 1, 1, vec![("v".into(), DataType::Int, 1)]);
    let mut b = BankBuilder::new(&s);
    b.push_rows(4_194_303);
    assert_eq!(b.finish().unwrap().len(), 8 + 4 * 4_194_303);

    let mut b = BankBuilder::new(&s);
    b.push_rows(4_194_304);
    let err = b.finish().unwrap_err();
    assert!(matches!(
        err,
        HipoError::BankTooLarge { size: 16_777_216, max: 16_777_215, .. }
    ));
}

#[test]
fn a_failed_set_leaves_the_bank_as_it_was() {
    let s = schema();
    let mut b = BankBuilder::new(&s);
    b.push_row().set_i32("pid", 5).unwrap();
    assert!(b.set_i32_at("pid", 1, 9).is_err());
    assert!(b.set_i64("pid", 9).is_err());
    let bytes = b.finish().unwrap();
    let bank = Bank::new(&s, &bytes[8..]).unwrap();
    assert_eq!(bank.col::<i32>("pid").unwrap(), vec![5]);
}

#[test]
fn a_lossy_bank_keeps_its_whole_rows() {
    let (s, data) = make_bank_data(3);
    let bank = Bank::new_lossy(&s, &data[..20]);
    assert_eq!(bank.rows(), 2);
}
