use lognplot::binzip::{decode_row, decode_rows, encode_double_rows, load_value, row_size, DataType, RawValue};

#[test]
fn binzip_datatype_names() {
    assert_eq!(DataType::from_name(&"uint8".to_string()), Some(DataType::UInt8));
    assert_eq!(DataType::from_name(&"uint16".to_string()), Some(DataType::UInt16));
    assert_eq!(DataType::from_name(&"uint32".to_string()), Some(DataType::UInt32));
    assert_eq!(DataType::from_name(&"float".to_string()), Some(DataType::Float));
    assert_eq!(DataType::from_name(&"double".to_string()), Some(DataType::Double));
    assert_eq!(DataType::from_name(&"int8".to_string()), None);
    assert_eq!(DataType::from_name(&"".to_string()), None);
}

#[test]
fn binzip_row_size() {
    assert_eq!(row_size(&vec![]), Some(8));
    let dts = vec![DataType::UInt8, DataType::UInt16, DataType::UInt32, DataType::Float, DataType::Double];
    assert_eq!(row_size(&dts), Some(8 + 1 + 2 + 4 + 4 + 8));
}

#[test]
fn binzip_load_value_little_endian() {
    let chunk: Vec<u8> = vec![0x7f, 0x34, 0x12, 0x78, 0x56, 0x34, 0x12];
    let mut offset = 0;
    assert_eq!(load_value(&mut offset, &chunk, DataType::UInt8), RawValue::UInt8(0x7f));
    assert_eq!(offset, 1);
    assert_eq!(load_value(&mut offset, &chunk, DataType::UInt16), RawValue::UInt16(0x1234));
    assert_eq!(offset, 3);
    assert_eq!(load_value(&mut offset, &chunk, DataType::UInt32), RawValue::UInt32(0x12345678));
    assert_eq!(offset, 7);

    let bytes = 1.5f32.to_le_bytes();
    let mut offset = 0;
    assert_eq!(load_value(&mut offset, &bytes, DataType::Float), RawValue::Float(1.5f32.to_bits()));
    let bytes = (-2.25f64).to_le_bytes();
    let mut offset = 0;
    assert_eq!(load_value(&mut offset, &bytes, DataType::Double), RawValue::Double((-2.25f64).to_bits()));
    assert_eq!(offset, 8);
}

#[test]
fn binzip_decode_row_of_mixed_types() {
    let mut row: Vec<u8> = Vec::new();
    row.extend_from_slice(&3.0f64.to_le_bytes());
    row.push(200);
    row.extend_from_slice(&513u16.to_le_bytes());
    row.extend_from_slice(&0.5f32.to_le_bytes());
    let dts = vec![DataType::UInt8, DataType::UInt16, DataType::Float];
    let decoded = decode_row(&row, &dts);
    assert_eq!(f64::from_bits(decoded.timestamp), 3.0);
    assert_eq!(decoded.values, vec![RawValue::UInt8(200), RawValue::UInt16(513), RawValue::Float(0.5f32.to_bits())]);
}

#[test]
fn binzip_rows_roundtrip() {
    let rows: Vec<(u64, u64)> = (0..5).map(|i| ((i as f64).to_bits(), (i as f64 * 1.5).to_bits())).collect();
    let bytes = encode_double_rows(&rows);
    assert_eq!(bytes.len(), 80);
    assert_eq!(&bytes[0..8], &0.0f64.to_le_bytes());
    assert_eq!(&bytes[24..32], &1.5f64.to_le_bytes());
    let decoded = decode_rows(&bytes, &vec![DataType::Double]);
    assert_eq!(decoded.len(), 5);
    for (i, row) in decoded.iter().enumerate() {
        assert_eq!(row.timestamp, rows[i].0);
        assert_eq!(row.values, vec![RawValue::Double(rows[i].1)]);
    }
}

#[test]
fn binzip_decode_no_rows() {
    let decoded = decode_rows(&[], &vec![DataType::UInt8]);
    assert!(decoded.is_empty());
}
