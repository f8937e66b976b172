use sqlite_btree::error::Error;
use sqlite_btree::record::Record;
use sqlite_btree::serial::{SerialData, SerialDataError, SerialType};
use sqlite_btree::varint::{encode_varint, VarInt};

/// A record whose columns have the given serial type codes and body bytes.
fn record(columns: &[(i64, Vec<u8>)]) -> Vec<u8> {
    let mut codes = Vec::new();
    for (code, _) in columns {
        codes.extend(encode_varint(*code));
    }
    let mut header_len = codes.len() as i64 + 1;
    if encode_varint(header_len).len() > 1 {
        header_len += 1;
    }
    let mut out = encode_varint(header_len);
    out.extend(codes);
    for (_, body) in columns {
        out.extend(body.iter().copied());
    }
    out
}

#[test]
fn serial_type_codes() {
    assert_eq!(SerialType::from_varint(VarInt(0, 1)), Ok(SerialType::Null));
    assert_eq!(SerialType::from_varint(VarInt(7, 1)), Ok(SerialType::F64));
    assert_eq!(SerialType::from_varint(VarInt(10, 1)), Ok(SerialType::Reserved));
    assert_eq!(SerialType::from_varint(VarInt(11, 1)), Ok(SerialType::Reserved));
    assert_eq!(SerialType::from_varint(VarInt(12, 1)), Ok(SerialType::Blob(0)));
    assert_eq!(SerialType::from_varint(VarInt(13, 1)), Ok(SerialType::Text(0)));
    assert_eq!(SerialType::from_varint(VarInt(30, 1)), Ok(SerialType::Blob(9)));
    assert_eq!(SerialType::from_varint(VarInt(31, 1)), Ok(SerialType::Text(9)));
    assert_eq!(SerialType::from_varint(VarInt(-3, 9)), Err(Error::InvalidSerialType));
}

#[test]
fn serial_values_are_big_endian_twos_complement() {
    assert_eq!(
        SerialType::I16.serial_type_to_serial_data(&[0xff, 0xfe, 0x99]),
        Ok((SerialData::I16(-2), 2))
    );
    assert_eq!(
        SerialType::I24.serial_type_to_serial_data(&[0x80, 0x00, 0x00]),
        Ok((SerialData::I24(-8388608), 3))
    );
    assert_eq!(
        SerialType::I48.serial_type_to_serial_data(&[0, 0, 0, 0, 1, 2]),
        Ok((SerialData::I48(258), 6))
    );
    assert_eq!(
        SerialType::I64.serial_type_to_serial_data(&[0x80, 0, 0, 0, 0, 0, 0, 0]),
        Ok((SerialData::I64(i64::MIN), 8))
    );
    let bits = 1.5f64.to_bits().to_be_bytes();
    assert_eq!(
        SerialType::F64.serial_type_to_serial_data(&bits),
        Ok((SerialData::F64(1.5f64.to_bits()), 8))
    );
}

#[test]
fn zero_sized_values_need_no_bytes() {
    assert_eq!(SerialType::Null.serial_type_to_serial_data(&[]), Ok((SerialData::Null, 0)));
    assert_eq!(SerialType::One.serial_type_to_serial_data(&[]), Ok((SerialData::One, 0)));
}

#[test]
fn serial_value_errors() {
    assert_eq!(
        SerialType::I32.serial_type_to_serial_data(&[1, 2, 3]),
        Err(SerialDataError::OutOfBounds)
    );
    assert_eq!(
        SerialType::Text(2).serial_type_to_serial_data(&[0xc3, 0x28]),
        Err(SerialDataError::InvalidText)
    );
    assert_eq!(
        SerialType::Text(2).serial_type_to_serial_data(&[0xc3, 0xa9, 0x00]),
        Ok((SerialData::Text("é".to_string()), 2))
    );
}

#[test]
fn record_decodes_each_column_in_order() {
    let bytes = record(&[
        (1, vec![0x7f]),
        (0, vec![]),
        (19, b"abc".to_vec()),
        (16, vec![9, 8]),
        (9, vec![]),
    ]);
    let (rec, used) = Record::from_be_bytes(&bytes).unwrap();
    assert_eq!(used as usize, bytes.len());
    assert_eq!(
        rec.values(),
        &vec![
            SerialData::I8(127),
            SerialData::Null,
            SerialData::Text("abc".to_string()),
            SerialData::Blob(vec![9, 8]),
            SerialData::One,
        ]
    );
}

#[test]
fn record_consumes_header_and_declared_sizes() {
    let mut bytes = record(&[(4, vec![0, 0, 1, 0]), (23, b"hello".to_vec())]);
    let header_and_body = bytes.len();
    bytes.extend([0xaa, 0xbb]);
    let (rec, used) = Record::from_be_bytes(&bytes).unwrap();
    assert_eq!(used as usize, header_and_body);
    assert_eq!(used as usize, 3 + 4 + 5);
    assert_eq!(rec.values().len(), 2);
}

#[test]
fn record_with_short_body_is_out_of_bounds() {
    let mut bytes = record(&[(6, vec![0; 8])]);
    bytes.truncate(bytes.len() - 1);
    assert_eq!(Record::from_be_bytes(&bytes).unwrap_err(), Error::OutOfBounds);
}

#[test]
fn record_with_bad_serial_type() {
    let mut bytes = vec![10];
    bytes.extend([0xff; 9]);
    assert_eq!(Record::from_be_bytes(&bytes).unwrap_err(), Error::InvalidSerialType);
}

#[test]
fn record_header_varint_cut_short() {
    let bytes = vec![3, 0x81];
    assert_eq!(Record::from_be_bytes(&bytes).unwrap_err(), Error::Incomplete);
}

#[test]
fn record_errors() {
    assert_eq!(Record::from_be_bytes(&[]).unwrap_err(), Error::Empty);
    assert_eq!(Record::from_be_bytes(&[3, 1]).unwrap_err(), Error::Empty);
}
