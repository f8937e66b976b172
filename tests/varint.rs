use sqlite_btree::varint::{encode_varint, VarInt, VarIntError};

#[test]
fn test_try_from_varint_valid() {
    // Test valid varints
    let varint_bytes: &[u8] = &[0b0000_0001];
    let varint = VarInt::from_be_bytes(varint_bytes).unwrap();
    assert_eq!(varint.0, 1);
    assert_eq!(varint.1, 1);

    let varint_bytes: &[u8] = &[0b0000_0000];
    let varint = VarInt::from_be_bytes(varint_bytes).unwrap();
    assert_eq!(varint.0, 0);
    assert_eq!(varint.1, 1);

    let varint_bytes: &[u8] = &[0b0000_0100];
    let varint = VarInt::from_be_bytes(varint_bytes).unwrap();
    assert_eq!(varint.0, 4);
    assert_eq!(varint.1, 1);

    let varint_bytes: &[u8] = &[0b1000_0001, 0b0000_0001];
    let varint = VarInt::from_be_bytes(varint_bytes).unwrap();
    assert_eq!(varint.0, 129);
    assert_eq!(varint.1, 2);
}

#[test]
fn varint_errors() {
    assert_eq!(VarInt::from_be_bytes(&[]), Err(VarIntError::Empty));
    assert_eq!(VarInt::from_be_bytes(&[0x81]), Err(VarIntError::Incomplete));
    assert_eq!(VarInt::from_be_bytes(&[0xff; 8]), Err(VarIntError::Incomplete));
}

#[test]
fn varint_nine_bytes_keep_all_bits_of_the_last() {
    let bytes = [0xff; 9];
    assert_eq!(VarInt::from_be_bytes(&bytes), Ok(VarInt(-1, 9)));
    let mut bytes = [0x80u8; 9];
    bytes[8] = 0x01;
    assert_eq!(VarInt::from_be_bytes(&bytes), Ok(VarInt(1, 9)));
}

#[test]
fn varint_stops_at_first_clear_high_bit() {
    assert_eq!(VarInt::from_be_bytes(&[0x05, 0xff, 0xff]), Ok(VarInt(5, 1)));
    assert_eq!(VarInt::from_be_bytes(&[0x82, 0x00, 0x07]), Ok(VarInt(256, 2)));
}

#[test]
fn varint_round_trip_values() {
    let values: [i64; 14] = [
        0,
        1,
        127,
        128,
        16383,
        16384,
        (1 << 56) - 1,
        1 << 56,
        i64::MAX,
        -1,
        -128,
        i64::MIN,
        0x0123_4567_89ab_cdef,
        240,
    ];
    for v in values {
        let bytes = encode_varint(v);
        let decoded = VarInt::from_be_bytes(&bytes).unwrap();
        assert_eq!(decoded.0, v);
        assert_eq!(decoded.1 as usize, bytes.len());
    }
}

#[test]
fn varint_lengths() {
    assert_eq!(encode_varint(0).len(), 1);
    assert_eq!(encode_varint(127).len(), 1);
    assert_eq!(encode_varint(128).len(), 2);
    assert_eq!(encode_varint(16383).len(), 2);
    assert_eq!(encode_varint(16384).len(), 3);
    assert_eq!(encode_varint((1 << 56) - 1).len(), 8);
    assert_eq!(encode_varint(1 << 56).len(), 9);
    assert_eq!(encode_varint(-1).len(), 9);
    assert_eq!(encode_varint(129), vec![0x81, 0x01]);
    assert_eq!(encode_varint(-1), vec![0xff; 9]);
}
