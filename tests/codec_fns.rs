use bytestream::codec::{be_decode, be_encode, from_twos, to_twos};

#[test]
fn be_encode_keeps_low_bytes_most_significant_first() {
    assert_eq!(be_encode(0x0102_0304, 4), vec![1, 2, 3, 4]);
    assert_eq!(be_encode(0x0102_0304, 2), vec![3, 4]);
    assert_eq!(be_encode(0xAB, 3), vec![0, 0, 0xAB]);
    assert_eq!(be_encode(7, 0), Vec::<u8>::new());
    assert_eq!(be_encode(u128::MAX, 16), vec![0xFF; 16]);
}

#[test]
fn be_decode_reads_most_significant_first() {
    assert_eq!(be_decode(&[1, 2, 3, 4]), 0x0102_0304);
    assert_eq!(be_decode(&[]), 0);
    assert_eq!(be_decode(&[0xFF; 16]), u128::MAX);
    assert_eq!(be_decode(&[0x80, 0, 0, 0, 0, 0, 0, 0, 0, 0, 0, 0, 0, 0, 0, 0]), 1u128 << 127);
}

#[test]
fn twos_complement_conversions() {
    assert_eq!(to_twos(-1, 1), 0xFF);
    assert_eq!(to_twos(-128, 1), 0x80);
    assert_eq!(to_twos(127, 1), 0x7F);
    assert_eq!(to_twos(-2, 2), 0xFFFE);
    assert_eq!(to_twos(i128::MIN, 16), 1u128 << 127);
    assert_eq!(to_twos(-1, 16), u128::MAX);
    assert_eq!(from_twos(0xFF, 1), -1);
    assert_eq!(from_twos(0x80, 1), -128);
    assert_eq!(from_twos(0x7F, 1), 127);
    assert_eq!(from_twos(0x8000_0000, 4), i32::MIN as i128);
    assert_eq!(from_twos(u128::MAX, 16), -1);
    assert_eq!(from_twos(1u128 << 127, 16), i128::MIN);
}
