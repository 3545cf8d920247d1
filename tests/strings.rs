use bytestream::error::ByteError;
use bytestream::frame::LengthPrefix;
use bytestream::memory::{ByteReader, ByteWriter};
use bytestream::read::ReadBytes;
use bytestream::write::WriteBytes;

fn round_trip(prefix: LengthPrefix, text: &str) -> String {
    let mut w = ByteWriter::new();
    w.write_string(prefix, text.to_string()).unwrap();
    let mut r = ByteReader::new(w.into_bytes());
    let back = r.read_string(prefix).unwrap();
    assert_eq!(r.remaining(), 0);
    back
}

#[test]
fn hello_with_u16_prefix() {
    let mut w = ByteWriter::new();
    w.write_string(LengthPrefix::U16, "Hello".to_string()).unwrap();
    let bytes = w.into_bytes();
    assert_eq!(bytes, vec![0x00, 0x05, b'H', b'e', b'l', b'l', b'o']);
    let mut r = ByteReader::new(bytes);
    assert_eq!(r.read_string(LengthPrefix::U16).unwrap(), "Hello");
}

#[test]
fn hello_with_u8_and_u32_prefixes() {
    let mut w = ByteWriter::new();
    w.write_string(LengthPrefix::U8, "Hello".to_string()).unwrap();
    w.write_string(LengthPrefix::U32, "Hello".to_string()).unwrap();
    let bytes = w.into_bytes();
    assert_eq!(&bytes[..6], &[0x05, b'H', b'e', b'l', b'l', b'o']);
    assert_eq!(&bytes[6..10], &[0x00, 0x00, 0x00, 0x05]);
    let mut r = ByteReader::new(bytes);
    assert_eq!(r.read_string(LengthPrefix::U8).unwrap(), "Hello");
    assert_eq!(r.read_string(LengthPrefix::U32).unwrap(), "Hello");
}

#[test]
fn empty_and_single_byte_strings_round_trip() {
    for prefix in [LengthPrefix::U8, LengthPrefix::U16, LengthPrefix::U32] {
        assert_eq!(round_trip(prefix, ""), "");
        assert_eq!(round_trip(prefix, "x"), "x");
    }
    let mut w = ByteWriter::new();
    w.write_string(LengthPrefix::U16, String::new()).unwrap();
    assert_eq!(w.into_bytes(), vec![0x00, 0x00]);
}

#[test]
fn multibyte_text_round_trips_and_counts_bytes() {
    let text = "héllo € 😀";
    assert_eq!(round_trip(LengthPrefix::U8, text), text);
    let mut w = ByteWriter::new();
    w.write_string(LengthPrefix::U8, text.to_string()).unwrap();
    let bytes = w.into_bytes();
    assert_eq!(bytes[0] as usize, text.len());
    assert_eq!(bytes.len(), 1 + text.len());
}

#[test]
fn u8_prefix_boundary() {
    let at_limit = "a".repeat(255);
    assert_eq!(round_trip(LengthPrefix::U8, &at_limit), at_limit);
    let over = "a".repeat(256);
    let mut w = ByteWriter::new();
    assert!(matches!(
        w.write_string(LengthPrefix::U8, over.clone()),
        Err(ByteError::LengthOverflow)
    ));
    assert!(w.as_slice().is_empty());
    assert_eq!(round_trip(LengthPrefix::U16, &over), over);
}

#[test]
fn u16_prefix_boundary() {
    let at_limit = "b".repeat(65535);
    assert_eq!(round_trip(LengthPrefix::U16, &at_limit), at_limit);
    let over = "b".repeat(65536);
    let mut w = ByteWriter::new();
    assert!(matches!(
        w.write_string(LengthPrefix::U16, over.clone()),
        Err(ByteError::LengthOverflow)
    ));
    assert_eq!(w.into_bytes().len(), 0);
    assert_eq!(round_trip(LengthPrefix::U32, &over), over);
}

#[test]
fn overflow_leaves_earlier_bytes_alone() {
    let mut w = ByteWriter::new();
    w.write_u8(9).unwrap();
    let long = "é".repeat(128);
    assert!(matches!(
        w.write_string(LengthPrefix::U8, long),
        Err(ByteError::LengthOverflow)
    ));
    assert_eq!(w.into_bytes(), vec![9]);
}

#[test]
fn invalid_utf8_is_an_encoding_error_and_is_consumed() {
    let mut r = ByteReader::new(vec![0x02, 0xC3, 0x28, 0x07]);
    assert!(matches!(r.read_string(LengthPrefix::U8), Err(ByteError::InvalidUtf8)));
    assert_eq!(r.remaining(), 1);
    assert_eq!(r.read_u8().unwrap(), 7);
}

#[test]
fn surrogate_and_overlong_encodings_are_rejected() {
    let mut r = ByteReader::new(vec![0x00, 0x03, 0xED, 0xA0, 0x80]);
    assert!(matches!(r.read_string(LengthPrefix::U16), Err(ByteError::InvalidUtf8)));
    let mut r = ByteReader::new(vec![0x02, 0xC0, 0xAF]);
    assert!(matches!(r.read_string(LengthPrefix::U8), Err(ByteError::InvalidUtf8)));
    let mut r = ByteReader::new(vec![0x01, 0xFF]);
    assert!(matches!(r.read_string(LengthPrefix::U8), Err(ByteError::InvalidUtf8)));
}

#[test]
fn truncated_prefix_is_end_of_stream() {
    let mut r = ByteReader::new(vec![0x00, 0x00, 0x01]);
    assert!(matches!(r.read_string(LengthPrefix::U32), Err(ByteError::EndOfStream)));
    let mut r = ByteReader::new(vec![]);
    assert!(matches!(r.read_string(LengthPrefix::U8), Err(ByteError::EndOfStream)));
}

#[test]
fn truncated_payload_is_reported_apart() {
    let mut r = ByteReader::new(vec![0x05, b'H', b'e']);
    assert!(matches!(r.read_string(LengthPrefix::U8), Err(ByteError::TruncatedPayload)));
    let mut r = ByteReader::new(vec![0xFF, 0xFF, 0xFF, 0xFF, b'x']);
    assert!(matches!(r.read_string(LengthPrefix::U32), Err(ByteError::TruncatedPayload)));
}

#[test]
fn reader_and_writer_disagreeing_on_width_do_not_round_trip() {
    let mut w = ByteWriter::new();
    w.write_string(LengthPrefix::U16, "hi".to_string()).unwrap();
    let mut r = ByteReader::new(w.into_bytes());
    assert_eq!(r.read_string(LengthPrefix::U8).unwrap(), "");
    assert_eq!(r.remaining(), 3);
}
