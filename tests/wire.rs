use logbroker::wire::{
    read_api_key, read_bytes, read_i64, read_key, read_partition, read_record, read_record_count,
    read_str, read_topic, read_u32, write_api_key, write_max_bytes, write_offset, write_partition,
    write_record, write_record_bytes, write_record_count, write_status, write_str, write_topic,
    ByteReader, IoError,
};

#[test]
fn round_trip_basic_fields() {
    let mut out: Vec<u8> = Vec::with_capacity(128);
    write_api_key(&mut out, 1);
    write_topic(&mut out, "topic");
    write_partition(&mut out, 3);
    write_record_count(&mut out, 2);

    let mut buf = ByteReader::new(out);
    assert_eq!(read_api_key(&mut buf).unwrap(), 1);
    assert_eq!(read_topic(&mut buf).unwrap(), "topic");
    assert_eq!(read_partition(&mut buf).unwrap(), 3);
    assert_eq!(read_record_count(&mut buf).unwrap(), 2);
    assert_eq!(buf.remaining(), 0);
}

#[test]
fn round_trip_record_bytes() {
    let mut out: Vec<u8> = Vec::with_capacity(64);
    let key = b"k".to_vec();
    let value = b"val".to_vec();
    write_record_bytes(&mut out, &key, &value);

    let mut buf = ByteReader::new(out);
    let (read_key, read_value) = read_record(&mut buf).unwrap();
    assert_eq!(read_key, key);
    assert_eq!(read_value, value);
    assert_eq!(buf.remaining(), 0);
}

#[test]
fn read_str_returns_eof_on_short_buffer() {
    let mut buf = ByteReader::new(vec![0x00]);
    let err = read_str(&mut buf).unwrap_err();
    match err {
        IoError::Eof => {}
        _ => panic!("expected IoError::Eof"),
    }
}

#[test]
fn integers_are_big_endian() {
    let mut out = Vec::new();
    write_partition(&mut out, 0x0102);
    write_max_bytes(&mut out, 0x0304_0506);
    write_offset(&mut out, -2);
    write_status(&mut out, 9);
    assert_eq!(
        out,
        vec![1, 2, 3, 4, 5, 6, 0xff, 0xff, 0xff, 0xff, 0xff, 0xff, 0xff, 0xfe, 9]
    );
    let mut buf = ByteReader::new(out);
    assert_eq!(read_partition(&mut buf).unwrap(), 0x0102);
    assert_eq!(read_u32(&mut buf).unwrap(), 0x0304_0506);
    assert_eq!(read_i64(&mut buf).unwrap(), -2);
    assert_eq!(buf.remaining(), 1);
}

#[test]
fn failed_read_consumes_nothing() {
    // a key that announces 5 bytes but holds 2
    let mut buf = ByteReader::new(vec![0, 5, b'a', b'b']);
    assert!(matches!(read_key(&mut buf), Err(IoError::Eof)));
    assert_eq!(buf.remaining(), 4);
    // a record whose value is cut short
    let mut buf = ByteReader::new(vec![0, 1, b'k', 0, 0, 0, 3, b'v']);
    assert!(matches!(read_record(&mut buf), Err(IoError::Eof)));
    assert_eq!(buf.remaining(), 8);
}

#[test]
fn write_str_rejects_long_strings() {
    let long = "x".repeat(65536);
    let mut out = vec![7u8];
    assert!(matches!(write_str(&mut out, &long), Err(IoError::StringTooLong)));
    assert_eq!(out, vec![7u8]);
    let fits = "y".repeat(65535);
    assert!(write_str(&mut out, &fits).is_ok());
    assert_eq!(out.len(), 1 + 2 + 65535);
    assert_eq!(&out[1..3], &[0xff, 0xff]);
}

#[test]
fn invalid_utf8_is_repaired() {
    let mut buf = ByteReader::new(vec![0, 3, b'a', 0xff, b'b']);
    assert_eq!(read_str(&mut buf).unwrap(), "a\u{fffd}b");
    let mut buf = ByteReader::new(vec![0, 2, 0xc3, 0xa9]);
    assert_eq!(read_str(&mut buf).unwrap(), "é");
}

#[test]
fn values_take_a_u32_length() {
    let mut out = Vec::new();
    write_record(&mut out, "", "hello");
    assert_eq!(out, vec![0, 0, 0, 0, 0, 5, b'h', b'e', b'l', b'l', b'o']);
    let mut buf = ByteReader::new(out[2..].to_vec());
    assert_eq!(read_bytes(&mut buf).unwrap(), b"hello".to_vec());
}
