use binreader::cursor::ByteCursor;
use binreader::reader::transport;
use binreader::reader::ReadError;
use binreader::reader::Reader;

#[test]
fn single_byte_values() {
    let mut zero = ByteCursor::new(vec![0x00]);
    assert_eq!(zero.read_u8().unwrap(), 0);
    let mut zero = ByteCursor::new(vec![0x00]);
    assert_eq!(zero.read_i8().unwrap(), 0);

    let mut ones = ByteCursor::new(vec![0xFF]);
    assert_eq!(ones.read_u8().unwrap(), 255);
    let mut ones = ByteCursor::new(vec![0xFF]);
    assert_eq!(ones.read_i8().unwrap(), -1);
}

#[test]
fn u16_both_orders() {
    let mut c = ByteCursor::new(vec![0x01, 0x02]);
    assert_eq!(c.read_be_u16().unwrap(), 258);
    let mut c = ByteCursor::new(vec![0x01, 0x02]);
    assert_eq!(c.read_le_u16().unwrap(), 513);
}

#[test]
fn u32_all_ones_unsigned_and_signed() {
    let mut c = ByteCursor::new(vec![0xFF, 0xFF, 0xFF, 0xFF]);
    assert_eq!(c.read_be_u32().unwrap(), 4294967295);
    let mut c = ByteCursor::new(vec![0xFF, 0xFF, 0xFF, 0xFF]);
    assert_eq!(c.read_be_i32().unwrap(), -1);
}

#[test]
fn partial_width_is_short_read() {
    let mut c = ByteCursor::new(vec![0x01]);
    let e = c.read_be_u16().unwrap_err();
    assert!(e.is_short_read());
    assert!(!e.is_transport());
}

#[test]
fn short_streams_fail_at_every_width() {
    let mut c = ByteCursor::new(vec![0x01]);
    assert!(c.read_le_u16().unwrap_err().is_short_read());
    let mut c = ByteCursor::new(vec![0x01, 0x02, 0x03]);
    assert!(c.read_be_u32().unwrap_err().is_short_read());
    let mut c = ByteCursor::new(vec![0x01, 0x02, 0x03]);
    assert!(c.read_le_i32().unwrap_err().is_short_read());
    let mut c = ByteCursor::new(vec![0x01, 0x02, 0x03, 0x04, 0x05, 0x06, 0x07]);
    assert!(c.read_be_u64().unwrap_err().is_short_read());
    let mut c = ByteCursor::new(vec![0x01, 0x02, 0x03, 0x04, 0x05, 0x06, 0x07]);
    assert!(c.read_le_i64().unwrap_err().is_short_read());
}

#[test]
fn short_read_consumes_what_was_available() {
    let mut c = ByteCursor::new(vec![0x01]);
    assert!(c.read_be_u16().is_err());
    assert_eq!(c.len(), 0);
}

#[test]
fn round_trip_be() {
    let mut c = ByteCursor::new(vec![0xDE, 0xAD]);
    assert_eq!(c.read_be_u16().unwrap(), 0xDEAD);
    let mut c = ByteCursor::new(vec![0xDE, 0xAD, 0xBE, 0xEF]);
    assert_eq!(c.read_be_u32().unwrap(), 0xDEADBEEF);
    let mut c = ByteCursor::new(vec![0x01, 0x23, 0x45, 0x67, 0x89, 0xAB, 0xCD, 0xEF]);
    assert_eq!(c.read_be_u64().unwrap(), 0x0123456789ABCDEF);
    let mut c = ByteCursor::new(vec![0x80, 0x00]);
    assert_eq!(c.read_be_i16().unwrap(), i16::MIN);
    let mut c = ByteCursor::new(vec![0x7F, 0xFF, 0xFF, 0xFF]);
    assert_eq!(c.read_be_i32().unwrap(), i32::MAX);
    let mut c = ByteCursor::new(vec![0xFF, 0xFF, 0xFF, 0xFF, 0xFF, 0xFF, 0xFF, 0xFE]);
    assert_eq!(c.read_be_i64().unwrap(), -2);
}

#[test]
fn round_trip_le() {
    let mut c = ByteCursor::new(vec![0xAD, 0xDE]);
    assert_eq!(c.read_le_u16().unwrap(), 0xDEAD);
    let mut c = ByteCursor::new(vec![0xEF, 0xBE, 0xAD, 0xDE]);
    assert_eq!(c.read_le_u32().unwrap(), 0xDEADBEEF);
    let mut c = ByteCursor::new(vec![0xEF, 0xCD, 0xAB, 0x89, 0x67, 0x45, 0x23, 0x01]);
    assert_eq!(c.read_le_u64().unwrap(), 0x0123456789ABCDEF);
    let mut c = ByteCursor::new(vec![0x00, 0x80]);
    assert_eq!(c.read_le_i16().unwrap(), i16::MIN);
    let mut c = ByteCursor::new(vec![0xFE, 0xFF, 0xFF, 0xFF]);
    assert_eq!(c.read_le_i32().unwrap(), -2);
    let mut c = ByteCursor::new(vec![0xFF, 0xFF, 0xFF, 0xFF, 0xFF, 0xFF, 0xFF, 0x7F]);
    assert_eq!(c.read_le_i64().unwrap(), i64::MAX);
}

#[test]
fn big_endian_equals_little_endian_of_reversed() {
    let forward = vec![0x12, 0x34, 0x56, 0x78];
    let backward = vec![0x78, 0x56, 0x34, 0x12];

    let mut be = ByteCursor::new(forward.clone());
    let mut le = ByteCursor::new(backward.clone());
    assert_eq!(be.read_be_u32().unwrap(), le.read_le_u32().unwrap());

    let mut be = ByteCursor::new(forward);
    let mut le = ByteCursor::new(backward);
    assert_eq!(be.read_be_i32().unwrap(), le.read_le_i32().unwrap());

    let mut be = ByteCursor::new(vec![0xCA, 0xFE]);
    let mut le = ByteCursor::new(vec![0xFE, 0xCA]);
    assert_eq!(be.read_be_u16().unwrap(), le.read_le_u16().unwrap());
}

#[test]
fn signed_and_unsigned_share_bit_patterns() {
    let bytes = vec![0xFE, 0xDC, 0xBA, 0x98, 0x76, 0x54, 0x32, 0x10];

    let mut c = ByteCursor::new(vec![0xFE, 0xDC]);
    let u = c.read_be_u16().unwrap();
    let mut c = ByteCursor::new(vec![0xFE, 0xDC]);
    let i = c.read_be_i16().unwrap();
    assert_eq!(i as u16, u);

    let mut c = ByteCursor::new(bytes[..4].to_vec());
    let u = c.read_le_u32().unwrap();
    let mut c = ByteCursor::new(bytes[..4].to_vec());
    let i = c.read_le_i32().unwrap();
    assert_eq!(i as u32, u);

    let mut c = ByteCursor::new(bytes.clone());
    let u = c.read_be_u64().unwrap();
    let mut c = ByteCursor::new(bytes);
    let i = c.read_be_i64().unwrap();
    assert_eq!(i as u64, u);
}

#[test]
fn successive_reads_advance_the_cursor() {
    let mut c = ByteCursor::new(vec![0x01, 0x02, 0x03, 0x04, 0x05, 0x06]);
    assert_eq!(c.read_be_u16().unwrap(), 0x0102);
    assert_eq!(c.read_le_u16().unwrap(), 0x0403);
    assert_eq!(c.read_u8().unwrap(), 0x05);
    assert_eq!(c.len(), 1);
    assert_eq!(c.read_i8().unwrap(), 0x06);
    assert!(c.read_u8().unwrap_err().is_short_read());
}

#[test]
fn transport_carries_the_stream_error_unchanged() {
    let e = transport(42u32);
    assert!(e.is_transport());
    assert!(!e.is_short_read());
    match e {
        ReadError::Transport(v) => assert_eq!(v, 42),
        ReadError::ShortRead => panic!("expected a transport error"),
    }
}

#[test]
fn error_descriptions() {
    let short: ReadError<()> = ReadError::ShortRead;
    assert_eq!(short.describe(), "could not read enough bytes (end of stream?)");
    let transport: ReadError<()> = ReadError::Transport(());
    assert_eq!(transport.describe(), "the underlying stream failed");
    assert!(transport.is_transport());
    assert!(!transport.is_short_read());
}
