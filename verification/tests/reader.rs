use binreader::cursor::ByteCursor;
use binreader::reader::Reader;

#[test]
fn test_read_empty_u8() {
    let mut vector = ByteCursor::new(vec![0u8; 0]);

    assert!(vector.read_u8().is_err());
}

#[test]
fn test_read_empty_i8() {
    let mut vector = ByteCursor::new(vec![0u8; 0]);

    assert!(vector.read_i8().is_err());
}

#[test]
fn test_read_empty_le_u16() {
    let mut vector = ByteCursor::new(vec![0u8; 0]);

    assert!(vector.read_le_u16().is_err());
}

#[test]
fn test_read_empty_le_i16() {
    let mut vector = ByteCursor::new(vec![0u8; 0]);

    assert!(vector.read_le_i16().is_err());
}

#[test]
fn test_read_empty_be_u16() {
    let mut vector = ByteCursor::new(vec![0u8; 0]);

    assert!(vector.read_be_u16().is_err());
}

#[test]
fn test_read_empty_be_i16() {
    let mut vector = ByteCursor::new(vec![0u8; 0]);

    assert!(vector.read_be_i16().is_err());
}

#[test]
fn test_read_empty_be_u32() {
    let mut vector = ByteCursor::new(vec![0u8; 0]);

    assert!(vector.read_be_u32().is_err());
}

#[test]
fn test_read_empty_be_i32() {
    let mut vector = ByteCursor::new(vec![0u8; 0]);

    assert!(vector.read_be_i32().is_err());
}

#[test]
fn test_read_empty_le_u32() {
    let mut vector = ByteCursor::new(vec![0u8; 0]);

    assert!(vector.read_le_u32().is_err());
}

#[test]
fn test_read_empty_le_i32() {
    let mut vector = ByteCursor::new(vec![0u8; 0]);

    assert!(vector.read_le_i32().is_err());
}

#[test]
fn test_read_empty_be_u64() {
    let mut vector = ByteCursor::new(vec![0u8; 0]);

    assert!(vector.read_be_u64().is_err());
}

#[test]
fn test_read_empty_be_i64() {
    let mut vector = ByteCursor::new(vec![0u8; 0]);

    assert!(vector.read_be_i64().is_err());
}

#[test]
fn test_read_empty_le_u64() {
    let mut vector = ByteCursor::new(vec![0u8; 0]);

    assert!(vector.read_le_u64().is_err());
}

#[test]
fn test_read_empty_le_i64() {
    let mut vector = ByteCursor::new(vec![0u8; 0]);

    assert!(vector.read_le_i64().is_err());
}
