use gorilla::BitBuffer;
use gorilla::BitReader;
use gorilla::BufferFull;

#[test]
fn test_write_and_read_bits() {
    let mut buf = BitBuffer::new();
    buf.write_bit(true).unwrap();
    buf.write_bit(false).unwrap();
    buf.write_bit(true).unwrap();
    buf.write_bit(true).unwrap();
    assert_eq!(buf.len_bits(), 4);

    let mut reader = BitReader::new(&buf);
    assert_eq!(reader.read_bit(), Some(true));
    assert_eq!(reader.read_bit(), Some(false));
    assert_eq!(reader.read_bit(), Some(true));
    assert_eq!(reader.read_bit(), Some(true));
    assert_eq!(reader.read_bit(), None);
}

#[test]
fn test_write_and_read_multi_bits() {
    let mut buf = BitBuffer::new();
    buf.write_bits(0b11010, 5).unwrap();
    buf.write_bits(0xFF, 8).unwrap();
    buf.write_bits(0x00, 8).unwrap();
    assert_eq!(buf.len_bits(), 21);

    let mut reader = BitReader::new(&buf);
    assert_eq!(reader.read_bits(5), Some(0b11010));
    assert_eq!(reader.read_bits(8), Some(0xFF));
    assert_eq!(reader.read_bits(8), Some(0x00));
    assert!(reader.is_exhausted());
}

#[test]
fn test_64_bit_value() {
    let mut buf = BitBuffer::new();
    let val: u64 = 0xDEAD_BEEF_CAFE_BABE;
    buf.write_bits(val, 64).unwrap();
    assert_eq!(buf.len_bits(), 64);

    let mut reader = BitReader::new(&buf);
    assert_eq!(reader.read_bits(64), Some(val));
}

#[test]
fn test_empty_buffer() {
    let buf = BitBuffer::new();
    assert!(buf.is_empty());
    assert_eq!(buf.len_bits(), 0);

    let mut reader = BitReader::new(&buf);
    assert!(reader.is_exhausted());
    assert_eq!(reader.read_bit(), None);
}

#[test]
fn test_with_limit_allows_within_budget() {
    let mut buf = BitBuffer::with_limit(2);
    // 2 bytes = 16 bits should be fine
    buf.write_bits(0xABCD, 16).unwrap();
    assert_eq!(buf.len_bits(), 16);
    assert_eq!(buf.remaining_capacity(), Some(0));
}

#[test]
fn test_with_limit_rejects_overflow() {
    let mut buf = BitBuffer::with_limit(1);
    // First 8 bits fit in 1 byte.
    buf.write_bits(0xFF, 8).unwrap();
    // The 9th bit requires a second byte — should fail.
    assert_eq!(buf.write_bit(true), Err(BufferFull));
    // Buffer should still contain exactly 8 bits.
    assert_eq!(buf.len_bits(), 8);
}

#[test]
fn test_with_limit_partial_byte_ok() {
    let mut buf = BitBuffer::with_limit(1);
    // Writing 5 bits only needs 1 byte.
    buf.write_bits(0b10101, 5).unwrap();
    assert_eq!(buf.len_bits(), 5);
    // 3 more bits still fit in the same byte.
    buf.write_bits(0b010, 3).unwrap();
    assert_eq!(buf.len_bits(), 8);
    // 9th bit would need a 2nd byte — rejected.
    assert!(buf.write_bit(false).is_err());
}

#[test]
fn test_no_limit_is_unlimited() {
    let mut buf = BitBuffer::new();
    assert_eq!(buf.limit(), None);
    assert_eq!(buf.remaining_capacity(), None);
    // Should never fail.
    buf.write_bits(0xDEADBEEF, 32).unwrap();
    buf.write_bits(0xDEADBEEF, 32).unwrap();
}

#[test]
fn test_set_limit() {
    let mut buf = BitBuffer::new();
    assert_eq!(buf.limit(), None);
    buf.set_limit(Some(4));
    assert_eq!(buf.limit(), Some(4));
    buf.write_bits(0xDEADBEEF, 32).unwrap();
    assert!(buf.write_bit(true).is_err());
    // Remove limit
    buf.set_limit(None);
    buf.write_bit(true).unwrap();
}
