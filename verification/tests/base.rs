use symbolic_unwind::base::{
    BigEndian, Endianness, LittleEndian, MemoryRegion, MemorySlice, RegisterValue, RuntimeEndian,
};
use symbolic_unwind::decimal::DecimalValue;

#[test]
fn test_endianness_tags() {
    assert!(BigEndian.is_big_endian());
    assert!(!LittleEndian.is_big_endian());
    assert!(RuntimeEndian::Big.is_big_endian());
    assert!(!RuntimeEndian::Little.is_big_endian());
}

#[test]
fn test_runtime_endian_default() {
    let d = RuntimeEndian::default();
    assert!(d == RuntimeEndian::Big || d == RuntimeEndian::Little);
}

// Endianness sensitivity: the bytes [0x00, 0x01] decode as 1 under
// big-endian and as 256 under little-endian.
#[test]
fn test_endianness_sensitivity() {
    let bytes = [0x00u8, 0x01];
    assert_eq!(u16::read_bytes(&bytes, BigEndian), Some(1));
    assert_eq!(u16::read_bytes(&bytes, LittleEndian), Some(256));
}

#[test]
fn test_read_bytes_widths() {
    let bytes = [0x12u8, 0x34, 0x56, 0x78, 0x9a, 0xbc, 0xde, 0xf0];
    assert_eq!(u8::read_bytes(&bytes, BigEndian), Some(0x12));
    assert_eq!(u8::read_bytes(&bytes, LittleEndian), Some(0x12));
    assert_eq!(u16::read_bytes(&bytes, BigEndian), Some(0x1234));
    assert_eq!(u32::read_bytes(&bytes, LittleEndian), Some(0x78563412));
    assert_eq!(u64::read_bytes(&bytes, BigEndian), Some(0x123456789abcdef0));
    assert_eq!(u64::read_bytes(&bytes, LittleEndian), Some(0xf0debc9a78563412));
}

#[test]
fn test_read_bytes_too_short() {
    let bytes = [0x12u8, 0x34, 0x56];
    assert_eq!(u32::read_bytes(&bytes, LittleEndian), None);
    assert_eq!(u64::read_bytes(&bytes, BigEndian), None);
    assert_eq!(u8::read_bytes(&[], BigEndian), None);
}

#[test]
fn test_register_widths() {
    assert_eq!(u8::width(), 1);
    assert_eq!(u16::width(), 2);
    assert_eq!(u32::width(), 4);
    assert_eq!(u64::width(), 8);
}

#[test]
fn test_register_conversions() {
    assert_eq!(u16::from_u8(0xab), 0xab);
    assert_eq!(u64::from_u8(7), 7);
    assert_eq!(0xabcdu16.to_u64(), 0xabcd);
}

// Memory bounds: a region with base 0x1000 and size 4 serves a 2-byte read
// at 0x1002 and refuses one at 0x1003 (past the end) and at 0x0fff (before
// the base).
#[test]
fn test_memory_bounds() {
    let bytes = [0xaau8, 0xbb, 0xcc, 0xdd];
    let region = MemorySlice::new(0x1000, &bytes);
    assert_eq!(region.get::<u64, BigEndian>(0x1002, BigEndian), None);
    assert_eq!(region.get::<u16, BigEndian>(0x1002, BigEndian), Some(0xccdd));
    assert_eq!(region.get::<u16, BigEndian>(0x1003, BigEndian), None);
    assert_eq!(region.get::<u16, BigEndian>(0x0fff, BigEndian), None);
}

#[test]
fn test_memory_slice_accessors() {
    let bytes = [1u8, 2, 3];
    let region = MemorySlice::new(64, &bytes);
    assert_eq!(region.base_addr(), 64);
    assert_eq!(region.size(), 3);
    assert!(!region.is_empty());
    let empty = MemorySlice::new(64, &[]);
    assert!(empty.is_empty());
}

#[test]
fn test_wrapping_arithmetic() {
    assert_eq!(200u8.wrapping_add(100), 44);
    assert_eq!(3u8.wrapping_sub(5), 254);
    assert_eq!(16u8.wrapping_mul(16), 0);
    assert_eq!(RegisterValue::div(7u8, 2), 3);
    assert_eq!(RegisterValue::rem(7u8, 2), 1);
    assert!(0u8.is_zero());
    assert!(!1u8.is_zero());
}

#[test]
fn test_decimal_round_trip() {
    assert_eq!(0u64.to_decimal(), b"0".to_vec());
    assert_eq!(255u8.to_decimal(), b"255".to_vec());
    assert_eq!((-128i8).to_decimal(), b"-128".to_vec());
    assert_eq!(i64::MIN.to_decimal(), b"-9223372036854775808".to_vec());
    assert_eq!(u64::MAX.to_decimal(), b"18446744073709551615".to_vec());

    assert_eq!(u8::from_decimal(b"255", false, 0, 3), Some(255));
    assert_eq!(u8::from_decimal(b"256", false, 0, 3), None);
    assert_eq!(u8::from_decimal(b"0", true, 0, 1), None);
    assert_eq!(i8::from_decimal(b"128", true, 0, 3), Some(-128));
    assert_eq!(i8::from_decimal(b"128", false, 0, 3), None);
    assert_eq!(i8::from_decimal(b"0007", false, 0, 4), Some(7));
    assert_eq!(
        i64::from_decimal(b"9223372036854775808", true, 0, 19),
        Some(i64::MIN)
    );
    assert_eq!(i64::from_decimal(b"9223372036854775808", false, 0, 19), None);
    assert_eq!(u64::from_decimal(b"99999999999999999999", false, 0, 20), None);
}
