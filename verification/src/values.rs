//! The concrete value types the evaluator works with: every unsigned machine
//! width implements [`RegisterValue`], and the signed widths that decimal
//! literals are commonly read into implement [`DecimalValue`] as well.

use crate::base::{
    be_bytes_val, bytes_val, le_bytes_val, lemma_bytes_val_bound, Endianness, RegisterValue,
};
use crate::decimal::{mag_to_dec, parse_mag, spec_decimal, DecimalValue};
use vstd::prelude::*;

verus! {

/// Reads `bytes[i..end]` as a base-256 number, least significant byte first.
fn read_le(bytes: &[u8], i: usize, end: usize) -> (r: u64)
    requires
        i <= end <= bytes@.len(),
        end - i <= 8,
    ensures
        r as int == le_bytes_val(bytes@.subrange(i as int, end as int)),
    decreases end - i,
{
    if i == end {
        proof {
            assert(bytes@.subrange(i as int, end as int) =~= Seq::<u8>::empty());
        }
        0
    } else {
        let rest = read_le(bytes, i + 1, end);
        proof {
            lemma_bytes_val_bound(bytes@.subrange(i as int + 1, end as int), false);
            if end - i < 8 {
                vstd::arithmetic::power2::lemma_pow2_strictly_increases(
                    8 * (end - i - 1) as nat,
                    56,
                );
            }
            vstd::arithmetic::power2::lemma2_to64();
            vstd::arithmetic::power2::lemma2_to64_rest();
            assert(bytes@.subrange(i as int, end as int).drop_first() =~= bytes@.subrange(
                i as int + 1,
                end as int,
            ));
        }
        bytes[i] as u64 + 256 * rest
    }
}

/// Reads `bytes[i..end]` as a base-256 number, most significant byte first.
fn read_be(bytes: &[u8], i: usize, end: usize) -> (r: u64)
    requires
        i <= end <= bytes@.len(),
        end - i <= 8,
    ensures
        r as int == be_bytes_val(bytes@.subrange(i as int, end as int)),
    decreases end - i,
{
    if i == end {
        proof {
            assert(bytes@.subrange(i as int, end as int) =~= Seq::<u8>::empty());
        }
        0
    } else {
        let rest = read_be(bytes, i, end - 1);
        proof {
            lemma_bytes_val_bound(bytes@.subrange(i as int, end as int - 1), true);
            if end - i < 8 {
                vstd::arithmetic::power2::lemma_pow2_strictly_increases(
                    8 * (end - i - 1) as nat,
                    56,
                );
            }
            vstd::arithmetic::power2::lemma2_to64();
            vstd::arithmetic::power2::lemma2_to64_rest();
            assert(bytes@.subrange(i as int, end as int).drop_last() =~= bytes@.subrange(
                i as int,
                end as int - 1,
            ));
        }
        256 * rest + bytes[end - 1] as u64
    }
}

/// Reads a `width`-byte value from the front of `bytes` under the given byte
/// order; fails if fewer than `width` bytes are present.
fn read_reg(bytes: &[u8], width: usize, big_endian: bool) -> (r: Option<u64>)
    requires
        1 <= width <= 8,
    ensures
        bytes@.len() < width ==> r is None,
        bytes@.len() >= width ==> (r matches Some(v) && v as int == bytes_val(
            bytes@.take(width as int),
            big_endian,
        )),
{
    if bytes.len() < width {
        None
    } else {
        proof {
            assert(bytes@.subrange(0, width as int) =~= bytes@.take(width as int));
        }
        let v = if big_endian {
            read_be(bytes, 0, width)
        } else {
            read_le(bytes, 0, width)
        };
        Some(v)
    }
}

/// `x % n` written without the modulo operator, for `x` within one modulus of
/// the representable range.
proof fn lemma_wrap_range(x: int, n: int)
    requires
        0 < n,
        -n <= x < 2 * n,
    ensures
        x % n == if x < 0 {
            x + n
        } else if x < n {
            x
        } else {
            x - n
        },
{
    if x < 0 {
        vstd::arithmetic::div_mod::lemma_mod_multiples_vanish(1, x, n);
        vstd::arithmetic::div_mod::lemma_small_mod((x + n) as nat, n as nat);
    } else if x < n {
        vstd::arithmetic::div_mod::lemma_small_mod(x as nat, n as nat);
    } else {
        vstd::arithmetic::div_mod::lemma_mod_multiples_vanish(1, x - n, n);
        vstd::arithmetic::div_mod::lemma_small_mod((x - n) as nat, n as nat);
    }
}

impl DecimalValue for u8 {
    open spec fn val(self) -> int {
        self as int
    }

    open spec fn of_int(i: int) -> Self {
        i as u8
    }

    open spec fn min_val() -> int {
        0
    }

    open spec fn max_val() -> int {
        u8::MAX as int
    }

    proof fn lemma_val_range(self) {
    }

    proof fn lemma_of_int_val(i: int) {
    }

    fn from_decimal(digits: &[u8], neg: bool, start: usize, end: usize) -> (r: Option<Self>) {
        if neg {
            return None;
        }
        match parse_mag(digits, start, end) {
            Some(m) => if m <= u8::MAX as u64 {
                Some(m as u8)
            } else {
                None
            },
            None => None,
        }
    }

    fn to_decimal(self) -> (r: Vec<u8>) {
        mag_to_dec(self as u64)
    }
}

impl RegisterValue for u8 {
    open spec fn spec_width() -> nat {
        1
    }

    proof fn lemma_register_props() {
        vstd::arithmetic::power2::lemma2_to64();
    }

    fn width() -> usize {
        1
    }

    fn read_bytes<E: Endianness>(bytes: &[u8], endian: E) -> (r: Option<Self>) {
        proof {
            vstd::arithmetic::power2::lemma2_to64();
            lemma_bytes_val_bound(bytes@.take(1), endian.spec_is_big_endian());
        }
        match read_reg(bytes, 1, endian.is_big_endian()) {
            Some(v) => Some(v as u8),
            None => None,
        }
    }

    fn wrapping_add(self, other: Self) -> (r: Self) {
        proof {
            lemma_wrap_range(self + other, 256);
        }
        u8::wrapping_add(self, other)
    }

    fn wrapping_sub(self, other: Self) -> (r: Self) {
        proof {
            lemma_wrap_range(self - other, 256);
        }
        u8::wrapping_sub(self, other)
    }

    fn wrapping_mul(self, other: Self) -> (r: Self) {
        u8::wrapping_mul(self, other)
    }

    fn div(self, other: Self) -> (r: Self) {
        self / other
    }

    fn rem(self, other: Self) -> (r: Self) {
        self % other
    }

    fn is_zero(self) -> (r: bool) {
        self == 0
    }

    fn from_u8(b: u8) -> (r: Self) {
        b
    }

    fn to_u64(self) -> (r: u64) {
        self as u64
    }
}

impl DecimalValue for u16 {
    open spec fn val(self) -> int {
        self as int
    }

    open spec fn of_int(i: int) -> Self {
        i as u16
    }

    open spec fn min_val() -> int {
        0
    }

    open spec fn max_val() -> int {
        u16::MAX as int
    }

    proof fn lemma_val_range(self) {
    }

    proof fn lemma_of_int_val(i: int) {
    }

    fn from_decimal(digits: &[u8], neg: bool, start: usize, end: usize) -> (r: Option<Self>) {
        if neg {
            return None;
        }
        match parse_mag(digits, start, end) {
            Some(m) => if m <= u16::MAX as u64 {
                Some(m as u16)
            } else {
                None
            },
            None => None,
        }
    }

    fn to_decimal(self) -> (r: Vec<u8>) {
        mag_to_dec(self as u64)
    }
}

impl RegisterValue for u16 {
    open spec fn spec_width() -> nat {
        2
    }

    proof fn lemma_register_props() {
        vstd::arithmetic::power2::lemma2_to64();
    }

    fn width() -> usize {
        2
    }

    fn read_bytes<E: Endianness>(bytes: &[u8], endian: E) -> (r: Option<Self>) {
        proof {
            vstd::arithmetic::power2::lemma2_to64();
            lemma_bytes_val_bound(bytes@.take(2), endian.spec_is_big_endian());
        }
        match read_reg(bytes, 2, endian.is_big_endian()) {
            Some(v) => Some(v as u16),
            None => None,
        }
    }

    fn wrapping_add(self, other: Self) -> (r: Self) {
        proof {
            lemma_wrap_range(self + other, 65536);
        }
        u16::wrapping_add(self, other)
    }

    fn wrapping_sub(self, other: Self) -> (r: Self) {
        proof {
            lemma_wrap_range(self - other, 65536);
        }
        u16::wrapping_sub(self, other)
    }

    fn wrapping_mul(self, other: Self) -> (r: Self) {
        u16::wrapping_mul(self, other)
    }

    fn div(self, other: Self) -> (r: Self) {
        self / other
    }

    fn rem(self, other: Self) -> (r: Self) {
        self % other
    }

    fn is_zero(self) -> (r: bool) {
        self == 0
    }

    fn from_u8(b: u8) -> (r: Self) {
        b as u16
    }

    fn to_u64(self) -> (r: u64) {
        self as u64
    }
}

impl DecimalValue for u32 {
    open spec fn val(self) -> int {
        self as int
    }

    open spec fn of_int(i: int) -> Self {
        i as u32
    }

    open spec fn min_val() -> int {
        0
    }

    open spec fn max_val() -> int {
        u32::MAX as int
    }

    proof fn lemma_val_range(self) {
    }

    proof fn lemma_of_int_val(i: int) {
    }

    fn from_decimal(digits: &[u8], neg: bool, start: usize, end: usize) -> (r: Option<Self>) {
        if neg {
            return None;
        }
        match parse_mag(digits, start, end) {
            Some(m) => if m <= u32::MAX as u64 {
                Some(m as u32)
            } else {
                None
            },
            None => None,
        }
    }

    fn to_decimal(self) -> (r: Vec<u8>) {
        mag_to_dec(self as u64)
    }
}

impl RegisterValue for u32 {
    open spec fn spec_width() -> nat {
        4
    }

    proof fn lemma_register_props() {
        vstd::arithmetic::power2::lemma2_to64();
    }

    fn width() -> usize {
        4
    }

    fn read_bytes<E: Endianness>(bytes: &[u8], endian: E) -> (r: Option<Self>) {
        proof {
            vstd::arithmetic::power2::lemma2_to64();
            lemma_bytes_val_bound(bytes@.take(4), endian.spec_is_big_endian());
        }
        match read_reg(bytes, 4, endian.is_big_endian()) {
            Some(v) => Some(v as u32),
            None => None,
        }
    }

    fn wrapping_add(self, other: Self) -> (r: Self) {
        proof {
            lemma_wrap_range(self + other, 0x1_0000_0000);
        }
        u32::wrapping_add(self, other)
    }

    fn wrapping_sub(self, other: Self) -> (r: Self) {
        proof {
            lemma_wrap_range(self - other, 0x1_0000_0000);
        }
        u32::wrapping_sub(self, other)
    }

    fn wrapping_mul(self, other: Self) -> (r: Self) {
        u32::wrapping_mul(self, other)
    }

    fn div(self, other: Self) -> (r: Self) {
        self / other
    }

    fn rem(self, other: Self) -> (r: Self) {
        self % other
    }

    fn is_zero(self) -> (r: bool) {
        self == 0
    }

    fn from_u8(b: u8) -> (r: Self) {
        b as u32
    }

    fn to_u64(self) -> (r: u64) {
        self as u64
    }
}

impl DecimalValue for u64 {
    open spec fn val(self) -> int {
        self as int
    }

    open spec fn of_int(i: int) -> Self {
        i as u64
    }

    open spec fn min_val() -> int {
        0
    }

    open spec fn max_val() -> int {
        u64::MAX as int
    }

    proof fn lemma_val_range(self) {
    }

    proof fn lemma_of_int_val(i: int) {
    }

    fn from_decimal(digits: &[u8], neg: bool, start: usize, end: usize) -> (r: Option<Self>) {
        if neg {
            return None;
        }
        parse_mag(digits, start, end)
    }

    fn to_decimal(self) -> (r: Vec<u8>) {
        mag_to_dec(self)
    }
}

impl RegisterValue for u64 {
    open spec fn spec_width() -> nat {
        8
    }

    proof fn lemma_register_props() {
        vstd::arithmetic::power2::lemma2_to64();
        vstd::arithmetic::power2::lemma2_to64_rest();
    }

    fn width() -> usize {
        8
    }

    fn read_bytes<E: Endianness>(bytes: &[u8], endian: E) -> (r: Option<Self>) {
        proof {
            vstd::arithmetic::power2::lemma2_to64();
            vstd::arithmetic::power2::lemma2_to64_rest();
            lemma_bytes_val_bound(bytes@.take(8), endian.spec_is_big_endian());
        }
        read_reg(bytes, 8, endian.is_big_endian())
    }

    fn wrapping_add(self, other: Self) -> (r: Self) {
        proof {
            lemma_wrap_range(self + other, 0x1_0000_0000_0000_0000);
        }
        u64::wrapping_add(self, other)
    }

    fn wrapping_sub(self, other: Self) -> (r: Self) {
        proof {
            lemma_wrap_range(self - other, 0x1_0000_0000_0000_0000);
        }
        u64::wrapping_sub(self, other)
    }

    fn wrapping_mul(self, other: Self) -> (r: Self) {
        u64::wrapping_mul(self, other)
    }

    fn div(self, other: Self) -> (r: Self) {
        self / other
    }

    fn rem(self, other: Self) -> (r: Self) {
        self % other
    }

    fn is_zero(self) -> (r: bool) {
        self == 0
    }

    fn from_u8(b: u8) -> (r: Self) {
        b as u64
    }

    fn to_u64(self) -> (r: u64) {
        self
    }
}

impl DecimalValue for i8 {
    open spec fn val(self) -> int {
        self as int
    }

    open spec fn of_int(i: int) -> Self {
        i as i8
    }

    open spec fn min_val() -> int {
        i8::MIN as int
    }

    open spec fn max_val() -> int {
        i8::MAX as int
    }

    proof fn lemma_val_range(self) {
    }

    proof fn lemma_of_int_val(i: int) {
    }

    fn from_decimal(digits: &[u8], neg: bool, start: usize, end: usize) -> (r: Option<Self>) {
        match parse_mag(digits, start, end) {
            Some(m) => if neg {
                if m <= 128 {
                    let v: i64 = -(m as i64);
                    Some(v as i8)
                } else {
                    None
                }
            } else {
                if m <= i8::MAX as u64 {
                    Some(m as i8)
                } else {
                    None
                }
            },
            None => None,
        }
    }

    fn to_decimal(self) -> (r: Vec<u8>) {
        if self < 0 {
            let mag: u64 = if self == i8::MIN {
                128
            } else {
                (-self) as u64
            };
            let mut r: Vec<u8> = Vec::new();
            r.push(45);
            let mut tail = mag_to_dec(mag);
            r.append(&mut tail);
            proof {
                assert(r@ =~= spec_decimal(self.val()));
            }
            r
        } else {
            mag_to_dec(self as u64)
        }
    }
}

impl DecimalValue for i64 {
    open spec fn val(self) -> int {
        self as int
    }

    open spec fn of_int(i: int) -> Self {
        i as i64
    }

    open spec fn min_val() -> int {
        i64::MIN as int
    }

    open spec fn max_val() -> int {
        i64::MAX as int
    }

    proof fn lemma_val_range(self) {
    }

    proof fn lemma_of_int_val(i: int) {
    }

    fn from_decimal(digits: &[u8], neg: bool, start: usize, end: usize) -> (r: Option<Self>) {
        match parse_mag(digits, start, end) {
            Some(m) => if neg {
                if m <= i64::MAX as u64 {
                    Some(-(m as i64))
                } else if m == 0x8000_0000_0000_0000 {
                    Some(i64::MIN)
                } else {
                    None
                }
            } else {
                if m <= i64::MAX as u64 {
                    Some(m as i64)
                } else {
                    None
                }
            },
            None => None,
        }
    }

    fn to_decimal(self) -> (r: Vec<u8>) {
        if self < 0 {
            let mag: u64 = if self == i64::MIN {
                0x8000_0000_0000_0000
            } else {
                (-self) as u64
            };
            let mut r: Vec<u8> = Vec::new();
            r.push(45);
            let mut tail = mag_to_dec(mag);
            r.append(&mut tail);
            proof {
                assert(r@ =~= spec_decimal(self.val()));
            }
            r
        } else {
            mag_to_dec(self as u64)
        }
    }
}

} // verus!
