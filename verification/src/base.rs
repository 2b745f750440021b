//! Basic definitions for stack unwinding: byte order, register-sized values,
//! and bounds-checked access to a region of memory.

use crate::decimal::DecimalValue;
use vstd::prelude::*;

verus! {

/// Abstraction over the [endianness](https://en.wikipedia.org/wiki/Endianness)
/// of data representation: it only tells whether an order is big or little.
pub trait Endianness: Sized + Copy {
    /// Whether this order is big-endian, as a specification-level value.
    spec fn spec_is_big_endian(self) -> bool;

    /// Returns true if this is big-endian (most significant bytes first).
    fn is_big_endian(self) -> (r: bool)
        ensures
            r == self.spec_is_big_endian(),
    ;
}

/// Big-endian data representation (most significant bytes first), known at
/// compile time.
#[derive(Debug, Default, Clone, Copy, PartialEq, Eq, Structural)]
pub struct BigEndian;

impl Endianness for BigEndian {
    open spec fn spec_is_big_endian(self) -> bool {
        true
    }

    fn is_big_endian(self) -> bool {
        true
    }
}

/// Little-endian data representation (least significant bytes first), known at
/// compile time.
#[derive(Debug, Default, Clone, Copy, PartialEq, Eq, Structural)]
pub struct LittleEndian;

impl Endianness for LittleEndian {
    open spec fn spec_is_big_endian(self) -> bool {
        false
    }

    fn is_big_endian(self) -> bool {
        false
    }
}

/// Endianness that can be selected at run time.
///
/// Defaults to the endianness of the target platform.
#[derive(Debug, Clone, Copy, PartialEq, Eq, Structural)]
pub enum RuntimeEndian {
    /// Big-endian data representation.
    Big,
    /// Little-endian data representation.
    Little,
}

impl Endianness for RuntimeEndian {
    open spec fn spec_is_big_endian(self) -> bool {
        self == RuntimeEndian::Big
    }

    fn is_big_endian(self) -> (r: bool)
        ensures
            r == self.spec_is_big_endian(),
    {
        self == RuntimeEndian::Big
    }
}

/// Relies on `u16::to_ne_bytes`: it returns the value's two bytes in the
/// target's native order, which is either the little-endian sequence or the
/// big-endian one (its reverse).
#[verifier::external_body]
fn u16_native_bytes(x: u16) -> (r: [u8; 2])
    ensures
        r@ == vstd::bytes::spec_u16_to_le_bytes(x) || r@ == vstd::bytes::spec_u16_to_le_bytes(
            x,
        ).reverse(),
{
    x.to_ne_bytes()
}

impl Default for RuntimeEndian {
    /// The byte order of the platform this code runs on.
    fn default() -> (r: Self)
        ensures
            r == RuntimeEndian::Big || r == RuntimeEndian::Little,
    {
        let probe = u16_native_bytes(1);
        proof {
            vstd::bytes::lemma_auto_spec_u16_to_from_le_bytes();
        }
        if probe[0] == 1 {
            RuntimeEndian::Little
        } else {
            RuntimeEndian::Big
        }
    }
}

/// The integer denoted by a byte sequence read as a base-256 number, least
/// significant byte first.
pub open spec fn le_bytes_val(bytes: Seq<u8>) -> int
    decreases bytes.len(),
{
    if bytes.len() == 0 {
        0
    } else {
        bytes[0] + 256 * le_bytes_val(bytes.drop_first())
    }
}

/// The integer denoted by a byte sequence read as a base-256 number, most
/// significant byte first.
pub open spec fn be_bytes_val(bytes: Seq<u8>) -> int
    decreases bytes.len(),
{
    if bytes.len() == 0 {
        0
    } else {
        256 * be_bytes_val(bytes.drop_last()) + bytes.last()
    }
}

/// The integer denoted by a byte sequence under the given byte order.
pub open spec fn bytes_val(bytes: Seq<u8>, big_endian: bool) -> int {
    if big_endian {
        be_bytes_val(bytes)
    } else {
        le_bytes_val(bytes)
    }
}

/// A byte sequence of `n` bytes denotes an integer in `0 .. pow2(8 * n)`,
/// under either byte order.
pub proof fn lemma_bytes_val_bound(bytes: Seq<u8>, big_endian: bool)
    ensures
        0 <= bytes_val(bytes, big_endian) < vstd::arithmetic::power2::pow2(8 * bytes.len()),
    decreases bytes.len(),
{
    vstd::arithmetic::power2::lemma_pow2_pos(8 * bytes.len());
    if bytes.len() > 0 {
        let n = bytes.len();
        vstd::arithmetic::power2::lemma_pow2_adds(8, 8 * (n - 1) as nat);
        vstd::arithmetic::power2::lemma2_to64();
        if big_endian {
            lemma_bytes_val_bound(bytes.drop_last(), big_endian);
        } else {
            lemma_bytes_val_bound(bytes.drop_first(), big_endian);
            assert(bytes.drop_first().len() == n - 1);
        }
    }
}

/// What [`RegisterValue::read_bytes`] returns: absence when fewer than
/// `T::spec_width()` bytes are present, otherwise the value denoted by exactly
/// the first `T::spec_width()` bytes under the given order.
pub open spec fn spec_read_bytes<T: RegisterValue>(bytes: Seq<u8>, big_endian: bool) -> Option<T> {
    if bytes.len() < T::spec_width() {
        None
    } else {
        Some(T::of_int(bytes_val(bytes.take(T::spec_width() as int), big_endian)))
    }
}

/// A type that can be used as a machine register or memory address: an
/// unsigned integer of a fixed byte width that can be decoded from raw bytes
/// and supports the arithmetic the expression evaluator needs. All arithmetic
/// is modulo `max_val() + 1`, the usual machine-register semantics.
pub trait RegisterValue: DecimalValue {
    /// The number of bytes that need to be read to produce one value of this
    /// type.
    spec fn spec_width() -> nat;

    /// The representable range is exactly the unsigned range of
    /// `spec_width()` bytes, and the width is one of the machine widths.
    proof fn lemma_register_props()
        ensures
            Self::min_val() == 0,
            1 <= Self::spec_width() <= 8,
            Self::max_val() + 1 == vstd::arithmetic::power2::pow2(8 * Self::spec_width()),
    ;

    /// The number of bytes that need to be read to produce one value of this
    /// type.
    fn width() -> (w: usize)
        ensures
            w == Self::spec_width(),
    ;

    /// Attempts to read a value of this type from the front of a slice of
    /// bytes; fails if fewer than `width()` bytes are present.
    fn read_bytes<E: Endianness>(bytes: &[u8], endian: E) -> (r: Option<Self>)
        ensures
            r == if bytes@.len() < Self::spec_width() {
                None::<Self>
            } else {
                Some(
                    Self::of_int(
                        bytes_val(
                            bytes@.take(Self::spec_width() as int),
                            endian.spec_is_big_endian(),
                        ),
                    ),
                )
            },
    ;

    /// Addition modulo `max_val() + 1`.
    fn wrapping_add(self, other: Self) -> (r: Self)
        ensures
            r == Self::of_int((self.val() + other.val()) % (Self::max_val() + 1)),
    ;

    /// Subtraction modulo `max_val() + 1`.
    fn wrapping_sub(self, other: Self) -> (r: Self)
        ensures
            r == Self::of_int((self.val() - other.val()) % (Self::max_val() + 1)),
    ;

    /// Multiplication modulo `max_val() + 1`.
    fn wrapping_mul(self, other: Self) -> (r: Self)
        ensures
            r == Self::of_int((self.val() * other.val()) % (Self::max_val() + 1)),
    ;

    /// Truncating integer division by a non-zero divisor.
    fn div(self, other: Self) -> (r: Self)
        requires
            other.val() != 0,
        ensures
            r == Self::of_int(self.val() / other.val()),
    ;

    /// Remainder of division by a non-zero divisor.
    fn rem(self, other: Self) -> (r: Self)
        requires
            other.val() != 0,
        ensures
            r == Self::of_int(self.val() % other.val()),
    ;

    /// Whether this value stands for zero.
    fn is_zero(self) -> (r: bool)
        ensures
            r == (self.val() == 0),
    ;

    /// The value standing for one byte.
    fn from_u8(b: u8) -> (r: Self)
        ensures
            r == Self::of_int(b as int),
    ;

    /// This value as an address-sized unsigned integer.
    fn to_u64(self) -> (r: u64)
        ensures
            r as int == self.val(),
    ;
}

/// What [`MemoryRegion::get`] returns: absence when the address lies before
/// the region's base or past its contents, otherwise whatever decoding a
/// value of type `A` from the bytes at the address yields.
pub open spec fn spec_region_get<A: RegisterValue>(
    base: u64,
    contents: Seq<u8>,
    address: int,
    big_endian: bool,
) -> Option<A> {
    if address < base || address - base > contents.len() {
        None
    } else {
        spec_read_bytes::<A>(contents.skip(address - base), big_endian)
    }
}

/// Provides access to a region of memory.
pub trait MemoryRegion {
    /// This memory region's base address, as a specification-level value.
    spec fn spec_base_addr(&self) -> u64;

    /// This memory region's contents, as a specification-level value.
    spec fn spec_contents(&self) -> Seq<u8>;

    /// This memory region's base address.
    fn base_addr(&self) -> (r: u64)
        ensures
            r == self.spec_base_addr(),
    ;

    /// This memory region's size in bytes.
    fn size(&self) -> (r: usize)
        ensures
            r == self.spec_contents().len(),
    ;

    /// Returns true if this memory region's size is 0.
    fn is_empty(&self) -> (r: bool)
        ensures
            r == (self.spec_contents().len() == 0),
    ;

    /// Reads the value saved at `address` in this memory region as a value of
    /// type `A`; fails if no full value of type `A` lies inside the region at
    /// that address.
    fn get<A: RegisterValue, E: Endianness>(&self, address: A, endian: E) -> (r: Option<A>)
        ensures
            r == spec_region_get::<A>(
                self.spec_base_addr(),
                self.spec_contents(),
                address.val(),
                endian.spec_is_big_endian(),
            ),
    ;
}

/// A view into a region of memory, given by a slice and a base address.
pub struct MemorySlice<'a> {
    /// The starting address of the memory region.
    base_addr: u64,
    /// The contents of the memory region.
    contents: &'a [u8],
}

impl<'a> MemorySlice<'a> {
    /// A view of `contents` whose first byte lies at address `base_addr`.
    pub fn new(base_addr: u64, contents: &'a [u8]) -> (r: Self)
        ensures
            r.spec_base_addr() == base_addr,
            r.spec_contents() == contents@,
    {
        MemorySlice { base_addr, contents }
    }
}

impl<'a> MemoryRegion for MemorySlice<'a> {
    closed spec fn spec_base_addr(&self) -> u64 {
        self.base_addr
    }

    closed spec fn spec_contents(&self) -> Seq<u8> {
        self.contents@
    }

    fn base_addr(&self) -> u64 {
        self.base_addr
    }

    fn size(&self) -> usize {
        self.contents.len()
    }

    fn is_empty(&self) -> bool {
        self.contents.len() == 0
    }

    fn get<A: RegisterValue, E: Endianness>(&self, address: A, endian: E) -> (r: Option<A>) {
        proof {
            address.lemma_val_range();
            A::lemma_register_props();
        }
        let addr = address.to_u64();
        if addr < self.base_addr {
            return None;
        }
        let index = addr - self.base_addr;
        if index > self.contents.len() as u64 {
            return None;
        }
        let tail = vstd::slice::slice_subrange(self.contents, index as usize, self.contents.len());
        A::read_bytes(tail, endian)
    }
}

} // verus!
