//! Fixed-width encodings: the `Bytes` contract and the little-endian
//! primitives every encoding in this crate is built from.

use vstd::prelude::*;
use byteorder::{ByteOrder, LittleEndian};

verus! {

/// A value with a fixed-width byte encoding and a sentinel that marks an
/// unused slot of a block.
pub trait Bytes: Sized + Copy {
    /// Number of bytes of every encoded value.
    spec fn width() -> nat;

    /// The bytes `self` is stored as.
    spec fn encoding(self) -> Seq<u8>;

    /// The value that `bytes` stores.
    spec fn decoding(bytes: Seq<u8>) -> Self;

    /// The value that fills unused slots.
    spec fn sentinel() -> Self;

    /// Widths are positive, and small enough that offsets within a block
    /// can be computed without overflow.
    proof fn lemma_width_bounds()
        ensures
            0 < Self::width() <= 0xffff_ffff_ffff,
    ;

    /// Every value encodes to exactly `width()` bytes.
    proof fn lemma_encoding_len(v: Self)
        ensures
            v.encoding().len() == Self::width(),
    ;

    /// Decoding the encoding of a value gives the value back.
    proof fn lemma_round_trip(v: Self)
        ensures
            Self::decoding(v.encoding()) == v,
    ;

    fn get_size() -> (n: u64)
        ensures
            n == Self::width(),
    ;

    fn to_bytes(&self) -> (bytes: Vec<u8>)
        ensures
            bytes@ == self.encoding(),
    ;

    fn from_bytes(bytes: &[u8]) -> (v: Self)
        requires
            bytes@.len() == Self::width(),
        ensures
            v == Self::decoding(bytes@),
    ;

    fn invalid() -> (v: Self)
        ensures
            v == Self::sentinel(),
    ;

    /// Whether `self` is the sentinel.
    fn is_invalid(&self) -> (b: bool)
        ensures
            b == (*self == Self::sentinel()),
    ;
}

/// The four bytes of `n`, least significant first.
pub open spec fn u32_le_bytes(n: u32) -> Seq<u8> {
    seq![
        (n % 0x100) as u8,
        ((n / 0x100) % 0x100) as u8,
        ((n / 0x1_0000) % 0x100) as u8,
        ((n / 0x100_0000) % 0x100) as u8,
    ]
}

/// The number that four bytes write, least significant first.
pub open spec fn u32_from_le(bytes: Seq<u8>) -> u32 {
    (bytes[0] + 0x100 * bytes[1] + 0x1_0000 * bytes[2] + 0x100_0000 * bytes[3]) as u32
}

/// The eight bytes of `n`, least significant first.
pub open spec fn u64_le_bytes(n: u64) -> Seq<u8> {
    u32_le_bytes((n % 0x1_0000_0000) as u32) + u32_le_bytes((n / 0x1_0000_0000) as u32)
}

/// The number that eight bytes write, least significant first.
pub open spec fn u64_from_le(bytes: Seq<u8>) -> u64 {
    (u32_from_le(bytes.subrange(0, 4)) + 0x1_0000_0000 * u32_from_le(bytes.subrange(4, 8))) as u64
}

/// Reading back the bytes of a 32-bit number gives the number.
pub proof fn lemma_u32_le_round_trip(n: u32)
    ensures
        u32_le_bytes(n).len() == 4,
        u32_from_le(u32_le_bytes(n)) == n,
{
}

/// Reading back the bytes of a 64-bit number gives the number.
pub proof fn lemma_u64_le_round_trip(n: u64)
    ensures
        u64_le_bytes(n).len() == 8,
        u64_from_le(u64_le_bytes(n)) == n,
{
    let low = (n % 0x1_0000_0000) as u32;
    let high = (n / 0x1_0000_0000) as u32;
    lemma_u32_le_round_trip(low);
    lemma_u32_le_round_trip(high);
    let bytes = u64_le_bytes(n);
    assert(bytes.subrange(0, 4) =~= u32_le_bytes(low));
    assert(bytes.subrange(4, 8) =~= u32_le_bytes(high));
}

/// The two's-complement reading of a 32-bit pattern.
pub open spec fn i32_of_bits(bits: u32) -> i32 {
    if bits < 0x8000_0000 {
        bits as i32
    } else {
        (bits - 0x1_0000_0000) as i32
    }
}

/// The 32-bit pattern of a signed number in two's complement.
pub open spec fn bits_of_i32(n: i32) -> u32 {
    if n >= 0 {
        n as u32
    } else {
        (n + 0x1_0000_0000) as u32
    }
}

/// `LittleEndian::write_u64` into a buffer of eight bytes: the bytes are the
/// little-endian encoding of `n`.
#[verifier::external_body]
pub(crate) fn le_bytes_of_u64(n: u64) -> (bytes: Vec<u8>)
    ensures
        bytes@ == u64_le_bytes(n),
{
    let mut bytes = vec![0u8; 8];
    LittleEndian::write_u64(&mut bytes, n);
    bytes
}

/// `LittleEndian::read_u64` on eight bytes: the number they encode in
/// little-endian order.
#[verifier::external_body]
pub(crate) fn u64_of_le_bytes(bytes: &[u8]) -> (n: u64)
    requires
        bytes@.len() == 8,
    ensures
        n == u64_from_le(bytes@),
{
    LittleEndian::read_u64(bytes)
}

/// `LittleEndian::write_i32` into a buffer of four bytes: the little-endian
/// encoding of the two's-complement pattern of `n`.
#[verifier::external_body]
pub(crate) fn le_bytes_of_i32(n: i32) -> (bytes: Vec<u8>)
    ensures
        bytes@ == u32_le_bytes(bits_of_i32(n)),
{
    let mut bytes = vec![0u8; 4];
    LittleEndian::write_i32(&mut bytes, n);
    bytes
}

/// `LittleEndian::read_i32` on four bytes: the two's-complement reading of
/// the pattern they encode in little-endian order.
#[verifier::external_body]
pub(crate) fn i32_of_le_bytes(bytes: &[u8]) -> (n: i32)
    requires
        bytes@.len() == 4,
    ensures
        n == i32_of_bits(u32_from_le(bytes@)),
{
    LittleEndian::read_i32(bytes)
}

/// `LittleEndian::write_u32` into a buffer of four bytes: the bytes are the
/// little-endian encoding of `n`.
#[verifier::external_body]
pub(crate) fn le_bytes_of_u32(n: u32) -> (bytes: Vec<u8>)
    ensures
        bytes@ == u32_le_bytes(n),
{
    let mut bytes = vec![0u8; 4];
    LittleEndian::write_u32(&mut bytes, n);
    bytes
}

/// `LittleEndian::read_u32_into` with a destination of `count` numbers:
/// number `i` is what bytes `4i .. 4i + 4` encode in little-endian order.
#[verifier::external_body]
pub(crate) fn u32s_of_le_bytes(bytes: &[u8], count: usize) -> (numbers: Vec<u32>)
    requires
        bytes@.len() == 4 * count,
    ensures
        numbers@.len() == count,
        forall|i: int|
            0 <= i < count ==> #[trigger] numbers@[i] == u32_from_le(
                bytes@.subrange(4 * i, 4 * i + 4),
            ),
{
    let mut numbers = vec![0u32; count];
    LittleEndian::read_u32_into(bytes, &mut numbers);
    numbers
}

/// Reading a signed number back from its bit pattern.
pub proof fn lemma_i32_bits_round_trip(n: i32)
    ensures
        i32_of_bits(bits_of_i32(n)) == n,
{
}

} // verus!
