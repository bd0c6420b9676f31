//! Index keys: the `BTreeKey` contract and the 32-bit integer key.

use vstd::prelude::*;
use crate::bytes::{
    Bytes, bits_of_i32, i32_of_bits, i32_of_le_bytes, le_bytes_of_i32, lemma_i32_bits_round_trip,
    lemma_u32_le_round_trip, u32_from_le, u32_le_bytes,
};

verus! {

/// A totally ordered key with a fixed-width encoding. The sentinel is the
/// one invalid key; it is above every valid key.
pub trait BTreeKey: Bytes {
    /// Position of the key in the order.
    spec fn rank(self) -> nat;

    /// Distinct keys have distinct ranks.
    proof fn lemma_rank_injective(a: Self, b: Self)
        requires
            a.rank() == b.rank(),
        ensures
            a == b,
    ;

    /// Keys are narrow: a key and its bookkeeping fit a record comfortably.
    proof fn lemma_key_width()
        ensures
            Self::width() <= 0xffff_ffff,
    ;

    /// The sentinel is the greatest key.
    proof fn lemma_sentinel_greatest(k: Self)
        ensures
            k.rank() <= Self::sentinel().rank(),
    ;

    fn is_valid(&self) -> (b: bool)
        ensures
            b == (*self != Self::sentinel()),
    ;

    fn invalidate(&mut self)
        ensures
            *final(self) == Self::sentinel(),
    ;

    /// Whether `self` is strictly below `other`.
    fn is_below(&self, other: &Self) -> (b: bool)
        ensures
            b == (self.rank() < other.rank()),
    ;

    /// Whether the two keys are the same key.
    fn is_same(&self, other: &Self) -> (b: bool)
        ensures
            b == (*self == *other),
    ;
}

/// A key of 32 bits. The least number that 32 bits can hold is no key: it
/// is the sentinel, and is ordered above every key.
#[derive(Copy, Clone, PartialEq, Eq, Debug)]
pub struct IntKey {
    pub value: i32,
}

impl Bytes for IntKey {
    open spec fn width() -> nat {
        4
    }

    open spec fn encoding(self) -> Seq<u8> {
        u32_le_bytes(bits_of_i32(self.value))
    }

    open spec fn decoding(bytes: Seq<u8>) -> Self {
        IntKey { value: i32_of_bits(u32_from_le(bytes)) }
    }

    open spec fn sentinel() -> Self {
        IntKey { value: i32::MIN }
    }

    proof fn lemma_width_bounds() {
    }

    proof fn lemma_encoding_len(v: Self) {
    }

    proof fn lemma_round_trip(v: Self) {
        lemma_u32_le_round_trip(bits_of_i32(v.value));
        lemma_i32_bits_round_trip(v.value);
    }

    fn get_size() -> (n: u64) {
        4
    }

    fn to_bytes(&self) -> (bytes: Vec<u8>) {
        le_bytes_of_i32(self.value)
    }

    fn from_bytes(bytes: &[u8]) -> (v: Self) {
        IntKey { value: i32_of_le_bytes(bytes) }
    }

    fn invalid() -> (v: Self) {
        IntKey { value: i32::MIN }
    }

    fn is_invalid(&self) -> (b: bool) {
        self.value == i32::MIN
    }
}

impl BTreeKey for IntKey {
    open spec fn rank(self) -> nat {
        if self.value == i32::MIN {
            0x1_0000_0000
        } else {
            (self.value + 0x8000_0000) as nat
        }
    }

    proof fn lemma_rank_injective(a: Self, b: Self) {
    }

    proof fn lemma_key_width() {
    }

    proof fn lemma_sentinel_greatest(k: Self) {
    }

    fn is_valid(&self) -> (b: bool) {
        self.value != i32::MIN
    }

    fn invalidate(&mut self) {
        self.value = i32::MIN;
    }

    fn is_below(&self, other: &Self) -> (b: bool) {
        if self.value == i32::MIN {
            false
        } else if other.value == i32::MIN {
            true
        } else {
            self.value < other.value
        }
    }

    fn is_same(&self, other: &Self) -> (b: bool) {
        self.value == other.value
    }
}

} // verus!
