//! A key with its payload, as a data block stores them.

use vstd::prelude::*;
use vstd::slice::*;
use crate::bytes::Bytes;
use crate::btree_key::BTreeKey;
use crate::record::Record;

verus! {

/// A key with its payload, as they stand in a data block.
#[derive(Copy, Clone, Debug)]
pub struct Pair<K: BTreeKey, T: Record> {
    pub key: K,
    pub value: T,
}

impl<K: BTreeKey, T: Record> Bytes for Pair<K, T> {
    open spec fn width() -> nat {
        K::width() + T::width()
    }

    open spec fn encoding(self) -> Seq<u8> {
        self.key.encoding() + self.value.encoding()
    }

    open spec fn decoding(bytes: Seq<u8>) -> Self {
        Pair {
            key: K::decoding(bytes.subrange(0, K::width() as int)),
            value: T::decoding(bytes.subrange(K::width() as int, (K::width() + T::width()) as int)),
        }
    }

    open spec fn sentinel() -> Self {
        Pair { key: K::sentinel(), value: T::sentinel() }
    }

    proof fn lemma_width_bounds() {
        K::lemma_key_width();
        K::lemma_width_bounds();
        T::lemma_record_width();
    }

    proof fn lemma_encoding_len(v: Self) {
        K::lemma_encoding_len(v.key);
        T::lemma_encoding_len(v.value);
    }

    proof fn lemma_round_trip(v: Self) {
        K::lemma_encoding_len(v.key);
        T::lemma_encoding_len(v.value);
        K::lemma_round_trip(v.key);
        T::lemma_round_trip(v.value);
        let bytes = v.encoding();
        assert(bytes.subrange(0, K::width() as int) =~= v.key.encoding());
        assert(bytes.subrange(K::width() as int, (K::width() + T::width()) as int)
            =~= v.value.encoding());
    }

    fn get_size() -> (n: u64) {
        proof {
            K::lemma_key_width();
            T::lemma_record_width();
        }
        K::get_size() + T::get_size()
    }

    fn to_bytes(&self) -> (bytes: Vec<u8>) {
        let mut bytes = self.key.to_bytes();
        let mut value = self.value.to_bytes();
        bytes.append(&mut value);
        bytes
    }

    fn from_bytes(bytes: &[u8]) -> (v: Self) {
        proof {
            K::lemma_key_width();
            T::lemma_record_width();
        }
        let key_size = K::get_size() as usize;
        let size = bytes.len();
        Pair {
            key: K::from_bytes(slice_subrange(bytes, 0, key_size)),
            value: T::from_bytes(slice_subrange(bytes, key_size, size)),
        }
    }

    fn invalid() -> (v: Self) {
        Pair { key: K::invalid(), value: T::invalid() }
    }

    fn is_invalid(&self) -> (b: bool) {
        self.key.is_invalid() && self.value.is_invalid()
    }
}

} // verus!
