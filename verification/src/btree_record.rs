//! One slot of an index block: a key with the block that holds its payload
//! and, in internal nodes, the child to its left.

use vstd::prelude::*;
use vstd::slice::*;
use crate::bytes::{
    Bytes, le_bytes_of_u64, lemma_u64_le_round_trip, u64_from_le, u64_le_bytes, u64_of_le_bytes,
};
use crate::btree_key::BTreeKey;

verus! {

/// A record of an index page: a key, the data block that holds its
/// payload, and in an internal node the child that holds the keys below
/// it. A record without a key and with a child is the guard of an
/// internal node; a record with neither is the sentinel.
#[derive(Copy, Clone, PartialEq, Eq, Debug)]
pub struct BTreeRecord<K: BTreeKey> {
    pub child_lba: Option<u64>,
    pub data_lba: u64,
    pub key: K,
}

/// Bytes before the key: one tag byte and two 64-bit block addresses.
pub const RECORD_HEADER: u64 = 17;

impl<K: BTreeKey> BTreeRecord<K> {
    /// The tag byte: 1 with a child, 0 without.
    pub open spec fn tag(self) -> u8 {
        if self.child_lba is Some {
            1
        } else {
            0
        }
    }

    /// The child address as stored: zero without a child.
    pub open spec fn stored_child(self) -> u64 {
        match self.child_lba {
            Some(lba) => lba,
            None => 0,
        }
    }
}

impl<K: BTreeKey> Bytes for BTreeRecord<K> {
    open spec fn width() -> nat {
        17 + K::width()
    }

    open spec fn encoding(self) -> Seq<u8> {
        seq![self.tag()] + u64_le_bytes(self.stored_child()) + u64_le_bytes(
            self.data_lba,
        ) + self.key.encoding()
    }

    open spec fn decoding(bytes: Seq<u8>) -> Self {
        BTreeRecord {
            child_lba: if bytes[0] == 1 {
                Some(u64_from_le(bytes.subrange(1, 9)))
            } else {
                None
            },
            data_lba: u64_from_le(bytes.subrange(9, 17)),
            key: K::decoding(bytes.subrange(17, bytes.len() as int)),
        }
    }

    open spec fn sentinel() -> Self {
        BTreeRecord { child_lba: None, data_lba: 0, key: K::sentinel() }
    }

    proof fn lemma_width_bounds() {
        K::lemma_key_width();
    }

    proof fn lemma_encoding_len(v: Self) {
        K::lemma_encoding_len(v.key);
    }

    proof fn lemma_round_trip(v: Self) {
        lemma_u64_le_round_trip(v.stored_child());
        lemma_u64_le_round_trip(v.data_lba);
        K::lemma_encoding_len(v.key);
        K::lemma_round_trip(v.key);
        let child = u64_le_bytes(v.stored_child());
        let data = u64_le_bytes(v.data_lba);
        assert(child.len() == 8);
        assert(data.len() == 8);
        let bytes = v.encoding();
        assert(bytes.subrange(1, 9) =~= child);
        assert(bytes.subrange(9, 17) =~= data);
        assert(bytes.subrange(17, bytes.len() as int) =~= v.key.encoding());
        assert(bytes[0] == v.tag());
    }

    fn get_size() -> (n: u64) {
        proof {
            K::lemma_key_width();
        }
        RECORD_HEADER + K::get_size()
    }

    fn to_bytes(&self) -> (bytes: Vec<u8>) {
        let mut bytes: Vec<u8> = Vec::new();
        let mut child = match self.child_lba {
            Some(lba) => {
                bytes.push(1);
                le_bytes_of_u64(lba)
            },
            None => {
                bytes.push(0);
                le_bytes_of_u64(0)
            },
        };
        bytes.append(&mut child);
        let mut data = le_bytes_of_u64(self.data_lba);
        bytes.append(&mut data);
        let mut key = self.key.to_bytes();
        bytes.append(&mut key);
        assert(bytes@ =~= self.encoding());
        bytes
    }

    fn from_bytes(bytes: &[u8]) -> (v: Self) {
        proof {
            K::lemma_width_bounds();
        }
        let tag = *slice_index_get(bytes, 0);
        let child = u64_of_le_bytes(slice_subrange(bytes, 1, 9));
        let data_lba = u64_of_le_bytes(slice_subrange(bytes, 9, 17));
        let key = K::from_bytes(slice_subrange(bytes, 17, bytes.len()));
        BTreeRecord { child_lba: if tag == 1 { Some(child) } else { None }, data_lba, key }
    }

    fn invalid() -> (v: Self) {
        BTreeRecord { child_lba: None, data_lba: 0, key: K::invalid() }
    }

    fn is_invalid(&self) -> (b: bool) {
        self.child_lba.is_none() && self.data_lba == 0 && self.key.is_invalid()
    }
}

} // verus!
