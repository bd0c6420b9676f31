//! An index page read from its block in one step.

use vstd::prelude::*;
use crate::btree_key::BTreeKey;
use crate::btree_record::BTreeRecord;
use crate::device::{BlockDevice, bumped};
use crate::page::{Page, decode_block};

verus! {

/// The records of one index block, in memory.
pub struct BTreePage<K: BTreeKey> {
    pub records: Vec<BTreeRecord<K>>,
    pub dirty: bool,
    pub lba: u64,
    pub parent_lba: u64,
}

impl<K: BTreeKey> BTreePage<K> {
    /// The page of block `lba`. A block that the device does not hold gives
    /// an empty page that is dirty.
    pub fn new(device: &mut BlockDevice, lba: u64, parent_lba: u64) -> (page: Self)
        requires
            old(device).wf(),
        ensures
            final(device).wf(),
            final(device)@ == old(device)@,
            final(device).spec_block_size() == old(device).spec_block_size(),
            final(device).spec_writes() == old(device).spec_writes(),
            final(device).spec_reads() == bumped(old(device).spec_reads()),
            page.lba == lba,
            page.parent_lba == parent_lba,
            page.dirty == (lba >= old(device)@.len()),
            page.records@ == if lba < old(device)@.len() {
                decode_block::<BTreeRecord<K>>(old(device)@[lba as int])
            } else {
                Seq::<BTreeRecord<K>>::empty()
            },
    {
        let page = Page::<BTreeRecord<K>>::new(device, lba, parent_lba);
        BTreePage {
            records: page.records,
            dirty: page.dirty,
            lba: page.lba,
            parent_lba: page.parent_lba,
        }
    }
}

} // verus!
