//! What putting a key into a B-tree does to its pages: the descent from
//! the root that splits every full node on its way.

use vstd::prelude::*;
use crate::btree_key::BTreeKey;
use crate::btree_record::BTreeRecord;
use crate::tree::{child_at, guard_for, is_slot, key_count};
use crate::tree_split::after_split;

verus! {

/// The least number of a list that is not empty.
pub open spec fn least_of(list: Seq<u64>) -> u64
    decreases list.len(),
{
    if list.len() <= 1 {
        list[0]
    } else {
        let rest = least_of(list.drop_last());
        if list.last() < rest {
            list.last()
        } else {
            rest
        }
    }
}

/// The place of `key` among `records`: that of the first record whose key
/// is not below it, or their number where every key is below it.
pub open spec fn slot_of<K: BTreeKey>(records: Seq<BTreeRecord<K>>, key: K) -> int {
    choose|i: int| is_slot(records, key, i)
}

/// A key has one place among records.
pub proof fn lemma_slot_of<K: BTreeKey>(records: Seq<BTreeRecord<K>>, key: K, i: int)
    requires
        is_slot(records, key, i),
    ensures
        slot_of(records, key) == i,
{
    let j = slot_of(records, key);
    assert(is_slot(records, key, j));
    if j < i {
        assert(records[j].key.rank() < key.rank());
    } else if i < j {
        assert(records[i].key.rank() < key.rank());
    }
}

/// The page that is handed out next, with the pages given back and the
/// number of pages handed out as they then are: the least of the pages
/// given back, or a new page where none was given back.
pub open spec fn taken(free: Seq<u64>, count: nat) -> (u64, Seq<u64>, nat) {
    if free.len() == 0 {
        (count as u64, free, count + 1)
    } else {
        (least_of(free), free.remove(free.index_of(least_of(free))), count)
    }
}

/// The pages, the pages given back and the number of pages handed out
/// after `key` with the data block `data` was put into the subtree of
/// height `depth` below page `lba`, whose top node is not full. A key
/// that is met on the way stays as it is. A full child is split before it
/// is entered, and the key goes to the half on its side of the key that
/// went up.
pub open spec fn put_below<K: BTreeKey>(
    pages: Map<u64, Seq<BTreeRecord<K>>>,
    free: Seq<u64>,
    count: nat,
    lba: u64,
    depth: nat,
    key: K,
    data: u64,
    t: nat,
) -> (Map<u64, Seq<BTreeRecord<K>>>, Seq<u64>, nat)
    decreases depth,
{
    let records = pages[lba];
    let i = slot_of(records, key);
    if i < records.len() && records[i].key == key {
        (pages, free, count)
    } else if depth == 0 {
        (
            pages.insert(
                lba,
                records.insert(i, BTreeRecord { child_lba: None, data_lba: data, key }),
            ),
            free,
            count,
        )
    } else {
        let child = child_at(records, i);
        if key_count(pages[child]) == 2 * t - 1 {
            let got = taken(free, count);
            let split = after_split(pages, lba, i, got.0, t);
            let middle = split[lba][i];
            if middle.key == key {
                (split, got.1, got.2)
            } else {
                let target = if middle.key.rank() < key.rank() {
                    got.0
                } else {
                    child
                };
                put_below(split, got.1, got.2, target, (depth - 1) as nat, key, data, t)
            }
        } else {
            put_below(pages, free, count, child, (depth - 1) as nat, key, data, t)
        }
    }
}

/// Where the key stands in the top node, or the top node is a leaf.
pub proof fn lemma_put_here<K: BTreeKey>(
    pages: Map<u64, Seq<BTreeRecord<K>>>,
    free: Seq<u64>,
    count: nat,
    lba: u64,
    depth: nat,
    key: K,
    data: u64,
    t: nat,
    i: int,
)
    requires
        is_slot(pages[lba], key, i),
    ensures
        i < pages[lba].len() && pages[lba][i].key == key ==> put_below(
            pages,
            free,
            count,
            lba,
            depth,
            key,
            data,
            t,
        ) == (pages, free, count),
        !(i < pages[lba].len() && pages[lba][i].key == key) && depth == 0 ==> put_below(
            pages,
            free,
            count,
            lba,
            depth,
            key,
            data,
            t,
        ) == (
            pages.insert(
                lba,
                pages[lba].insert(i, BTreeRecord { child_lba: None, data_lba: data, key }),
            ),
            free,
            count,
        ),
{
    lemma_slot_of(pages[lba], key, i);
}

/// Where the key belongs below a child of the top node.
pub proof fn lemma_put_down<K: BTreeKey>(
    pages: Map<u64, Seq<BTreeRecord<K>>>,
    free: Seq<u64>,
    count: nat,
    lba: u64,
    depth: nat,
    key: K,
    data: u64,
    t: nat,
    i: int,
)
    requires
        depth > 0,
        is_slot(pages[lba], key, i),
        !(i < pages[lba].len() && pages[lba][i].key == key),
    ensures
        ({
            let child = child_at(pages[lba], i);
            let got = taken(free, count);
            let split = after_split(pages, lba, i, got.0, t);
            let below = (depth - 1) as nat;
            put_below(pages, free, count, lba, depth, key, data, t) == if key_count(pages[child])
                != 2 * t - 1 {
                put_below(pages, free, count, child, below, key, data, t)
            } else if split[lba][i].key == key {
                (split, got.1, got.2)
            } else if split[lba][i].key.rank() < key.rank() {
                put_below(split, got.1, got.2, got.0, below, key, data, t)
            } else {
                put_below(split, got.1, got.2, child, below, key, data, t)
            }
        }),
{
    lemma_slot_of(pages[lba], key, i);
}

/// The pages, the pages given back, the number of pages handed out and
/// the height after `key` with the data block `data` was put into the
/// tree below page 0. A full root moves to a new page and is split there,
/// which makes the tree one level higher.
pub open spec fn put<K: BTreeKey>(
    pages: Map<u64, Seq<BTreeRecord<K>>>,
    free: Seq<u64>,
    count: nat,
    height: nat,
    key: K,
    data: u64,
    t: nat,
) -> (Map<u64, Seq<BTreeRecord<K>>>, Seq<u64>, nat, nat) {
    if key_count(pages[0]) == 2 * t - 1 {
        let first = taken(free, count);
        let moved = pages.insert(first.0, pages[0]).insert(0, seq![guard_for::<K>(first.0)]);
        let second = taken(first.1, first.2);
        let split = after_split(moved, 0, 0, second.0, t);
        let after = put_below(split, second.1, second.2, 0, height + 1, key, data, t);
        (after.0, after.1, after.2, height + 1)
    } else {
        let after = put_below(pages, free, count, 0, height, key, data, t);
        (after.0, after.1, after.2, height)
    }
}

} // verus!
