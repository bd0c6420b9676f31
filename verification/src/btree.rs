//! The B-tree index: keys in pages of an index device, reached through a
//! page cache, with the payload of each key in a block of a data device.

use vstd::prelude::*;
use crate::btree_key::BTreeKey;
use crate::btree_record::BTreeRecord;
use crate::bytes::Bytes;
use crate::cache::{NO_PARENT, PageCache, points_to};
use crate::device::{
    BlockDevice, address_fits, blocks_after_write, can_address, lemma_can_address_below,
};
use crate::page::{
    Page, decode_block, encode_block, lemma_block_round_trip, lemma_decoded_storable, storable,
};
use crate::pair::Pair;
use crate::record::Record;
use crate::tree::{
    changed_within, child_at, child_has, child_hi, child_lo, grown_within, has_beside, has_entry,
    holds_record, in_subtree, is_first_child, is_greatest, is_least, is_slot, key_count, lemma_above,
    lemma_beside, lemma_child_bounds, lemma_child_changed, lemma_child_subtree,
    lemma_children_differ, lemma_descend, lemma_entries_within, lemma_greatest, lemma_holds_below,
    lemma_holds_here, lemma_leaf_insert,
    lemma_leaf_lookup, lemma_least, lemma_node_storable, lemma_siblings_apart, lemma_tighten_hi,
    lemma_tighten_lo, lemma_valid_below_top, lemma_widen, node_has, wf_subtree,
};
use crate::tree_insert::{lemma_put_down, lemma_put_here, least_of, put, put_below, taken};
use crate::tree_merge::{
    after_merge, after_rebalance, joined, lemma_collapsed, lemma_leaf_remove, lemma_merged_pair,
    lemma_rebalanced, lemma_replaced, lemma_unique_data, merge_parent, with_entry,
};
use crate::tree_order::{
    holds_key, increasing, keys_in_order, lemma_height_bound, lemma_keys_in_order,
    lemma_keys_upto_count, lemma_keys_upto_held, lemma_member_counts, power,
};
use crate::tree_split::{
    after_split, lemma_root_moved, lemma_split, split_left, split_parent, split_right,
};

verus! {

/// How many pages the index keeps in memory.
pub const CACHE_PAGES: usize = 4;

/// A B-tree of keys in the pages of an index device, with the payload of
/// each key in a block of a data device. The root is page 0.
pub struct BTree<K: BTreeKey, T: Record> {
    cache: PageCache<K>,
    data_device: BlockDevice,
    degree: u64,
    height: u64,
    index_pages_max: u64,
    index_pages_free_list: Vec<u64>,
    data_pages_max: u64,
    data_pages_free_list: Vec<u64>,
    payloads: core::marker::PhantomData<T>,
}

/// The first place in `records` whose key is not below `key`.
pub fn find_slot<K: BTreeKey>(records: &Vec<BTreeRecord<K>>, key: &K) -> (i: usize)
    ensures
        is_slot(records@, *key, i as int),
{
    let mut i: usize = 0;
    while i < records.len() && records[i].key.is_below(key)
        invariant
            0 <= i <= records@.len(),
            forall|j: int| 0 <= j < i ==> (#[trigger] records@[j]).key.rank() < key.rank(),
        decreases records@.len() - i,
    {
        i += 1;
    }
    i
}

/// Whether the pages below page 0 form a B-tree of `height` levels below
/// the root, of some degree.
pub open spec fn forms_tree<K: BTreeKey>(pages: Map<u64, Seq<BTreeRecord<K>>>, height: nat) -> bool {
    exists|t: nat, least: nat| #[trigger]
        wf_subtree(pages, 0, height, -1, K::sentinel().rank() as int, t, least)
}

/// Whether the pages below page `lba` form a B-tree of `depth` levels
/// below it, of some degree and within some bounds.
pub open spec fn forms_subtree<K: BTreeKey>(
    pages: Map<u64, Seq<BTreeRecord<K>>>,
    lba: u64,
    depth: nat,
) -> bool {
    exists|lo: int, hi: int, t: nat, least: nat|
        t >= 2 && #[trigger] wf_subtree(pages, lba, depth, lo, hi, t, least)
}

/// The record that holds `key` in the B-tree of `height` levels below
/// page 0 of `cache`, if the tree holds the key: the descent from the root
/// through, in each node, the first record whose key is not below `key`.
pub fn search_pages<K: BTreeKey>(cache: &mut PageCache<K>, height: u64, key: K) -> (r: Option<
    BTreeRecord<K>,
>)
    requires
        old(cache).wf(),
        forms_tree(old(cache)@, height as nat),
        forall|x: u64| #[trigger]
            in_subtree(old(cache)@, 0, height as nat, x) ==> can_address(
                old(cache).spec_block_size(),
                x,
            ),
    ensures
        final(cache).wf(),
        final(cache)@ == old(cache)@,
        final(cache).spec_block_size() == old(cache).spec_block_size(),
        final(cache).capacity() == old(cache).capacity(),
        r is Some <==> exists|data: u64| has_entry(old(cache)@, 0, height as nat, key, data),
        r is Some ==> r->Some_0.key == key && has_entry(
            old(cache)@,
            0,
            height as nat,
            key,
            r->Some_0.data_lba,
        ) && holds_record(old(cache)@, 0, height as nat, r->Some_0),
{
    let ghost pages = cache@;
    let ghost top = K::sentinel().rank() as int;
    let ghost whole = height as nat;
    let ghost (t, root_least) = choose|t: nat, least: nat| #[trigger]
        wf_subtree(pages, 0, whole, -1, top, t, least);
    if !key.is_valid() {
        proof {
            if exists|data: u64| has_entry(pages, 0, whole, key, data) {
                let data = choose|data: u64| has_entry(pages, 0, whole, key, data);
                crate::tree::lemma_entries_within(pages, 0, whole, -1, top, t, root_least, key, data);
            }
        }
        return None;
    }
    let mut lba: u64 = 0;
    let mut parent: u64 = NO_PARENT;
    let ghost mut h: nat = whole;
    let ghost mut lo: int = -1;
    let ghost mut hi: int = top;
    let ghost mut least: nat = root_least;
    proof {
        lemma_valid_below_top(key);
    }
    let mut result: Option<BTreeRecord<K>> = None;
    let mut depth: u64 = height;
    let mut done = false;
    while !done
        invariant
            cache.wf(),
            cache@ == pages,
            pages == old(cache)@,
            whole == height,
            cache.spec_block_size() == old(cache).spec_block_size(),
            cache.capacity() == old(cache).capacity(),
            key != K::sentinel(),
            depth == h,
            !done ==> {
                &&& result is None
                &&& wf_subtree(pages, lba, h, lo, hi, t, least)
                &&& lo < key.rank() < hi
                &&& forall|x: u64| #[trigger]
                    in_subtree(pages, lba, h, x) ==> in_subtree(pages, 0, whole, x)
                &&& forall|x: u64| #[trigger]
                    in_subtree(pages, 0, whole, x) ==> can_address(cache.spec_block_size(), x)
                &&& forall|data: u64|
                    has_entry(pages, 0, whole, key, data) == has_entry(pages, lba, h, key, data)
            },
            done ==> {
                &&& result is Some <==> exists|data: u64| has_entry(pages, 0, whole, key, data)
                &&& result is Some ==> result->Some_0.key == key && has_entry(
                    pages,
                    0,
                    whole,
                    key,
                    result->Some_0.data_lba,
                ) && holds_record(pages, 0, whole, result->Some_0)
            },
        decreases h + if done { 0int } else { 1int },
    {
        proof {
            assert(in_subtree(pages, lba, h, lba));
        }
        let records = cache.records(lba, parent);
        let i = find_slot(&records, &key);
        if depth == 0 {
            proof {
                lemma_leaf_lookup(pages, lba, lo, hi, t, least, key, i as int);
            }
            if i < records.len() && records[i].key.is_same(&key) {
                result = Some(records[i]);
                proof {
                    assert(has_entry(pages, 0, whole, key, records@[i as int].data_lba));
                    assert(pages[lba][i as int] == records@[i as int]);
                }
            } else {
                proof {
                    assert forall|data: u64| !has_entry(pages, 0, whole, key, data) by {
                        assert(!has_entry(pages, lba, 0, key, data));
                    }
                }
            }
            done = true;
        } else {
            proof {
                lemma_descend(pages, lba, h, lo, hi, t, least, key, i as int);
                lemma_child_subtree(pages, lba, h, i as int);
            }
            if records[i].key.is_same(&key) {
                result = Some(records[i]);
                proof {
                    assert(has_entry(pages, 0, whole, key, records@[i as int].data_lba));
                    assert(pages[lba][i as int] == records@[i as int]);
                }
                done = true;
            } else {
                match records[i].child_lba {
                    Some(child) => {
                        proof {
                            assert(child == child_at(pages[lba], i as int));
                            lo = child_lo(pages[lba], i as int, lo);
                            hi = child_hi(pages[lba], i as int, hi);
                            least = (t - 1) as nat;
                            h = (h - 1) as nat;
                        }
                        parent = lba;
                        lba = child;
                        depth = depth - 1;
                    },
                    None => {
                        proof {
                            assert(pages[lba][i as int].child_lba is Some);
                        }
                        done = true;
                    },
                }
            }
        }
    }
    result
}

/// The entry with the greatest key of the subtree below `lba`, whose top
/// node holds a key.
fn greatest_in<K: BTreeKey>(
    cache: &mut PageCache<K>,
    lba: u64,
    parent: u64,
    depth: u64,
    Ghost(lo): Ghost<int>,
    Ghost(hi): Ghost<int>,
    Ghost(t): Ghost<nat>,
    Ghost(least): Ghost<nat>,
) -> (record: BTreeRecord<K>)
    requires
        old(cache).wf(),
        t >= 2,
        wf_subtree(old(cache)@, lba, depth as nat, lo, hi, t, least),
        key_count(old(cache)@[lba]) >= 1,
        forall|x: u64| #[trigger]
            in_subtree(old(cache)@, lba, depth as nat, x) ==> can_address(
                old(cache).spec_block_size(),
                x,
            ),
    ensures
        final(cache).wf(),
        final(cache)@ == old(cache)@,
        final(cache).spec_block_size() == old(cache).spec_block_size(),
        final(cache).capacity() == old(cache).capacity(),
        is_greatest(old(cache)@, lba, depth as nat, record),
        holds_record(old(cache)@, lba, depth as nat, record),
    decreases depth,
{
    let ghost pages = cache@;
    proof {
        assert(in_subtree(pages, lba, depth as nat, lba));
    }
    let records = cache.records(lba, parent);
    let found = records[records.len() - 1];
    let ghost at = records@.len() - 1;
    if depth == 0 {
        proof {
            lemma_greatest(pages, lba, 0, lo, hi, t, least, found);
            lemma_holds_here(pages, lba, 0, at);
        }
        return found;
    }
    let child = match found.child_lba {
        Some(child) => child,
        None => 0,
    };
    proof {
        assert(pages[lba][at].child_lba is Some);
        assert(child == child_at(pages[lba], at));
        lemma_child_subtree(pages, lba, depth as nat, at);
        assert(wf_subtree(
            pages,
            child,
            (depth - 1) as nat,
            child_lo(pages[lba], at, lo),
            child_hi(pages[lba], at, hi),
            t,
            (t - 1) as nat,
        ));
    }
    let record = greatest_in(
        cache,
        child,
        lba,
        depth - 1,
        Ghost(child_lo(pages[lba], at, lo)),
        Ghost(child_hi(pages[lba], at, hi)),
        Ghost(t),
        Ghost((t - 1) as nat),
    );
    proof {
        lemma_greatest(pages, lba, depth as nat, lo, hi, t, least, record);
        lemma_holds_below(pages, lba, depth as nat, at, record);
    }
    record
}

/// The entry with the greatest key of the subtree of `depth` levels below
/// page `lba`, whose top node holds a key: the last record of its
/// rightmost leaf.
pub fn find_max_below<K: BTreeKey>(
    cache: &mut PageCache<K>,
    lba: u64,
    parent: u64,
    depth: u64,
) -> (record: BTreeRecord<K>)
    requires
        old(cache).wf(),
        forms_subtree(old(cache)@, lba, depth as nat),
        key_count(old(cache)@[lba]) >= 1,
        forall|x: u64| #[trigger]
            in_subtree(old(cache)@, lba, depth as nat, x) ==> can_address(
                old(cache).spec_block_size(),
                x,
            ),
    ensures
        final(cache).wf(),
        final(cache)@ == old(cache)@,
        final(cache).spec_block_size() == old(cache).spec_block_size(),
        final(cache).capacity() == old(cache).capacity(),
        is_greatest(old(cache)@, lba, depth as nat, record),
        holds_record(old(cache)@, lba, depth as nat, record),
{
    let ghost (lo, hi, t, least) = choose|lo: int, hi: int, t: nat, least: nat|
        t >= 2 && #[trigger] wf_subtree(cache@, lba, depth as nat, lo, hi, t, least);
    greatest_in(cache, lba, parent, depth, Ghost(lo), Ghost(hi), Ghost(t), Ghost(least))
}

/// The entry with the least key of the subtree below `lba`, whose top
/// node holds a key.
fn least_in<K: BTreeKey>(
    cache: &mut PageCache<K>,
    lba: u64,
    parent: u64,
    depth: u64,
    Ghost(lo): Ghost<int>,
    Ghost(hi): Ghost<int>,
    Ghost(t): Ghost<nat>,
    Ghost(least): Ghost<nat>,
) -> (record: BTreeRecord<K>)
    requires
        old(cache).wf(),
        t >= 2,
        wf_subtree(old(cache)@, lba, depth as nat, lo, hi, t, least),
        key_count(old(cache)@[lba]) >= 1,
        forall|x: u64| #[trigger]
            in_subtree(old(cache)@, lba, depth as nat, x) ==> can_address(
                old(cache).spec_block_size(),
                x,
            ),
    ensures
        final(cache).wf(),
        final(cache)@ == old(cache)@,
        final(cache).spec_block_size() == old(cache).spec_block_size(),
        final(cache).capacity() == old(cache).capacity(),
        is_least(old(cache)@, lba, depth as nat, record),
        holds_record(old(cache)@, lba, depth as nat, record),
    decreases depth,
{
    let ghost pages = cache@;
    proof {
        assert(in_subtree(pages, lba, depth as nat, lba));
    }
    let records = cache.records(lba, parent);
    let found = records[0];
    let ghost at = 0int;
    if depth == 0 {
        proof {
            lemma_least(pages, lba, 0, lo, hi, t, least, found);
            lemma_holds_here(pages, lba, 0, at);
        }
        return found;
    }
    let child = match found.child_lba {
        Some(child) => child,
        None => 0,
    };
    proof {
        assert(pages[lba][at].child_lba is Some);
        assert(child == child_at(pages[lba], at));
        lemma_child_subtree(pages, lba, depth as nat, at);
        assert(wf_subtree(
            pages,
            child,
            (depth - 1) as nat,
            child_lo(pages[lba], at, lo),
            child_hi(pages[lba], at, hi),
            t,
            (t - 1) as nat,
        ));
    }
    let record = least_in(
        cache,
        child,
        lba,
        depth - 1,
        Ghost(child_lo(pages[lba], at, lo)),
        Ghost(child_hi(pages[lba], at, hi)),
        Ghost(t),
        Ghost((t - 1) as nat),
    );
    proof {
        lemma_least(pages, lba, depth as nat, lo, hi, t, least, record);
        lemma_holds_below(pages, lba, depth as nat, at, record);
    }
    record
}

/// The entry with the least key of the subtree of `depth` levels below
/// page `lba`, whose top node holds a key: the first record of its
/// leftmost leaf.
pub fn find_min_below<K: BTreeKey>(
    cache: &mut PageCache<K>,
    lba: u64,
    parent: u64,
    depth: u64,
) -> (record: BTreeRecord<K>)
    requires
        old(cache).wf(),
        forms_subtree(old(cache)@, lba, depth as nat),
        key_count(old(cache)@[lba]) >= 1,
        forall|x: u64| #[trigger]
            in_subtree(old(cache)@, lba, depth as nat, x) ==> can_address(
                old(cache).spec_block_size(),
                x,
            ),
    ensures
        final(cache).wf(),
        final(cache)@ == old(cache)@,
        final(cache).spec_block_size() == old(cache).spec_block_size(),
        final(cache).capacity() == old(cache).capacity(),
        is_least(old(cache)@, lba, depth as nat, record),
        holds_record(old(cache)@, lba, depth as nat, record),
{
    let ghost (lo, hi, t, least) = choose|lo: int, hi: int, t: nat, least: nat|
        t >= 2 && #[trigger] wf_subtree(cache@, lba, depth as nat, lo, hi, t, least);
    least_in(cache, lba, parent, depth, Ghost(lo), Ghost(hi), Ghost(t), Ghost(least))
}

/// Whether `at` is the place of the first pair with `key` in `pairs`, or
/// their number where no pair has the key.
pub open spec fn is_first_with<K: BTreeKey, T: Record>(
    pairs: Seq<Pair<K, T>>,
    key: K,
    at: int,
) -> bool {
    &&& 0 <= at <= pairs.len()
    &&& forall|j: int| 0 <= j < at ==> (#[trigger] pairs[j]).key != key
    &&& at < pairs.len() ==> pairs[at].key == key
}

/// Whether `after` is `before` without its first pair with `key`, or
/// `before` itself where no pair has the key.
pub open spec fn without_key<K: BTreeKey, T: Record>(
    before: Seq<Pair<K, T>>,
    after: Seq<Pair<K, T>>,
    key: K,
) -> bool {
    exists|at: int|
        #[trigger] is_first_with(before, key, at) && after == if at < before.len() {
            before.remove(at)
        } else {
            before
        }
}

/// The place of the first pair with `key` in `pairs`, or their number
/// where no pair has the key.
pub fn find_pair<K: BTreeKey, T: Record>(pairs: &Vec<Pair<K, T>>, key: &K) -> (at: usize)
    ensures
        is_first_with(pairs@, *key, at as int),
{
    let mut at: usize = 0;
    while at < pairs.len() && !pairs[at].key.is_same(key)
        invariant
            0 <= at <= pairs@.len(),
            forall|j: int| 0 <= j < at ==> (#[trigger] pairs@[j]).key != *key,
        decreases pairs@.len() - at,
    {
        at += 1;
    }
    at
}

/// The place of the least number of a list that is not empty.
pub fn least_index(list: &Vec<u64>) -> (at: usize)
    requires
        list@.len() > 0,
    ensures
        at < list@.len(),
        list@[at as int] == least_of(list@),
        forall|j: int| 0 <= j < list@.len() ==> list@[at as int] <= #[trigger] list@[j],
{
    let mut at: usize = 0;
    let mut i: usize = 1;
    proof {
        assert(list@.take(1).len() == 1);
    }
    while i < list.len()
        invariant
            0 <= at < i <= list@.len(),
            list@[at as int] == least_of(list@.take(i as int)),
            forall|j: int| 0 <= j < i ==> list@[at as int] <= #[trigger] list@[j],
        decreases list@.len() - i,
    {
        proof {
            assert(list@.take(i + 1).drop_last() =~= list@.take(i as int));
        }
        if list[i] < list[at] {
            at = i;
        }
        i += 1;
    }
    proof {
        assert(list@.take(list@.len() as int) =~= list@);
    }
    at
}

/// The records of two neighbouring nodes as one node, with the key that
/// stood between them in the parent.
pub fn join_records<K: BTreeKey>(
    left: Vec<BTreeRecord<K>>,
    middle: BTreeRecord<K>,
    right: Vec<BTreeRecord<K>>,
) -> (all: Vec<BTreeRecord<K>>)
    ensures
        all@ == joined(left@, middle, right@),
{
    let mut all = left;
    let mut right = right;
    let len = all.len();
    if len > 0 && all[len - 1].key.is_invalid() {
        let guard = all[len - 1];
        all[len - 1] = BTreeRecord {
            child_lba: guard.child_lba,
            data_lba: middle.data_lba,
            key: middle.key,
        };
        proof {
            assert(all@ =~= left@.drop_last().push(with_entry(left@.last(), middle)));
        }
    } else {
        all.push(BTreeRecord { child_lba: None, data_lba: middle.data_lba, key: middle.key });
    }
    all.append(&mut right);
    all
}

/// The records before place `mid`, the record at it, and the records
/// behind it. Where the record at `mid` has a child, the records before it
/// get a guard with that child.
pub fn cut_records<K: BTreeKey>(all: Vec<BTreeRecord<K>>, mid: usize) -> (parts: (
    Vec<BTreeRecord<K>>,
    BTreeRecord<K>,
    Vec<BTreeRecord<K>>,
))
    requires
        mid < all@.len(),
    ensures
        parts.0@ == split_left(all@, mid as int),
        parts.1 == all@[mid as int],
        parts.2@ == split_right(all@, mid as int),
{
    let mut left = all;
    let mut right = left.split_off(mid);
    let middle = right.remove(0);
    proof {
        assert(left@ =~= all@.take(mid as int));
        assert(right@ =~= all@.skip(mid + 1));
    }
    match middle.child_lba {
        Some(inner) => {
            left.push(BTreeRecord { child_lba: Some(inner), data_lba: 0, key: K::invalid() });
        },
        None => {},
    }
    (left, middle, right)
}

/// How many keys a node holds: its records, but for the guard.
pub fn count_keys<K: BTreeKey>(records: &Vec<BTreeRecord<K>>) -> (n: usize)
    ensures
        n == key_count(records@),
{
    let len = records.len();
    if len > 0 && records[len - 1].key.is_invalid() {
        len - 1
    } else {
        len
    }
}

impl<K: BTreeKey, T: Record> BTree<K, T> {
    /// Splits `child`, a node with at least one key, around its middle
    /// key. The records behind the middle go to `new_child`; the middle
    /// record goes to `parent`, before the first record that points to
    /// `child`, which from then on points to `new_child`. Returns the place
    /// of the middle record in `parent`.
    pub fn split_child(
        parent: &mut Page<BTreeRecord<K>>,
        child: &mut Page<BTreeRecord<K>>,
        new_child: &mut Page<BTreeRecord<K>>,
    ) -> (at: usize)
        requires
            key_count(old(child).records@) >= 1,
            exists|i: int| is_first_child(old(parent).records@, old(child).lba, i),
        ensures
            is_first_child(old(parent).records@, old(child).lba, at as int),
            final(child).records@ == split_left(
                old(child).records@,
                key_count(old(child).records@) as int / 2,
            ),
            final(new_child).records@ == old(new_child).records@ + split_right(
                old(child).records@,
                key_count(old(child).records@) as int / 2,
            ),
            final(parent).records@ == split_parent(
                old(parent).records@,
                at as int,
                old(child).records@[key_count(old(child).records@) as int / 2],
                old(child).lba,
                old(new_child).lba,
            ),
            final(parent).dirty && final(child).dirty && final(new_child).dirty,
            final(parent).lba == old(parent).lba && final(parent).parent_lba == old(
                parent,
            ).parent_lba,
            final(child).lba == old(child).lba && final(child).parent_lba == old(child).parent_lba,
            final(new_child).lba == old(new_child).lba && final(new_child).parent_lba == old(
                new_child,
            ).parent_lba,
    {
        let centre_index = count_keys(&child.records) / 2;
        let ghost all = child.records@;
        let ghost kept = new_child.records@;
        let mut moved = child.records.split_off(centre_index);
        let centre_record = moved.remove(0);
        proof {
            assert(child.records@ =~= all.take(centre_index as int));
            assert(moved@ =~= all.skip(centre_index + 1));
        }
        new_child.records.append(&mut moved);
        let mut at: usize = 0;
        while at < parent.records.len() && !Self::points_to(&parent.records[at], child.lba)
            invariant
                0 <= at <= parent.records@.len(),
                *parent == *old(parent),
                child.lba == old(child).lba,
                forall|j: int|
                    0 <= j < at ==> (#[trigger] parent.records@[j]).child_lba != Some(child.lba),
            decreases parent.records@.len() - at,
        {
            at += 1;
        }
        proof {
            let i = choose|i: int| is_first_child(old(parent).records@, old(child).lba, i);
            if at > i {
                assert(parent.records@[i].child_lba != Some(child.lba));
            }
        }
        match centre_record.child_lba {
            Some(inner) => {
                child.records.push(
                    BTreeRecord { child_lba: Some(inner), data_lba: 0, key: K::invalid() },
                );
            },
            None => {},
        }
        let pointer = parent.records[at];
        parent.records[at] = BTreeRecord {
            child_lba: Some(new_child.lba),
            data_lba: pointer.data_lba,
            key: pointer.key,
        };
        parent.records.insert(
            at,
            BTreeRecord {
                child_lba: Some(child.lba),
                data_lba: centre_record.data_lba,
                key: centre_record.key,
            },
        );
        child.dirty = true;
        new_child.dirty = true;
        parent.dirty = true;
        at
    }

    /// Whether `record` points to the page `lba`.
    fn points_to(record: &BTreeRecord<K>, lba: u64) -> (b: bool)
        ensures
            b == (record.child_lba == Some(lba)),
    {
        match record.child_lba {
            Some(child) => child == lba,
            None => false,
        }
    }

    /// The records of every index page.
    pub closed spec fn pages(&self) -> Map<u64, Seq<BTreeRecord<K>>> {
        self.cache@
    }

    /// The minimum degree of the tree.
    pub closed spec fn spec_degree(&self) -> nat {
        self.degree as nat
    }

    /// The number of levels below the root.
    pub closed spec fn spec_height(&self) -> nat {
        self.height as nat
    }

    /// The bound above every key.
    pub open spec fn top() -> int {
        K::sentinel().rank() as int
    }

    /// Whether index page `lba` is in use: handed out, and not given back.
    pub closed spec fn is_used(&self, lba: u64) -> bool {
        lba < self.index_pages_max && !self.index_pages_free_list@.contains(lba)
    }

    /// The index pages in use.
    pub closed spec fn used(&self) -> Set<u64> {
        Set::new(|lba: u64| self.is_used(lba))
    }

    /// Whether `n` more index pages can be handed out, whatever the list
    /// of pages given back holds.
    spec fn index_budget(&self, n: nat) -> bool {
        n == 0 || (self.index_pages_max + n <= u64::MAX && can_address(
            self.cache.spec_block_size(),
            (self.index_pages_max + n - 1) as u64,
        ))
    }

    /// Whether every page of the subtree below `lba` is in use.
    spec fn subtree_used(&self, lba: u64, h: nat) -> bool {
        forall|x: u64| #[trigger] in_subtree(self.cache@, lba, h, x) ==> self.is_used(x)
    }

    /// Whether the tree holds `key` with the data block `data`.
    pub closed spec fn has(&self, key: K, data: u64) -> bool {
        has_entry(self.cache@, 0, self.height as nat, key, data)
    }

    /// Whether the tree holds `key`.
    pub open spec fn contains(&self, key: K) -> bool {
        exists|data: u64| self.has(key, data)
    }

    /// The least number of keys that the root may hold.
    pub open spec fn root_least(height: nat) -> nat {
        if height > 0 {
            1
        } else {
            0
        }
    }

    /// The index, whatever its pages hold, is in order: the cache is, a
    /// node of the tree's degree fits a block, the pages handed out can be
    /// held by the device, and none is given back twice.
    spec fn index_wf(&self) -> bool {
        &&& self.cache.wf()
        &&& self.degree >= 2
        &&& 2 * self.degree * BTreeRecord::<K>::width() <= self.cache.spec_block_size()
        &&& 1 <= self.index_pages_max
        &&& can_address(self.cache.spec_block_size(), (self.index_pages_max - 1) as u64)
        &&& forall|i: int|
            0 <= i < self.index_pages_free_list@.len() ==> 0 < (
            #[trigger] self.index_pages_free_list@[i]) < self.index_pages_max
        &&& forall|i: int, j: int|
            0 <= i < j < self.index_pages_free_list@.len() ==> self.index_pages_free_list@[i]
                != self.index_pages_free_list@[j]
    }

    /// The pairs of key and payload that data block `lba` holds.
    pub closed spec fn data_page(&self, lba: u64) -> Seq<Pair<K, T>> {
        if lba < self.data_device@.len() {
            decode_block::<Pair<K, T>>(self.data_device@[lba as int])
        } else {
            Seq::empty()
        }
    }

    /// The data block that the next new key gets its payload in: the least
    /// of the blocks with room, or a new block where there is none.
    pub closed spec fn next_data_lba(&self) -> u64 {
        if self.data_pages_free_list@.len() == 0 {
            self.data_pages_max
        } else {
            least_of(self.data_pages_free_list@)
        }
    }

    /// Whether one more pair fits data block `lba`.
    spec fn data_room(&self, lba: u64) -> bool {
        (self.data_page(lba).len() + 1) * Pair::<K, T>::width() <= self.data_device.spec_block_size()
    }

    spec fn data_wf(&self) -> bool {
        let list = self.data_pages_free_list@;
        let blocks = self.data_device@.len();
        &&& self.data_device.wf()
        &&& Pair::<K, T>::width() <= self.data_device.spec_block_size()
        &&& self.data_pages_max == blocks || (self.data_pages_max == blocks + 1 && list.contains(
            blocks as u64,
        ))
        &&& self.data_pages_max == 0 || can_address(
            self.data_device.spec_block_size(),
            (self.data_pages_max - 1) as u64,
        )
        &&& forall|i: int|
            0 <= i < list.len() ==> (#[trigger] list[i]) < self.data_pages_max && self.data_room(
                list[i],
            )
        &&& forall|i: int, j: int| 0 <= i < j < list.len() ==> list[i] != list[j]
    }

    /// How many index pages were handed out so far, the root among them.
    /// Pages given back are handed out again before this number grows.
    pub closed spec fn index_pages(&self) -> nat {
        self.index_pages_max as nat
    }

    /// The index pages that were given back and not yet handed out again.
    pub closed spec fn free_index_pages(&self) -> Seq<u64> {
        self.index_pages_free_list@
    }

    /// How many data blocks were set aside so far.
    pub closed spec fn data_pages(&self) -> nat {
        self.data_pages_max as nat
    }

    /// The data blocks that have room for one more pair.
    pub closed spec fn open_data_pages(&self) -> Seq<u64> {
        self.data_pages_free_list@
    }

    /// The block size of the data device.
    pub closed spec fn data_block_size(&self) -> u64 {
        self.data_device.spec_block_size()
    }

    /// Whether `later` has the devices, the pages handed out and the data
    /// blocks with room that this tree has.
    pub open spec fn same_room(&self, later: &Self) -> bool {
        &&& later.index_block_size() == self.index_block_size()
        &&& later.data_block_size() == self.data_block_size()
        &&& later.index_pages() == self.index_pages()
        &&& later.free_index_pages() == self.free_index_pages()
        &&& later.data_pages() == self.data_pages()
        &&& later.open_data_pages() == self.open_data_pages()
    }

    /// Whether the devices have room for one more key: for the index pages
    /// that putting it in may take, one for each level and two more where
    /// the root is split, and for the data block of its payload.
    pub open spec fn has_room(&self) -> bool {
        &&& self.index_pages() + self.spec_height() + 3 <= u64::MAX
        &&& can_address(
            self.index_block_size(),
            (self.index_pages() + self.spec_height() + 2) as u64,
        )
        &&& self.open_data_pages().len() > 0 || (self.data_pages() < u64::MAX && can_address(
            self.data_block_size(),
            self.data_pages() as u64,
        ))
    }

    /// The pages form a B-tree of the tree's degree below page 0, made of
    /// pages in use.
    pub closed spec fn inv(&self) -> bool {
        &&& self.index_wf()
        &&& self.data_wf()
        &&& self.data_matches()
        &&& wf_subtree(
            self.cache@,
            0,
            self.height as nat,
            -1,
            Self::top(),
            self.degree as nat,
            Self::root_least(self.height as nat),
        )
        &&& forall|x: u64| #[trigger]
            in_subtree(self.cache@, 0, self.height as nat, x) ==> self.is_used(x)
    }

    /// The data blocks hold the payloads of the keys of the tree and no
    /// others: the pairs of a data block have different keys, each of them
    /// a key that the tree holds with that block, and every key that the
    /// tree holds with a block has a pair in it.
    pub closed spec fn data_matches(&self) -> bool {
        &&& forall|lba: u64, i: int|
            0 <= i < self.data_page(lba).len() ==> self.has(
                (#[trigger] self.data_page(lba)[i]).key,
                lba,
            )
        &&& forall|key: K, lba: u64| #[trigger]
            self.has(key, lba) ==> exists|i: int|
                0 <= i < self.data_page(lba).len() && (#[trigger] self.data_page(lba)[i]).key
                    == key
        &&& forall|lba: u64, i: int, j: int|
            0 <= i < j < self.data_page(lba).len() ==> (#[trigger] self.data_page(lba)[i]).key != (
            #[trigger] self.data_page(lba)[j]).key
    }

    /// The payload of `key`, a key that the tree holds: the value of the
    /// pair with the key in the data block of the key.
    pub closed spec fn payload(&self, key: K) -> T {
        let lba = choose|lba: u64| self.has(key, lba);
        let at = choose|at: int|
            0 <= at < self.data_page(lba).len() && (#[trigger] self.data_page(lba)[at]).key == key;
        self.data_page(lba)[at].value
    }

    /// A tree with the same entries and the same data blocks has data
    /// blocks that match, and the same payloads.
    proof fn lemma_data_same(&self, later: &Self)
        requires
            self.inv(),
            forall|key: K, lba: u64| #[trigger] later.has(key, lba) == self.has(key, lba),
            forall|lba: u64| #[trigger] later.data_page(lba) == self.data_page(lba),
        ensures
            later.data_matches(),
            forall|key: K| self.contains(key) ==> #[trigger] later.payload(key) == self.payload(key),
    {
        assert forall|lba: u64, i: int| 0 <= i < later.data_page(lba).len() implies later.has(
            (#[trigger] later.data_page(lba)[i]).key,
            lba,
        ) by {
            assert(self.has(self.data_page(lba)[i].key, lba));
        }
        assert forall|key: K, lba: u64| #[trigger] later.has(key, lba) implies exists|i: int|
            0 <= i < later.data_page(lba).len() && (#[trigger] later.data_page(lba)[i]).key
                == key by {
            assert(self.has(key, lba));
            let i = choose|i: int|
                0 <= i < self.data_page(lba).len() && (#[trigger] self.data_page(lba)[i]).key
                    == key;
            assert(later.data_page(lba)[i].key == key);
        }
        assert forall|lba: u64, i: int, j: int|
            0 <= i < j < later.data_page(lba).len() implies (#[trigger] later.data_page(lba)[i]).key
            != (#[trigger] later.data_page(lba)[j]).key by {
            assert(self.data_page(lba)[i].key != self.data_page(lba)[j].key);
        }
        assert forall|key: K| self.contains(key) implies #[trigger] later.payload(key)
            == self.payload(key) by {
            let held = choose|lba: u64| self.has(key, lba);
            assert(later.has(key, held));
            let lba = choose|lba: u64| later.has(key, lba);
            assert(self.has(key, lba));
            let at = choose|at: int|
                0 <= at < later.data_page(lba).len() && (#[trigger] later.data_page(lba)[at]).key
                    == key;
            self.lemma_payload(key, lba, at);
        }
    }

    /// A tree with one more key, whose pair was added to its data block,
    /// has data blocks that match.
    proof fn lemma_data_inserted(&self, later: &Self, key: K, lba: u64, record: T)
        requires
            self.inv(),
            !self.contains(key),
            forall|k: K, data: u64| #[trigger]
                later.has(k, data) == (self.has(k, data) || (k == key && data == lba)),
            later.data_page(lba) == self.data_page(lba).push(Pair { key, value: record }),
            forall|x: u64| x != lba ==> #[trigger] later.data_page(x) == self.data_page(x),
        ensures
            later.data_matches(),
    {
        let added = Pair { key, value: record };
        assert forall|x: u64, i: int| 0 <= i < later.data_page(x).len() implies later.has(
            (#[trigger] later.data_page(x)[i]).key,
            x,
        ) by {
            if x == lba && i == self.data_page(lba).len() {
                assert(later.data_page(x)[i] == added);
            } else {
                assert(later.data_page(x)[i] == self.data_page(x)[i]);
                assert(self.has(self.data_page(x)[i].key, x));
            }
        }
        assert forall|k: K, x: u64| #[trigger] later.has(k, x) implies exists|i: int|
            0 <= i < later.data_page(x).len() && (#[trigger] later.data_page(x)[i]).key == k by {
            if self.has(k, x) {
                let i = choose|i: int|
                    0 <= i < self.data_page(x).len() && (#[trigger] self.data_page(x)[i]).key == k;
                assert(later.data_page(x)[i] == self.data_page(x)[i]);
                assert(later.data_page(x)[i].key == k);
            } else {
                let i = self.data_page(lba).len() as int;
                assert(later.data_page(x)[i] == added);
                assert(later.data_page(x)[i].key == k);
            }
        }
        assert forall|x: u64, i: int, j: int|
            0 <= i < j < later.data_page(x).len() implies (#[trigger] later.data_page(x)[i]).key != (
            #[trigger] later.data_page(x)[j]).key by {
            if x == lba && j == self.data_page(lba).len() {
                assert(later.data_page(x)[i] == self.data_page(x)[i]);
                assert(self.has(self.data_page(x)[i].key, x));
                assert(later.data_page(x)[j] == added);
            } else {
                assert(later.data_page(x)[i] == self.data_page(x)[i]);
                assert(later.data_page(x)[j] == self.data_page(x)[j]);
                assert(self.data_page(x)[i].key != self.data_page(x)[j].key);
            }
        }
    }

    /// A tree without one of its keys, whose pair was taken out of its
    /// data block, has data blocks that match.
    proof fn lemma_data_removed(&self, later: &Self, key: K)
        requires
            self.inv(),
            forall|k: K, data: u64| #[trigger]
                later.has(k, data) == (self.has(k, data) && k != key),
            forall|x: u64| !self.has(key, x) ==> #[trigger] later.data_page(x) == self.data_page(x),
            forall|x: u64|
                self.has(key, x) ==> without_key(
                    self.data_page(x),
                    #[trigger] later.data_page(x),
                    key,
                ),
        ensures
            later.data_matches(),
            forall|k: K|
                self.contains(k) && k != key ==> #[trigger] later.payload(k) == self.payload(k),
    {
        assert forall|x: u64|
            self.has(key, x) implies exists|at: int|
            0 <= at < self.data_page(x).len() && is_first_with(self.data_page(x), key, at)
                && #[trigger] later.data_page(x) == self.data_page(x).remove(at) by {
            let at = choose|at: int|
                #[trigger] is_first_with(self.data_page(x), key, at) && later.data_page(x)
                    == if at < self.data_page(x).len() {
                    self.data_page(x).remove(at)
                } else {
                    self.data_page(x)
                };
            let i = choose|i: int|
                0 <= i < self.data_page(x).len() && (#[trigger] self.data_page(x)[i]).key == key;
            assert(at <= i);
        }
        assert forall|x: u64, i: int| 0 <= i < later.data_page(x).len() implies later.has(
            (#[trigger] later.data_page(x)[i]).key,
            x,
        ) && exists|j: int|
            0 <= j < self.data_page(x).len() && later.data_page(x)[i] == #[trigger] self.data_page(
                x,
            )[j] by {
            if self.has(key, x) {
                let at = choose|at: int|
                    0 <= at < self.data_page(x).len() && is_first_with(self.data_page(x), key, at)
                        && later.data_page(x) == self.data_page(x).remove(at);
                let j = if i < at {
                    i
                } else {
                    i + 1
                };
                assert(later.data_page(x)[i] == self.data_page(x)[j]);
                assert(self.has(self.data_page(x)[j].key, x));
                if j < at {
                    assert(self.data_page(x)[j].key != self.data_page(x)[at].key);
                } else {
                    assert(self.data_page(x)[at].key != self.data_page(x)[j].key);
                }
            } else {
                assert(later.data_page(x)[i] == self.data_page(x)[i]);
                assert(self.has(self.data_page(x)[i].key, x));
            }
        }
        assert forall|k: K, x: u64| #[trigger] later.has(k, x) implies exists|i: int|
            0 <= i < later.data_page(x).len() && (#[trigger] later.data_page(x)[i]).key == k by {
            let j = choose|j: int|
                0 <= j < self.data_page(x).len() && (#[trigger] self.data_page(x)[j]).key == k;
            if self.has(key, x) {
                let at = choose|at: int|
                    0 <= at < self.data_page(x).len() && is_first_with(self.data_page(x), key, at)
                        && later.data_page(x) == self.data_page(x).remove(at);
                let i = if j < at {
                    j
                } else {
                    j - 1
                };
                assert(later.data_page(x)[i] == self.data_page(x)[j]);
                assert(later.data_page(x)[i].key == k);
            } else {
                assert(later.data_page(x)[j].key == k);
            }
        }
        assert forall|x: u64, i: int, j: int|
            0 <= i < j < later.data_page(x).len() implies (#[trigger] later.data_page(x)[i]).key != (
            #[trigger] later.data_page(x)[j]).key by {
            if self.has(key, x) {
                let at = choose|at: int|
                    0 <= at < self.data_page(x).len() && is_first_with(self.data_page(x), key, at)
                        && later.data_page(x) == self.data_page(x).remove(at);
                let a = if i < at {
                    i
                } else {
                    i + 1
                };
                let b = if j < at {
                    j
                } else {
                    j + 1
                };
                assert(later.data_page(x)[i] == self.data_page(x)[a]);
                assert(later.data_page(x)[j] == self.data_page(x)[b]);
                assert(self.data_page(x)[a].key != self.data_page(x)[b].key);
            } else {
                assert(self.data_page(x)[i].key != self.data_page(x)[j].key);
            }
        }
        assert forall|k: K| self.contains(k) && k != key implies #[trigger] later.payload(k)
            == self.payload(k) by {
            let held = choose|lba: u64| self.has(k, lba);
            assert(later.has(k, held));
            let lba = choose|lba: u64| later.has(k, lba);
            assert(self.has(k, lba));
            let at = choose|at: int|
                0 <= at < later.data_page(lba).len() && (#[trigger] later.data_page(lba)[at]).key
                    == k;
            let j = choose|j: int|
                0 <= j < self.data_page(lba).len() && later.data_page(lba)[at]
                    == #[trigger] self.data_page(lba)[j];
            self.lemma_payload(k, lba, j);
        }
    }

    /// A tree with the same pages and the same data is the same tree: it
    /// holds what the tree holds, with the same payloads.
    proof fn lemma_unchanged(&self, later: &Self)
        requires
            self.inv(),
            later.cache@ == self.cache@,
            later.height == self.height,
            later.data_device@ == self.data_device@,
        ensures
            later.data_matches(),
            forall|key: K, lba: u64| #[trigger] later.has(key, lba) == self.has(key, lba),
            forall|lba: u64| #[trigger] later.data_page(lba) == self.data_page(lba),
            forall|key: K| self.contains(key) ==> #[trigger] later.payload(key) == self.payload(key),
    {
        assert forall|key: K, lba: u64| #[trigger] later.has(key, lba) == self.has(key, lba) by {}
        assert forall|lba: u64| #[trigger] later.data_page(lba) == self.data_page(lba) by {}
        self.lemma_data_same(later);
    }

    /// The payload of a key is the value of every pair with the key in
    /// the data block of the key.
    proof fn lemma_payload(&self, key: K, lba: u64, at: int)
        requires
            self.inv(),
            self.has(key, lba),
            0 <= at < self.data_page(lba).len(),
            self.data_page(lba)[at].key == key,
        ensures
            self.payload(key) == self.data_page(lba)[at].value,
    {
        let chosen = choose|lba: u64| self.has(key, lba);
        lemma_unique_data(
            self.cache@,
            0,
            self.height as nat,
            -1,
            Self::top(),
            self.degree as nat,
            Self::root_least(self.height as nat),
            key,
            lba,
            chosen,
        );
        let found = choose|at: int|
            0 <= at < self.data_page(lba).len() && (#[trigger] self.data_page(lba)[at]).key == key;
        if found < at {
            assert(self.data_page(lba)[found].key != self.data_page(lba)[at].key);
        } else if at < found {
            assert(self.data_page(lba)[at].key != self.data_page(lba)[found].key);
        }
    }

    /// What the invariant says of the pages.
    pub proof fn lemma_inv(&self)
        requires
            self.inv(),
        ensures
            self.spec_degree() >= 2,
            wf_subtree(
                self.pages(),
                0,
                self.spec_height(),
                -1,
                Self::top(),
                self.spec_degree(),
                Self::root_least(self.spec_height()),
            ),
            forall|key: K, data: u64|
                self.has(key, data) == has_entry(self.pages(), 0, self.spec_height(), key, data),
    {
    }

    /// A page in use can be held by the index device.
    proof fn lemma_used_addressable(&self, lba: u64)
        requires
            self.index_wf(),
            lba < self.index_pages_max,
        ensures
            can_address(self.cache.spec_block_size(), lba),
    {
        lemma_can_address_below(
            self.cache.spec_block_size(),
            (self.index_pages_max - 1) as u64,
            lba,
        );
    }

    /// An empty tree over two empty devices. There is none where a device
    /// holds blocks already, where an index block holds fewer than four
    /// records, or where a data block holds no pair of key and payload.
    pub fn new(index_device: BlockDevice, data_device: BlockDevice) -> (r: Option<Self>)
        requires
            index_device.wf(),
            data_device.wf(),
        ensures
            r is Some <==> {
                &&& index_device@.len() == 0
                &&& data_device@.len() == 0
                &&& index_device.spec_block_size() / (BTreeRecord::<K>::width() as u64) >= 4
                &&& data_device.spec_block_size() >= Pair::<K, T>::width()
            },
            r is Some ==> {
                let tree = r->Some_0;
                &&& tree.inv()
                &&& tree.spec_height() == 0
                &&& tree.spec_degree() == (index_device.spec_block_size() / (
                BTreeRecord::<K>::width() as u64)) / 2
                &&& forall|key: K, data: u64| !tree.has(key, data)
                &&& tree.index_block_size() == index_device.spec_block_size()
                &&& tree.data_block_size() == data_device.spec_block_size()
                &&& tree.index_pages() == 1
                &&& tree.free_index_pages() == Seq::<u64>::empty()
                &&& tree.data_pages() == 0
                &&& tree.open_data_pages().len() == 0
                &&& tree.pages()[0] == Seq::<BTreeRecord<K>>::empty()
                &&& tree.has_room() == can_address(index_device.spec_block_size(), 3)
            },
    {
        proof {
            BTreeRecord::<K>::lemma_width_bounds();
            Pair::<K, T>::lemma_width_bounds();
            index_device.lemma_wf();
        }
        let block_size = index_device.block_size();
        let record_size = BTreeRecord::<K>::get_size();
        let child_count: u64 = block_size / record_size;
        let degree = child_count / 2;
        if index_device.block_count() != 0 || data_device.block_count() != 0 || child_count < 4
            || data_device.block_size() < Pair::<K, T>::get_size() {
            return None;
        }
        proof {
            assert(2 * degree * record_size <= block_size) by (nonlinear_arith)
                requires
                    degree == (block_size / record_size) / 2,
                    record_size > 0,
            ;
            assert(block_size >= record_size) by (nonlinear_arith)
                requires
                    block_size / record_size >= 4,
                    record_size > 0,
            ;
            assert((0 + 1) * block_size <= u64::MAX) by (nonlinear_arith)
                requires
                    block_size <= u64::MAX,
            ;
        }
        let cache = PageCache::<K>::new(index_device, CACHE_PAGES);
        let tree = BTree {
            cache,
            data_device,
            degree,
            height: 0,
            index_pages_max: 1,
            index_pages_free_list: Vec::new(),
            data_pages_max: 0,
            data_pages_free_list: Vec::new(),
            payloads: core::marker::PhantomData,
        };
        proof {
            assert(tree.cache@[0] =~= Seq::<BTreeRecord<K>>::empty());
            assert forall|x: u64| #[trigger]
                in_subtree(tree.cache@, 0, 0, x) implies tree.is_used(x) by {}
            data_device.lemma_wf();
        }
        Some(tree)
    }

    /// The minimum degree of the tree.
    pub fn degree(&self) -> (t: u64)
        ensures
            t == self.spec_degree(),
    {
        self.degree
    }

    /// The number of levels below the root.
    pub fn height(&self) -> (h: u64)
        ensures
            h == self.spec_height(),
    {
        self.height
    }

    /// The record that holds `key`, if the tree holds the key.
    pub fn search(&mut self, key: K) -> (r: Option<BTreeRecord<K>>)
        requires
            old(self).inv(),
        ensures
            final(self).inv(),
            final(self).pages() == old(self).pages(),
            old(self).same_room(&*final(self)),
            final(self).spec_height() == old(self).spec_height(),
            final(self).spec_degree() == old(self).spec_degree(),
            forall|k: K, data: u64| final(self).has(k, data) == old(self).has(k, data),
            forall|x: u64| #[trigger] final(self).data_page(x) == old(self).data_page(x),
            forall|k: K| old(self).contains(k) ==> #[trigger] final(self).payload(k) == old(self).payload(k),
            r is Some <==> old(self).contains(key),
            r is Some ==> r->Some_0.key == key && old(self).has(key, r->Some_0.data_lba),
            r is Some ==> holds_record(
                old(self).pages(),
                0,
                old(self).spec_height(),
                r->Some_0,
            ),
    {
        proof {
            assert forall|x: u64| #[trigger]
                in_subtree(self.cache@, 0, self.height as nat, x) implies can_address(
                self.cache.spec_block_size(),
                x,
            ) by {
                self.lemma_used_addressable(x);
            }
        }
        proof {
            assert(wf_subtree(
                self.cache@,
                0,
                self.height as nat,
                -1,
                Self::top(),
                self.degree as nat,
                Self::root_least(self.height as nat),
            ));
        }
        let result = search_pages(&mut self.cache, self.height, key);
        proof {
            self.lemma_same_used(old(self));
            old(self).lemma_unchanged(&*self);
            let pages = old(self).cache@;
            let h = self.height as nat;
            if result is Some {
                assert(old(self).has(key, result->Some_0.data_lba));
            } else if old(self).contains(key) {
                let data = choose|data: u64| old(self).has(key, data);
                assert(has_entry(pages, 0, h, key, data));
            }
        }
        result
    }

    /// Which pages are in use depends on the pages handed out and given
    /// back alone.
    proof fn lemma_same_used(&self, other: &Self)
        requires
            self.index_pages_max == other.index_pages_max,
            self.index_pages_free_list == other.index_pages_free_list,
        ensures
            forall|x: u64| #[trigger] self.is_used(x) == other.is_used(x),
            self.used() == other.used(),
    {
        assert(self.used() =~= other.used());
    }

    /// Twice the degree fits the machine's numbers.
    proof fn lemma_degree_small(&self)
        requires
            self.index_wf(),
        ensures
            2 * self.degree <= u64::MAX,
            2 * self.degree <= usize::MAX,
    {
        BTreeRecord::<K>::lemma_width_bounds();
        self.cache.lemma_wf();
        let w = BTreeRecord::<K>::width();
        assert(2 * self.degree <= 2 * self.degree * w) by (nonlinear_arith)
            requires
                w >= 1,
        ;
    }

    /// A budget for pages covers every smaller budget, also after pages
    /// were handed out from it.
    proof fn lemma_budget(&self, later: &Self, n: nat, spent: nat)
        requires
            self.index_budget(n),
            spent <= n,
            later.cache.spec_block_size() == self.cache.spec_block_size(),
            later.index_pages_max <= self.index_pages_max + spent,
            self.index_pages_max <= later.index_pages_max,
        ensures
            later.index_budget((n - spent) as nat),
    {
        if n - spent > 0 {
            lemma_can_address_below(
                self.cache.spec_block_size(),
                (self.index_pages_max + n - 1) as u64,
                (later.index_pages_max + (n - spent) - 1) as u64,
            );
        }
    }

    /// Hands out an index page that is not in use: the least of those
    /// given back, or a new one where none was given back.
    fn get_next_index_lba(&mut self) -> (lba: u64)
        requires
            old(self).index_wf(),
            old(self).index_budget(1),
        ensures
            final(self).index_wf(),
            final(self).cache == old(self).cache,
            final(self).data_device == old(self).data_device,
            final(self).degree == old(self).degree,
            final(self).height == old(self).height,
            final(self).data_pages_max == old(self).data_pages_max,
            final(self).data_pages_free_list == old(self).data_pages_free_list,
            old(self).index_pages_max <= final(self).index_pages_max <= old(self).index_pages_max
                + 1,
            lba != 0,
            !old(self).is_used(lba),
            final(self).is_used(lba),
            forall|x: u64| x != lba ==> final(self).is_used(x) == old(self).is_used(x),
            can_address(final(self).cache.spec_block_size(), lba),
            (lba, final(self).index_pages_free_list@, final(self).index_pages_max as nat) == taken(
                old(self).index_pages_free_list@,
                old(self).index_pages_max as nat,
            ),
    {
        if self.index_pages_free_list.len() == 0 {
            let new_page = self.index_pages_max;
            self.index_pages_max += 1;
            self.index_pages_free_list.push(new_page);
        }
        let min_index = least_index(&self.index_pages_free_list);
        let ghost list = self.index_pages_free_list@;
        let min = self.index_pages_free_list.remove(min_index);
        proof {
            let rest = self.index_pages_free_list@;
            assert(rest =~= list.remove(min_index as int));
            assert forall|j: int| 0 <= j < rest.len() implies 0 < (#[trigger] rest[j])
                < self.index_pages_max && rest[j] != min by {
                if j < min_index {
                    assert(rest[j] == list[j]);
                } else {
                    assert(rest[j] == list[j + 1]);
                }
            }
            assert(!rest.contains(min));
            assert(list.contains(min)) by {
                assert(list[min_index as int] == min);
            }
            assert forall|x: u64| x != min implies rest.contains(x) == list.contains(x) by {
                if list.contains(x) {
                    let j = choose|j: int| 0 <= j < list.len() && list[j] == x;
                    if j < min_index {
                        assert(rest[j] == x);
                    } else {
                        assert(rest[j - 1] == x);
                    }
                }
                if rest.contains(x) {
                    let j = choose|j: int| 0 <= j < rest.len() && rest[j] == x;
                    if j < min_index {
                        assert(list[j] == x);
                    } else {
                        assert(list[j + 1] == x);
                    }
                }
            }
            assert forall|a: int, b: int| 0 <= a < b < rest.len() implies rest[a] != rest[b] by {
                let ka = if a < min_index {
                    a
                } else {
                    a + 1
                };
                let kb = if b < min_index {
                    b
                } else {
                    b + 1
                };
                assert(list[ka] != list[kb]);
            }
            if old(self).index_pages_free_list@.len() == 0 {
                assert(min == old(self).index_pages_max);
                assert(!old(self).index_pages_free_list@.contains(min));
                assert(rest =~= old(self).index_pages_free_list@);
            } else {
                assert(list == old(self).index_pages_free_list@);
                let k = list.index_of(min);
                assert(list[min_index as int] == min);
                assert(0 <= k < list.len() && list[k] == min);
                if k < min_index {
                    assert(list[k] != list[min_index as int]);
                } else if k > min_index {
                    assert(list[min_index as int] != list[k]);
                }
            }
            lemma_can_address_below(
                self.cache.spec_block_size(),
                (self.index_pages_max - 1) as u64,
                min,
            );
        }
        min
    }

    /// Splits the full child at place `i` of the node `lba`, which is not
    /// full, with a page handed out for the purpose. Returns the record
    /// that went up to the node.
    fn split_full_child(
        &mut self,
        lba: u64,
        parent: u64,
        depth: u64,
        i: usize,
        Ghost(lo): Ghost<int>,
        Ghost(hi): Ghost<int>,
        Ghost(least): Ghost<nat>,
    ) -> (middle: BTreeRecord<K>)
        requires
            old(self).index_wf(),
            depth > 0,
            wf_subtree(old(self).cache@, lba, depth as nat, lo, hi, old(self).degree as nat, least),
            key_count(old(self).cache@[lba]) < 2 * old(self).degree - 1,
            i < old(self).cache@[lba].len(),
            key_count(old(self).cache@[child_at(old(self).cache@[lba], i as int)]) == 2 * old(
                self,
            ).degree - 1,
            old(self).subtree_used(lba, depth as nat),
            old(self).index_budget(1),
        ensures
            final(self).index_wf(),
            final(self).data_device == old(self).data_device,
            final(self).degree == old(self).degree,
            final(self).height == old(self).height,
            final(self).data_pages_max == old(self).data_pages_max,
            final(self).data_pages_free_list == old(self).data_pages_free_list,
            final(self).cache.spec_block_size() == old(self).cache.spec_block_size(),
            old(self).index_pages_max <= final(self).index_pages_max <= old(self).index_pages_max
                + 1,
            forall|x: u64| old(self).is_used(x) ==> final(self).is_used(x),
            wf_subtree(final(self).cache@, lba, depth as nat, lo, hi, final(self).degree as nat, least),
            final(self).subtree_used(lba, depth as nat),
            changed_within(old(self).cache@, final(self).cache@, lba, depth as nat, old(self).used()),
            grown_within(old(self).cache@, final(self).cache@, lba, depth as nat, old(self).used()),
            forall|key: K, data: u64| #[trigger]
                has_entry(final(self).cache@, lba, depth as nat, key, data) == has_entry(
                    old(self).cache@,
                    lba,
                    depth as nat,
                    key,
                    data,
                ),
            final(self).cache@[lba].len() == old(self).cache@[lba].len() + 1,
            key_count(final(self).cache@[lba]) == key_count(old(self).cache@[lba]) + 1,
            final(self).cache@ == after_split(
                old(self).cache@,
                lba,
                i as int,
                taken(old(self).index_pages_free_list@, old(self).index_pages_max as nat).0,
                old(self).degree as nat,
            ),
            final(self).index_pages_free_list@ == taken(
                old(self).index_pages_free_list@,
                old(self).index_pages_max as nat,
            ).1,
            final(self).index_pages_max == taken(
                old(self).index_pages_free_list@,
                old(self).index_pages_max as nat,
            ).2,
            final(self).cache@[lba][i + 1].child_lba == Some(
                taken(old(self).index_pages_free_list@, old(self).index_pages_max as nat).0,
            ),
            middle == final(self).cache@[lba][i as int],
            middle.key != K::sentinel(),
            middle.child_lba == Some(child_at(old(self).cache@[lba], i as int)),
            final(self).cache@[lba][i + 1].child_lba is Some,
            key_count(final(self).cache@[child_at(final(self).cache@[lba], i as int)])
                == old(self).degree - 1,
            key_count(final(self).cache@[child_at(final(self).cache@[lba], i + 1)])
                == old(self).degree - 1,
            child_lo(final(self).cache@[lba], i as int, lo) == child_lo(
                old(self).cache@[lba],
                i as int,
                lo,
            ),
            child_hi(final(self).cache@[lba], i + 1, hi) == child_hi(
                old(self).cache@[lba],
                i as int,
                hi,
            ),
    {
        let ghost before = self.cache@;
        let ghost t = self.degree as nat;
        let ghost h = depth as nat;
        proof {
            self.cache.lemma_wf();
            assert(in_subtree(before, lba, h, lba));
            self.lemma_used_addressable(lba);
            lemma_child_subtree(before, lba, h, i as int);
            lemma_children_differ(before, lba, h, lo, hi, t, least, i as int);
            lemma_child_bounds(before[lba], i as int, lo, hi);
        }
        let records = self.cache.records(lba, parent);
        let child = match records[i].child_lba {
            Some(child) => child,
            None => 0,
        };
        proof {
            assert(before[lba][i as int].child_lba is Some);
            assert(child == child_at(before[lba], i as int));
            assert(in_subtree(before, child, (h - 1) as nat, child));
            assert(in_subtree(before, lba, h, child));
            self.lemma_used_addressable(child);
        }
        let child_records = self.cache.records(child, lba);
        let new_lba = self.get_next_index_lba();
        let ghost handed = *self;
        proof {
            assert(!in_subtree(before, lba, h, new_lba));
            lemma_split(before, lba, h, lo, hi, t, least, i as int, new_lba);
        }
        let mut parent_page = Page { records, dirty: false, lba, parent_lba: parent };
        let mut child_page = Page { records: child_records, dirty: false, lba: child, parent_lba: lba };
        let mut new_page = Page::<BTreeRecord<K>>::empty(new_lba, lba);
        proof {
            assert(is_first_child(parent_page.records@, child_page.lba, i as int));
        }
        let at = Self::split_child(&mut parent_page, &mut child_page, &mut new_page);
        let ghost after = after_split(before, lba, i as int, new_lba, t);
        proof {
            assert(at == i);
            assert((2 * t - 1) / 2 == t - 1);
            assert(new_page.records@ =~= split_right(before[child], t - 1));
            assert(parent_page.records@ == after[lba]);
            assert(after[lba][i + 1] == crate::tree_split::with_child(before[lba][i as int], new_lba));
            assert(child_page.records@ == after[child]);
            assert(new_page.records@ == after[new_lba]);
            let hc = (h - 1) as nat;
            assert(wf_subtree(
                after,
                child_at(after[lba], i as int),
                hc,
                child_lo(after[lba], i as int, lo),
                child_hi(after[lba], i as int, hi),
                t,
                (t - 1) as nat,
            ));
            assert(wf_subtree(
                after,
                child_at(after[lba], i + 1),
                hc,
                child_lo(after[lba], i + 1, lo),
                child_hi(after[lba], i + 1, hi),
                t,
                (t - 1) as nat,
            ));
            lemma_node_storable(after[lba], false, t, self.cache.spec_block_size() as nat);
            lemma_node_storable(after[child], hc == 0, t, self.cache.spec_block_size() as nat);
            lemma_node_storable(after[new_lba], hc == 0, t, self.cache.spec_block_size() as nat);
        }
        let middle = parent_page.records[i];
        self.cache.store(lba, parent, parent_page.records);
        self.cache.store(child, lba, child_page.records);
        self.cache.store(new_lba, lba, new_page.records);
        proof {
            assert(self.cache@ =~= after);
            self.lemma_same_used(&handed);
            assert forall|x: u64| old(self).is_used(x) implies self.is_used(x) by {
                assert(handed.is_used(x));
            }
            assert forall|x: u64| #[trigger] in_subtree(after, lba, h, x) implies self.is_used(
                x,
            ) by {
                if x != new_lba {
                    assert(in_subtree(before, lba, h, x));
                    assert(old(self).is_used(x));
                } else {
                    assert(handed.is_used(x));
                }
            }
            assert forall|x: u64|
                old(self).used().contains(x) && !in_subtree(before, lba, h, x) implies #[trigger] after[x]
                == before[x] by {
                assert(old(self).is_used(x));
            }
            assert forall|x: u64| #[trigger] in_subtree(after, lba, h, x) implies in_subtree(
                before,
                lba,
                h,
                x,
            ) || !old(self).used().contains(x) by {
                if x == new_lba {
                    assert(!old(self).is_used(x));
                }
            }
            crate::tree_split::lemma_split_parent(
                before[lba],
                i as int,
                before[child][t - 1],
                child,
                new_lba,
                lo,
                hi,
            );
        }
        middle
    }

    /// Puts `key` with the data block `data_lba` into the subtree below
    /// `lba`, whose top node is not full, unless the subtree holds the key
    /// already. Returns whether it did.
    #[verifier::rlimit(80)]
    fn insert_nonfull(
        &mut self,
        lba: u64,
        parent: u64,
        depth: u64,
        key: K,
        data_lba: u64,
        Ghost(lo): Ghost<int>,
        Ghost(hi): Ghost<int>,
        Ghost(least): Ghost<nat>,
    ) -> (inserted: bool)
        requires
            old(self).index_wf(),
            wf_subtree(old(self).cache@, lba, depth as nat, lo, hi, old(self).degree as nat, least),
            key_count(old(self).cache@[lba]) < 2 * old(self).degree - 1,
            key != K::sentinel(),
            lo < key.rank() < hi,
            old(self).subtree_used(lba, depth as nat),
            old(self).index_budget(depth as nat),
        ensures
            final(self).index_wf(),
            final(self).data_device == old(self).data_device,
            final(self).degree == old(self).degree,
            final(self).height == old(self).height,
            final(self).data_pages_max == old(self).data_pages_max,
            final(self).data_pages_free_list == old(self).data_pages_free_list,
            final(self).cache.spec_block_size() == old(self).cache.spec_block_size(),
            old(self).index_pages_max <= final(self).index_pages_max <= old(self).index_pages_max
                + depth,
            forall|x: u64| old(self).is_used(x) ==> final(self).is_used(x),
            wf_subtree(final(self).cache@, lba, depth as nat, lo, hi, final(self).degree as nat, least),
            final(self).subtree_used(lba, depth as nat),
            changed_within(old(self).cache@, final(self).cache@, lba, depth as nat, old(self).used()),
            grown_within(old(self).cache@, final(self).cache@, lba, depth as nat, old(self).used()),
            inserted == !(exists|data: u64| has_entry(old(self).cache@, lba, depth as nat, key, data)),
            forall|k: K, data: u64| #[trigger]
                has_entry(final(self).cache@, lba, depth as nat, k, data) == (has_entry(
                    old(self).cache@,
                    lba,
                    depth as nat,
                    k,
                    data,
                ) || (inserted && k == key && data == data_lba)),
            (
                final(self).cache@,
                final(self).index_pages_free_list@,
                final(self).index_pages_max as nat,
            ) == put_below(
                old(self).cache@,
                old(self).index_pages_free_list@,
                old(self).index_pages_max as nat,
                lba,
                depth as nat,
                key,
                data_lba,
                old(self).degree as nat,
            ),
        decreases depth,
    {
        let ghost before = self.cache@;
        let ghost t = self.degree as nat;
        let ghost h = depth as nat;
        proof {
            self.cache.lemma_wf();
            assert(in_subtree(before, lba, h, lba));
            self.lemma_used_addressable(lba);
        }
        let mut records = self.cache.records(lba, parent);
        let i = find_slot(&records, &key);
        let ghost free = self.index_pages_free_list@;
        let ghost count = self.index_pages_max as nat;
        proof {
            lemma_put_here(before, free, count, lba, h, key, data_lba, t, i as int);
        }
        if depth == 0 {
            proof {
                lemma_leaf_lookup(before, lba, lo, hi, t, least, key, i as int);
            }
            if i < records.len() && records[i].key.is_same(&key) {
                proof {
                    assert(has_entry(before, lba, 0, key, records@[i as int].data_lba));
                }
                return false;
            }
            let record = BTreeRecord { child_lba: None, data_lba, key };
            proof {
                lemma_leaf_insert(before, lba, lo, hi, t, least, record, i as int);
                let after = before.insert(lba, before[lba].insert(i as int, record));
                lemma_node_storable(after[lba], true, t, self.cache.spec_block_size() as nat);
                assert forall|data: u64| !has_entry(before, lba, 0, key, data) by {}
            }
            records.insert(i, record);
            self.cache.store(lba, parent, records);
            proof {
                assert forall|x: u64| #[trigger] in_subtree(self.cache@, lba, h, x) implies x
                    == lba by {}
            }
            return true;
        }
        proof {
            lemma_descend(before, lba, h, lo, hi, t, least, key, i as int);
            lemma_child_subtree(before, lba, h, i as int);
            lemma_child_bounds(before[lba], i as int, lo, hi);
            crate::tree::lemma_above(before, lba, h, lo, hi, t, least, i as int);
        }
        if records[i].key.is_same(&key) {
            proof {
                assert(has_entry(before, lba, h, key, records@[i as int].data_lba));
            }
            return false;
        }
        let child = match records[i].child_lba {
            Some(child) => child,
            None => 0,
        };
        proof {
            assert(before[lba][i as int].child_lba is Some);
            assert(child == child_at(before[lba], i as int));
            assert(in_subtree(before, child, (h - 1) as nat, child));
            self.lemma_used_addressable(child);
            assert(wf_subtree(
                before,
                child,
                (h - 1) as nat,
                child_lo(before[lba], i as int, lo),
                child_hi(before[lba], i as int, hi),
                t,
                (t - 1) as nat,
            ));
        }
        let child_records = self.cache.records(child, lba);
        proof {
            self.lemma_degree_small();
            self.lemma_same_used(old(self));
            old(self).lemma_budget(&*self, h, (h - 1) as nat);
            lemma_put_down(before, free, count, lba, h, key, data_lba, t, i as int);
        }
        if count_keys(&child_records) as u64 == 2 * self.degree - 1 {
            let middle = self.split_full_child(
                lba,
                parent,
                depth,
                i,
                Ghost(lo),
                Ghost(hi),
                Ghost(least),
            );
            let ghost split = self.cache@;
            let ghost split_self = *self;
            proof {
                old(self).lemma_budget(&*self, h, 1);
                lemma_beside(before, lba, h, i as int, key, middle.data_lba);
                assert(forall|x: u64| old(self).is_used(x) ==> split_self.is_used(x));
            }
            if middle.key.is_same(&key) {
                proof {
                    assert(node_has(split[lba], key, middle.data_lba));
                    assert(has_entry(split, lba, h, key, middle.data_lba));
                    assert(has_entry(before, lba, h, key, middle.data_lba));
                }
                return false;
            }
            let j: usize = if middle.key.is_below(&key) {
                i + 1
            } else {
                i
            };
            let target = if j == i {
                child
            } else {
                match self.cache.records(lba, parent)[j].child_lba {
                    Some(right) => right,
                    None => 0,
                }
            };
            proof {
                if middle.key.rank() == key.rank() {
                    K::lemma_rank_injective(middle.key, key);
                }
                assert(target == child_at(split[lba], j as int));
                assert(j != i ==> target == taken(free, count).0);
                lemma_child_subtree(split, lba, h, j as int);
                lemma_child_bounds(split[lba], j as int, lo, hi);
                crate::tree::lemma_above(split, lba, h, lo, hi, t, least, j as int);
                assert(wf_subtree(
                    split,
                    target,
                    (h - 1) as nat,
                    child_lo(split[lba], j as int, lo),
                    child_hi(split[lba], j as int, hi),
                    t,
                    (t - 1) as nat,
                ));
                assert(child_lo(split[lba], j as int, lo) < key.rank() < child_hi(
                    split[lba],
                    j as int,
                    hi,
                ));
                assert forall|x: u64| #[trigger]
                    in_subtree(split, target, (h - 1) as nat, x) implies self.is_used(x) by {
                    assert(in_subtree(split, lba, h, x));
                }
            }
            let inserted = self.insert_nonfull(
                target,
                lba,
                depth - 1,
                key,
                data_lba,
                Ghost(child_lo(split[lba], j as int, lo)),
                Ghost(child_hi(split[lba], j as int, hi)),
                Ghost((t - 1) as nat),
            );
            proof {
                let after = self.cache@;
                assert forall|x: u64| old(self).is_used(x) implies self.is_used(x) by {
                    assert(split_self.is_used(x));
                }
                assert(after[lba] == split[lba]) by {
                    assert(split_self.used().contains(lba));
                }
                lemma_child_changed(
                    split,
                    after,
                    lba,
                    h,
                    lo,
                    hi,
                    t,
                    least,
                    j as int,
                    split_self.used(),
                );
                assert forall|k: K, data: u64| #[trigger]
                    has_entry(after, lba, h, k, data) == (has_entry(before, lba, h, k, data) || (
                    inserted && k == key && data == data_lba)) by {
                    lemma_beside(after, lba, h, j as int, k, data);
                    lemma_beside(split, lba, h, j as int, k, data);
                    assert(has_beside(after, lba, h, j as int, k, data) == has_beside(
                        split,
                        lba,
                        h,
                        j as int,
                        k,
                        data,
                    ));
                    assert(has_entry(split, lba, h, k, data) == has_entry(before, lba, h, k, data));
                }
                assert(inserted == !(exists|data: u64| has_entry(before, lba, h, key, data))) by {
                    if exists|data: u64| has_entry(before, lba, h, key, data) {
                        let data = choose|data: u64| has_entry(before, lba, h, key, data);
                        assert(has_entry(split, lba, h, key, data));
                        lemma_descend(split, lba, h, lo, hi, t, least, key, j as int);
                        assert(has_entry(split, target, (h - 1) as nat, key, data));
                    }
                    if !inserted {
                        let hc = (h - 1) as nat;
                        let data = choose|data: u64| has_entry(split, target, hc, key, data);
                        assert(child_has(split, lba, h, j as int, key, data));
                        lemma_beside(split, lba, h, j as int, key, data);
                        assert(has_entry(split, lba, h, key, data));
                        assert(has_entry(before, lba, h, key, data));
                    }
                }
                assert forall|x: u64|
                    old(self).used().contains(x) && !in_subtree(before, lba, h, x) implies #[trigger] after[x]
                    == before[x] by {
                    assert(old(self).is_used(x));
                    assert(split_self.used().contains(x));
                    assert(split[x] == before[x]);
                    if in_subtree(split, lba, h, x) {
                        assert(in_subtree(before, lba, h, x) || !old(self).used().contains(x));
                    }
                }
                assert forall|x: u64| #[trigger] in_subtree(after, lba, h, x) implies in_subtree(
                    before,
                    lba,
                    h,
                    x,
                ) || !old(self).used().contains(x) by {
                    if split_self.used().contains(x) {
                        assert(in_subtree(split, lba, h, x));
                    } else {
                        assert(!old(self).is_used(x));
                    }
                }
                assert forall|x: u64| #[trigger] in_subtree(after, lba, h, x) implies self.is_used(
                    x,
                ) by {
                    if x != lba {
                        if split_self.used().contains(x) {
                        } else {
                            let m = choose|m: int|
                                0 <= m < after[lba].len() && after[lba][m].child_lba is Some
                                    && in_subtree(
                                    after,
                                    #[trigger] child_at(after[lba], m),
                                    (h - 1) as nat,
                                    x,
                                );
                            if m != j {
                                lemma_child_subtree(split, lba, h, m);
                                crate::tree::lemma_siblings_apart(
                                    split,
                                    lba,
                                    h,
                                    lo,
                                    hi,
                                    t,
                                    least,
                                    j as int,
                                    m,
                                    x,
                                );
                                self.lemma_unchanged_sibling(split, lba, h, lo, hi, least, j as int, m, split_self.used(), x);
                            }
                        }
                    }
                }
            }
            return inserted;
        }
        proof {
            old(self).lemma_budget(&*self, h, 1);
        }
        let inserted = self.insert_nonfull(
            child,
            lba,
            depth - 1,
            key,
            data_lba,
            Ghost(child_lo(before[lba], i as int, lo)),
            Ghost(child_hi(before[lba], i as int, hi)),
            Ghost((t - 1) as nat),
        );
        proof {
            let after = self.cache@;
            assert(after[lba] == before[lba]) by {
                assert(old(self).used().contains(lba));
            }
            lemma_child_changed(before, after, lba, h, lo, hi, t, least, i as int, old(self).used());
            assert forall|k: K, data: u64| #[trigger]
                has_entry(after, lba, h, k, data) == (has_entry(before, lba, h, k, data) || (inserted
                    && k == key && data == data_lba)) by {
                lemma_beside(after, lba, h, i as int, k, data);
                lemma_beside(before, lba, h, i as int, k, data);
                assert(has_beside(after, lba, h, i as int, k, data) == has_beside(
                    before,
                    lba,
                    h,
                    i as int,
                    k,
                    data,
                ));
            }
            assert(inserted == !(exists|data: u64| has_entry(before, lba, h, key, data))) by {
                if exists|data: u64| has_entry(before, lba, h, key, data) {
                    let data = choose|data: u64| has_entry(before, lba, h, key, data);
                    assert(has_entry(before, child, (h - 1) as nat, key, data));
                }
                if !inserted {
                    let hc = (h - 1) as nat;
                    let data = choose|data: u64| has_entry(before, child, hc, key, data);
                    assert(has_entry(before, lba, h, key, data));
                }
            }
            assert forall|x: u64| #[trigger] in_subtree(after, lba, h, x) implies self.is_used(
                x,
            ) by {
                if x != lba {
                    let m = choose|m: int|
                        0 <= m < after[lba].len() && after[lba][m].child_lba is Some && in_subtree(
                            after,
                            #[trigger] child_at(after[lba], m),
                            (h - 1) as nat,
                            x,
                        );
                    if m != i {
                        self.lemma_unchanged_sibling(before, lba, h, lo, hi, least, i as int, m, old(self).used(), x);
                        lemma_child_subtree(before, lba, h, m);
                        assert(in_subtree(before, lba, h, x));
                    }
                }
            }
        }
        inserted
    }

    /// A page below a child that was not changed was below it before.
    proof fn lemma_unchanged_sibling(
        &self,
        before: Map<u64, Seq<BTreeRecord<K>>>,
        lba: u64,
        h: nat,
        lo: int,
        hi: int,
        least: nat,
        i: int,
        m: int,
        used: Set<u64>,
        x: u64,
    )
        requires
            self.degree >= 2,
            h > 0,
            wf_subtree(before, lba, h, lo, hi, self.degree as nat, least),
            0 <= i < before[lba].len(),
            0 <= m < before[lba].len(),
            m != i,
            self.cache@[lba] == before[lba],
            changed_within(before, self.cache@, child_at(before[lba], i), (h - 1) as nat, used),
            forall|y: u64| #[trigger] in_subtree(before, lba, h, y) ==> used.contains(y),
            in_subtree(self.cache@, child_at(before[lba], m), (h - 1) as nat, x),
        ensures
            in_subtree(before, child_at(before[lba], m), (h - 1) as nat, x),
    {
        let s = child_at(before[lba], m);
        let t = self.degree as nat;
        assert(before[lba][m].child_lba is Some);
        assert forall|y: u64| #[trigger] in_subtree(before, s, (h - 1) as nat, y) implies self.cache@[y]
            == before[y] by {
            crate::tree::lemma_siblings_apart(before, lba, h, lo, hi, t, least, i, m, y);
            lemma_child_subtree(before, lba, h, m);
            assert(in_subtree(before, lba, h, y));
        }
        crate::tree::lemma_frame(before, self.cache@, s, (h - 1) as nat);
    }

    /// Whether the devices have room for one more key.
    pub fn can_insert(&self) -> (b: bool)
        requires
            self.inv(),
        ensures
            b == self.has_room(),
    {
        proof {
            self.cache.lemma_wf();
            self.data_device.lemma_wf();
        }
        let index_size = self.cache.block_size();
        let data_size = self.data_device.block_size();
        let index_ok = self.height <= u64::MAX - 3 && self.index_pages_max <= u64::MAX - (
        self.height + 3) && address_fits(index_size, self.index_pages_max + self.height + 2);
        let data_ok = self.data_pages_free_list.len() > 0 || (self.data_pages_max < u64::MAX
            && address_fits(data_size, self.data_pages_max));
        index_ok && data_ok
    }

    /// The data block that the next new key gets its payload in. Where no
    /// block has room, a new block is set aside.
    fn get_next_data_lba(&mut self) -> (lba: u64)
        requires
            old(self).data_wf(),
            old(self).data_pages_free_list@.len() > 0 || (old(self).data_pages_max < u64::MAX
                && can_address(old(self).data_device.spec_block_size(), old(self).data_pages_max)),
        ensures
            final(self).data_wf(),
            final(self).cache == old(self).cache,
            final(self).data_device == old(self).data_device,
            final(self).degree == old(self).degree,
            final(self).height == old(self).height,
            final(self).index_pages_max == old(self).index_pages_max,
            final(self).index_pages_free_list == old(self).index_pages_free_list,
            lba == old(self).next_data_lba(),
            final(self).data_pages_free_list@.contains(lba),
            final(self).data_pages_max == if old(self).data_pages_free_list@.len() == 0 {
                (old(self).data_pages_max + 1) as u64
            } else {
                old(self).data_pages_max
            },
            final(self).data_pages_free_list@ == if old(self).data_pages_free_list@.len() == 0 {
                seq![old(self).data_pages_max]
            } else {
                old(self).data_pages_free_list@
            },
    {
        if self.data_pages_free_list.len() == 0 {
            let new_page = self.data_pages_max;
            self.data_pages_max += 1;
            self.data_pages_free_list.push(new_page);
            proof {
                self.data_device.lemma_wf();
                assert(self.data_pages_free_list@[0] == new_page);
                assert(self.data_page(new_page) =~= Seq::<Pair<K, T>>::empty());
                assert((0 + 1) * Pair::<K, T>::width() == Pair::<K, T>::width())
                    by (nonlinear_arith);
                assert forall|x: u64| self.data_page(x) == old(self).data_page(x) by {}
            }
        } else {
            proof {
                assert forall|x: u64| self.data_page(x) == old(self).data_page(x) by {}
            }
        }
        let at = least_index(&self.data_pages_free_list);
        self.data_pages_free_list[at]
    }

    /// Adds the pair of `key` and `record` to data block `lba`, which has
    /// room for it.
    fn insert_record(&mut self, key: K, record: T, lba: u64)
        requires
            old(self).data_wf(),
            old(self).data_pages_free_list@.contains(lba),
            key != K::sentinel(),
        ensures
            final(self).data_wf(),
            final(self).cache == old(self).cache,
            final(self).degree == old(self).degree,
            final(self).height == old(self).height,
            final(self).index_pages_max == old(self).index_pages_max,
            final(self).index_pages_free_list == old(self).index_pages_free_list,
            final(self).data_page(lba) == old(self).data_page(lba).push(Pair { key, value: record }),
            forall|x: u64| x != lba ==> final(self).data_page(x) == old(self).data_page(x),
            final(self).data_pages_max == old(self).data_pages_max,
            final(self).data_device.spec_block_size() == old(self).data_device.spec_block_size(),
            final(self).data_room(lba) ==> final(self).data_pages_free_list@ == old(
                self,
            ).data_pages_free_list@,
            !final(self).data_room(lba) ==> exists|at: int|
                0 <= at < old(self).data_pages_free_list@.len() && #[trigger] old(
                    self,
                ).data_pages_free_list@[at] == lba && final(self).data_pages_free_list@ == old(
                    self,
                ).data_pages_free_list@.remove(at),
    {
        let ghost list = self.data_pages_free_list@;
        let ghost at = choose|at: int| 0 <= at < list.len() && list[at] == lba;
        let ghost blocks = self.data_device@;
        proof {
            self.data_device.lemma_wf();
            Pair::<K, T>::lemma_width_bounds();
            assert(self.data_room(list[at]));
            lemma_can_address_below(
                self.data_device.spec_block_size(),
                (self.data_pages_max - 1) as u64,
                lba,
            );
            if lba < blocks.len() {
                lemma_decoded_storable::<Pair<K, T>>(blocks[lba as int]);
            }
        }
        let mut page = Page::<Pair<K, T>>::new(&mut self.data_device, lba, NO_PARENT);
        let ghost held = page.records@;
        page.records.push(Pair { key, value: record });
        page.dirty = true;
        let block_size = self.data_device.block_size();
        let pair_size = Pair::<K, T>::get_size();
        let count = page.records.len();
        proof {
            assert(held == old(self).data_page(lba));
            assert(storable(page.records@, block_size as nat)) by {
                assert forall|i: int| 0 <= i < page.records@.len() implies #[trigger] page.records@[i]
                    != Pair::<K, T>::sentinel() by {
                    if i < held.len() {
                        assert(held[i] != Pair::<K, T>::sentinel());
                    }
                }
            }
            lemma_block_round_trip::<Pair<K, T>>(page.records@, block_size as nat);
        }
        let flushed = page.flush(&mut self.data_device);
        proof {
            assert(flushed is Ok);
            assert(lba <= blocks.len());
            let image = encode_block::<Pair<K, T>>(page.records@, block_size as nat);
            assert(self.data_device@ =~= blocks_after_write(blocks, lba as int, image));
            assert forall|x: u64| x != lba implies self.data_page(x) == old(self).data_page(x) by {
                if x < blocks.len() {
                    assert(self.data_device@[x as int] == blocks[x as int]);
                }
            }
            assert(self.data_page(lba) == page.records@);
        }
        let full = count as u64 >= block_size / pair_size;
        proof {
            let w = Pair::<K, T>::width();
            if full {
                assert((count + 1) * w > block_size) by (nonlinear_arith)
                    requires
                        count >= block_size / pair_size,
                        pair_size == w,
                        w > 0,
                ;
            } else {
                assert((count + 1) * w <= block_size) by (nonlinear_arith)
                    requires
                        count < block_size / pair_size,
                        pair_size == w,
                        w > 0,
                ;
            }
        }
        if full {
            let mut i: usize = 0;
            while i < self.data_pages_free_list.len() && self.data_pages_free_list[i] != lba
                invariant
                    0 <= i <= self.data_pages_free_list@.len(),
                    self.data_pages_free_list@ == list,
                    forall|j: int| 0 <= j < i ==> list[j] != lba,
                decreases self.data_pages_free_list@.len() - i,
            {
                i += 1;
            }
            proof {
                assert(i == at) by {
                    if i < at {
                    } else if i > at {
                        assert(list[at] != lba);
                    }
                }
            }
            self.data_pages_free_list.remove(i);
            proof {
                let rest = self.data_pages_free_list@;
                assert(rest =~= list.remove(at));
                assert forall|j: int| 0 <= j < rest.len() implies (#[trigger] rest[j])
                    < self.data_pages_max && self.data_room(rest[j]) && rest[j] != lba by {
                    let k = if j < at {
                        j
                    } else {
                        j + 1
                    };
                    assert(rest[j] == list[k]);
                    assert(list[k] != list[at]);
                    assert(old(self).data_room(list[k]));
                }
                assert forall|a: int, b: int| 0 <= a < b < rest.len() implies rest[a] != rest[b] by {
                    let ka = if a < at {
                        a
                    } else {
                        a + 1
                    };
                    let kb = if b < at {
                        b
                    } else {
                        b + 1
                    };
                    assert(list[ka] != list[kb]);
                }
                let len = self.data_device@.len();
                if self.data_pages_max == len + 1 {
                    assert(old(self).data_pages_max == blocks.len() + 1);
                    let k = choose|k: int| 0 <= k < list.len() && list[k] == blocks.len() as u64;
                    assert(list[k] != lba);
                    assert(rest[if k < at {
                        k
                    } else {
                        k - 1
                    }] == list[k]);
                }
            }
        } else {
            proof {
                assert forall|j: int| 0 <= j < list.len() implies self.data_room(
                    #[trigger] list[j],
                ) by {
                    assert(old(self).data_room(list[j]));
                }
                let len = self.data_device@.len();
                if self.data_pages_max == len + 1 {
                    assert(old(self).data_pages_max == blocks.len() + 1);
                }
            }
        }
    }

    /// Puts `key` into the tree, with `record` as its payload in a data
    /// block. A key that the tree holds already stays as it is, with the
    /// payload it has. Nothing is done for the key that is the sentinel,
    /// nor where the devices lack room.
    pub fn insert(&mut self, key: K, record: T) -> (ok: bool)
        requires
            old(self).inv(),
        ensures
            final(self).inv(),
            final(self).spec_degree() == old(self).spec_degree(),
            ok == (key != K::sentinel() && old(self).has_room()),
            !ok ==> final(self).pages() == old(self).pages() && final(self).spec_height() == old(
                self,
            ).spec_height(),
            forall|k: K, data: u64| #[trigger]
                final(self).has(k, data) == (old(self).has(k, data) || (ok && k == key && !old(
                    self,
                ).contains(key) && data == old(self).next_data_lba())),
            forall|x: u64|
                !(ok && !old(self).contains(key) && x == old(self).next_data_lba())
                    ==> #[trigger] final(self).data_page(x) == old(self).data_page(x),
            ok && !old(self).contains(key) ==> final(self).data_page(old(self).next_data_lba())
                == old(self).data_page(old(self).next_data_lba()).push(Pair { key, value: record }),
            ok && !old(self).contains(key) ==> final(self).payload(key) == record,
            forall|k: K| old(self).contains(k) ==> #[trigger] final(self).payload(k) == old(self).payload(k),
            final(self).index_block_size() == old(self).index_block_size(),
            final(self).data_block_size() == old(self).data_block_size(),
            final(self).spec_height() == if ok && key_count(old(self).pages()[0]) == 2 * old(
                self,
            ).spec_degree() - 1 {
                old(self).spec_height() + 1
            } else {
                old(self).spec_height()
            },
            old(self).index_pages() <= final(self).index_pages(),
            final(self).index_pages() <= old(self).index_pages() + if ok {
                old(self).spec_height() + 3
            } else {
                0
            },
            final(self).data_pages() == if ok && old(self).open_data_pages().len() == 0 {
                old(self).data_pages() + 1
            } else {
                old(self).data_pages()
            },
            ok ==> final(self).open_data_pages().len() + 1 >= old(self).open_data_pages().len(),
            !ok ==> final(self).open_data_pages() == old(self).open_data_pages(),
            ok ==> final(self).open_data_pages() == ({
                let given = if old(self).open_data_pages().len() == 0 {
                    seq![old(self).data_pages() as u64]
                } else {
                    old(self).open_data_pages()
                };
                let lba = old(self).next_data_lba();
                if old(self).contains(key) || (final(self).data_page(lba).len() + 1) * Pair::<
                    K,
                    T,
                >::width() <= old(self).data_block_size() {
                    given
                } else {
                    given.remove(given.index_of(lba))
                }
            }),
            ok ==> (
                final(self).pages(),
                final(self).free_index_pages(),
                final(self).index_pages(),
                final(self).spec_height(),
            ) == put(
                old(self).pages(),
                old(self).free_index_pages(),
                old(self).index_pages(),
                old(self).spec_height(),
                key,
                old(self).next_data_lba(),
                old(self).spec_degree(),
            ),
            !ok ==> final(self).free_index_pages() == old(self).free_index_pages(),
    {
        if !key.is_valid() || !self.can_insert() {
            return false;
        }
        let ghost t = self.degree as nat;
        let ghost start = self.cache@;
        proof {
            self.cache.lemma_wf();
            self.lemma_degree_small();
            assert(in_subtree(start, 0, self.height as nat, 0));
            self.lemma_used_addressable(0);
            lemma_valid_below_top(key);
        }
        let root = self.cache.records(0, NO_PARENT);
        if count_keys(&root) as u64 == 2 * self.degree - 1 {
            proof {
                self.lemma_same_used(old(self));
                old(self).lemma_budget(&*self, (self.height + 3) as nat, (self.height + 2) as nat);
            }
            let lba = self.get_next_index_lba();
            let ghost handed = *self;
            proof {
                lemma_root_moved(
                    start,
                    0,
                    self.height as nat,
                    -1,
                    Self::top(),
                    t,
                    Self::root_least(self.height as nat),
                    lba,
                );
                lemma_node_storable(
                    start[0],
                    self.height == 0,
                    t,
                    self.cache.spec_block_size() as nat,
                );
                assert(seq![crate::tree::guard_for::<K>(lba)][0] == crate::tree::guard_for::<K>(
                    lba,
                ));
                assert(1 * BTreeRecord::<K>::width() <= 2 * t * BTreeRecord::<K>::width())
                    by (nonlinear_arith)
                    requires
                        t >= 2,
                ;
            }
            self.cache.store(lba, 0, root);
            let mut top: Vec<BTreeRecord<K>> = Vec::new();
            top.push(BTreeRecord { child_lba: Some(lba), data_lba: 0, key: K::invalid() });
            proof {
                assert(top@ =~= seq![crate::tree::guard_for::<K>(lba)]);
            }
            self.cache.store(0, NO_PARENT, top);
            self.height += 1;
            proof {
                let moved = self.cache@;
                assert(moved =~= start.insert(lba, start[0]).insert(
                    0,
                    seq![crate::tree::guard_for::<K>(lba)],
                ));
                self.lemma_same_used(&handed);
                assert forall|x: u64| #[trigger]
                    in_subtree(moved, 0, self.height as nat, x) implies self.is_used(x) by {
                    if x != lba {
                        assert(in_subtree(start, 0, old(self).height as nat, x));
                        assert(old(self).is_used(x));
                        assert(handed.is_used(x));
                    } else {
                        assert(handed.is_used(x));
                    }
                }
                old(self).lemma_budget(&*self, (old(self).height + 3) as nat, 1);
                let spare = *self;
                spare.lemma_budget(&spare, (old(self).height + 2) as nat, (old(self).height + 1) as nat);
                assert(moved[child_at(moved[0], 0)] == start[0]);
            }
            let middle = self.split_full_child(
                0,
                NO_PARENT,
                self.height,
                0,
                Ghost(-1),
                Ghost(Self::top()),
                Ghost(0),
            );
            proof {
                old(self).lemma_budget(&*self, (old(self).height + 3) as nat, 2);
                assert forall|k: K, data: u64| #[trigger]
                    has_entry(self.cache@, 0, self.height as nat, k, data) == old(self).has(
                        k,
                        data,
                    ) by {
                    assert(has_entry(self.cache@, 0, self.height as nat, k, data) == has_entry(
                        handed.cache@.insert(lba, start[0]).insert(
                            0,
                            seq![crate::tree::guard_for::<K>(lba)],
                        ),
                        0,
                        self.height as nat,
                        k,
                        data,
                    ));
                }
            }
        } else {
            proof {
                self.lemma_same_used(old(self));
                old(self).lemma_budget(&*self, (self.height + 3) as nat, 3);
            }
        }
        let ghost ready = *self;
        proof {
            assert(forall|k: K, data: u64| #[trigger]
                has_entry(ready.cache@, 0, ready.height as nat, k, data) == old(self).has(k, data));
        }
        let data_lba = self.get_next_data_lba();
        let ghost chosen = *self;
        proof {
            self.lemma_same_used(&ready);
        }
        let inserted = self.insert_nonfull(
            0,
            NO_PARENT,
            self.height,
            key,
            data_lba,
            Ghost(-1),
            Ghost(Self::top()),
            Ghost(Self::root_least(self.height as nat)),
        );
        proof {
            assert(inserted == !old(self).contains(key)) by {
                if old(self).contains(key) {
                    let data = choose|data: u64| old(self).has(key, data);
                    assert(has_entry(ready.cache@, 0, ready.height as nat, key, data));
                }
                if !inserted {
                    let hh = ready.height as nat;
                    let data = choose|data: u64| has_entry(ready.cache@, 0, hh, key, data);
                    assert(old(self).has(key, data));
                }
            }
        }
        if inserted {
            self.insert_record(key, record, data_lba);
        }
        proof {
            let given = chosen.data_pages_free_list@;
            if inserted && !self.data_room(data_lba) {
                let at = choose|at: int|
                    0 <= at < given.len() && #[trigger] given[at] == data_lba
                        && self.data_pages_free_list@ == given.remove(at);
                let found = given.index_of(data_lba);
                assert(0 <= found < given.len() && given[found] == data_lba);
                if found < at {
                    assert(given[found] != given[at]);
                } else if found > at {
                    assert(given[at] != given[found]);
                }
            }
        }
        proof {
            assert forall|x: u64| self.data_page(x) == chosen.data_page(x) || (inserted && x
                == data_lba) by {}
            assert forall|x: u64| chosen.data_page(x) == old(self).data_page(x) by {}
            assert forall|k: K, data: u64| #[trigger]
                self.has(k, data) == (old(self).has(k, data) || (inserted && k == key && data
                    == data_lba)) by {}
            if inserted {
                old(self).lemma_data_inserted(&*self, key, data_lba, record);
                let at = old(self).data_page(data_lba).len() as int;
                assert(self.data_page(data_lba)[at] == (Pair { key, value: record }));
                self.lemma_payload(key, data_lba, at);
                assert forall|k: K| old(self).contains(k) implies #[trigger] self.payload(k)
                    == old(self).payload(k) by {
                    let lba = choose|lba: u64| old(self).has(k, lba);
                    let i = choose|i: int|
                        0 <= i < old(self).data_page(lba).len() && (#[trigger] old(self).data_page(
                            lba,
                        )[i]).key == k;
                    assert(self.data_page(lba)[i] == old(self).data_page(lba)[i]);
                    old(self).lemma_payload(k, lba, i);
                    self.lemma_payload(k, lba, i);
                }
            } else {
                old(self).lemma_data_same(&*self);
            }
        }
        true
    }

    /// Gives an index page back: it is no longer in use and will be handed
    /// out again.
    fn free_index_lba(&mut self, lba: u64)
        requires
            old(self).index_wf(),
            old(self).is_used(lba),
            lba != 0,
        ensures
            final(self).index_wf(),
            final(self).cache == old(self).cache,
            final(self).data_device == old(self).data_device,
            final(self).degree == old(self).degree,
            final(self).height == old(self).height,
            final(self).index_pages_max == old(self).index_pages_max,
            final(self).data_pages_max == old(self).data_pages_max,
            final(self).data_pages_free_list == old(self).data_pages_free_list,
            !final(self).is_used(lba),
            forall|x: u64| x != lba ==> final(self).is_used(x) == old(self).is_used(x),
    {
        let ghost list = self.index_pages_free_list@;
        self.index_pages_free_list.push(lba);
        proof {
            let longer = self.index_pages_free_list@;
            assert(longer[list.len() as int] == lba);
            assert forall|i: int, j: int| 0 <= i < j < longer.len() implies longer[i]
                != longer[j] by {
                if j == list.len() {
                    assert(list[i] == longer[i]);
                    assert(list.contains(list[i]));
                }
            }
            assert forall|x: u64| x != lba implies longer.contains(x) == list.contains(x) by {
                if longer.contains(x) {
                    let i = choose|i: int| 0 <= i < longer.len() && longer[i] == x;
                    assert(list[i] == x);
                }
                if list.contains(x) {
                    let i = choose|i: int| 0 <= i < list.len() && list[i] == x;
                    assert(longer[i] == x);
                }
            }
        }
    }

    /// The entry with the greatest key of the subtree below `lba`, whose
    /// top node holds a key.
    fn greatest_below(
        &mut self,
        lba: u64,
        parent: u64,
        depth: u64,
        Ghost(lo): Ghost<int>,
        Ghost(hi): Ghost<int>,
        Ghost(least): Ghost<nat>,
    ) -> (record: BTreeRecord<K>)
        requires
            old(self).index_wf(),
            wf_subtree(old(self).cache@, lba, depth as nat, lo, hi, old(self).degree as nat, least),
            key_count(old(self).cache@[lba]) >= 1,
            old(self).subtree_used(lba, depth as nat),
        ensures
            final(self).index_wf(),
            final(self).cache@ == old(self).cache@,
            final(self).cache.spec_block_size() == old(self).cache.spec_block_size(),
            final(self).data_device == old(self).data_device,
            final(self).degree == old(self).degree,
            final(self).height == old(self).height,
            final(self).index_pages_max == old(self).index_pages_max,
            final(self).index_pages_free_list == old(self).index_pages_free_list,
            final(self).data_pages_max == old(self).data_pages_max,
            final(self).data_pages_free_list == old(self).data_pages_free_list,
            is_greatest(old(self).cache@, lba, depth as nat, record),
            holds_record(old(self).cache@, lba, depth as nat, record),
    {
        proof {
            assert forall|x: u64| #[trigger]
                in_subtree(self.cache@, lba, depth as nat, x) implies can_address(
                self.cache.spec_block_size(),
                x,
            ) by {
                self.lemma_used_addressable(x);
            }
        }
        greatest_in(
            &mut self.cache,
            lba,
            parent,
            depth,
            Ghost(lo),
            Ghost(hi),
            Ghost(self.degree as nat),
            Ghost(least),
        )
    }

    /// The entry with the least key of the subtree below `lba`, whose top
    /// node holds a key.
    fn least_below(
        &mut self,
        lba: u64,
        parent: u64,
        depth: u64,
        Ghost(lo): Ghost<int>,
        Ghost(hi): Ghost<int>,
        Ghost(least): Ghost<nat>,
    ) -> (record: BTreeRecord<K>)
        requires
            old(self).index_wf(),
            wf_subtree(old(self).cache@, lba, depth as nat, lo, hi, old(self).degree as nat, least),
            key_count(old(self).cache@[lba]) >= 1,
            old(self).subtree_used(lba, depth as nat),
        ensures
            final(self).index_wf(),
            final(self).cache@ == old(self).cache@,
            final(self).cache.spec_block_size() == old(self).cache.spec_block_size(),
            final(self).data_device == old(self).data_device,
            final(self).degree == old(self).degree,
            final(self).height == old(self).height,
            final(self).index_pages_max == old(self).index_pages_max,
            final(self).index_pages_free_list == old(self).index_pages_free_list,
            final(self).data_pages_max == old(self).data_pages_max,
            final(self).data_pages_free_list == old(self).data_pages_free_list,
            is_least(old(self).cache@, lba, depth as nat, record),
            holds_record(old(self).cache@, lba, depth as nat, record),
    {
        proof {
            assert forall|x: u64| #[trigger]
                in_subtree(self.cache@, lba, depth as nat, x) implies can_address(
                self.cache.spec_block_size(),
                x,
            ) by {
                self.lemma_used_addressable(x);
            }
        }
        least_in(
            &mut self.cache,
            lba,
            parent,
            depth,
            Ghost(lo),
            Ghost(hi),
            Ghost(self.degree as nat),
            Ghost(least),
        )
    }

    /// Joins the children at places `j` and `j + 1` of the node `lba` with
    /// the key between them, and cuts the joined records anew at key `mid`:
    /// the records before it stay in the left child, the key goes up into
    /// the node, the records behind it go to the right child.
    #[verifier::rlimit(80)]
    fn rebalance(
        &mut self,
        lba: u64,
        parent: u64,
        depth: u64,
        j: usize,
        mid: usize,
        Ghost(lo): Ghost<int>,
        Ghost(hi): Ghost<int>,
        Ghost(least): Ghost<nat>,
    )
        requires
            old(self).index_wf(),
            depth > 0,
            wf_subtree(old(self).cache@, lba, depth as nat, lo, hi, old(self).degree as nat, least),
            j + 1 < old(self).cache@[lba].len(),
            old(self).subtree_used(lba, depth as nat),
            ({
                let records = old(self).cache@[lba];
                let l = child_at(records, j as int);
                let r = child_at(records, j + 1);
                let t = old(self).degree as nat;
                let count = key_count(old(self).cache@[l]) + key_count(old(self).cache@[r]) + 1;
                &&& t - 1 <= mid <= 2 * t - 1
                &&& t - 1 <= count - mid - 1 <= 2 * t - 1
            }),
        ensures
            final(self).index_wf(),
            final(self).cache@ == after_rebalance(old(self).cache@, lba, j as int, mid as int),
            old(self).stepped(&*final(self), lba, depth as nat, depth as nat, lo, hi, least, Set::empty()),
            final(self).cache.spec_block_size() == old(self).cache.spec_block_size(),
            final(self).data_device == old(self).data_device,
            final(self).degree == old(self).degree,
            final(self).height == old(self).height,
            final(self).index_pages_max == old(self).index_pages_max,
            final(self).index_pages_free_list == old(self).index_pages_free_list,
            final(self).data_pages_max == old(self).data_pages_max,
            final(self).data_pages_free_list == old(self).data_pages_free_list,
    {
        let ghost before = self.cache@;
        let ghost t = self.degree as nat;
        let ghost h = depth as nat;
        proof {
            self.cache.lemma_wf();
            assert(in_subtree(before, lba, h, lba));
            self.lemma_used_addressable(lba);
            lemma_child_subtree(before, lba, h, j as int);
            lemma_child_subtree(before, lba, h, j + 1);
            lemma_rebalanced(before, lba, h, lo, hi, t, least, j as int, mid as int);
        }
        let mut records = self.cache.records(lba, parent);
        let count = records.len();
        assert(j + 1 < count);
        let left = match records[j].child_lba {
            Some(child) => child,
            None => 0,
        };
        let right = match records[j + 1].child_lba {
            Some(child) => child,
            None => 0,
        };
        proof {
            assert(before[lba][j as int].child_lba is Some);
            assert(before[lba][j + 1].child_lba is Some);
            assert(in_subtree(before, left, (h - 1) as nat, left));
            assert(in_subtree(before, right, (h - 1) as nat, right));
            self.lemma_used_addressable(left);
            self.lemma_used_addressable(right);
        }
        let left_records = self.cache.records(left, lba);
        let right_records = self.cache.records(right, lba);
        let all = join_records(left_records, records[j], right_records);
        proof {
            crate::tree_merge::lemma_join_len(before[left], before[lba][j as int], before[right]);
        }
        let (new_left, middle, new_right) = cut_records(all, mid);
        let pointer = records[j];
        records[j] = BTreeRecord {
            child_lba: pointer.child_lba,
            data_lba: middle.data_lba,
            key: middle.key,
        };
        let ghost after = after_rebalance(before, lba, j as int, mid as int);
        proof {
            let hc = (h - 1) as nat;
            assert(records@ == after[lba]);
            assert(new_left@ == after[left]);
            assert(new_right@ == after[right]);
            assert(child_at(after[lba], j as int) == left);
            assert(child_at(after[lba], j + 1) == right);
            assert(wf_subtree(
                after,
                child_at(after[lba], j as int),
                hc,
                child_lo(after[lba], j as int, lo),
                child_hi(after[lba], j as int, hi),
                t,
                (t - 1) as nat,
            ));
            assert(wf_subtree(
                after,
                child_at(after[lba], j + 1),
                hc,
                child_lo(after[lba], j + 1, lo),
                child_hi(after[lba], j + 1, hi),
                t,
                (t - 1) as nat,
            ));
            lemma_node_storable(after[lba], false, t, self.cache.spec_block_size() as nat);
            lemma_node_storable(after[left], hc == 0, t, self.cache.spec_block_size() as nat);
            lemma_node_storable(after[right], hc == 0, t, self.cache.spec_block_size() as nat);
        }
        self.cache.store(lba, parent, records);
        self.cache.store(left, lba, new_left);
        self.cache.store(right, lba, new_right);
        proof {
            assert(self.cache@ =~= after);
            self.lemma_same_used(old(self));
            assert(in_subtree(before, lba, h, left));
            assert(in_subtree(before, lba, h, right));
            assert forall|x: u64| #[trigger] in_subtree(after, lba, h, x) implies self.is_used(
                x,
            ) by {
                assert(in_subtree(before, lba, h, x));
                assert(old(self).is_used(x));
            }
            assert forall|x: u64|
                old(self).used().contains(x) && !in_subtree(before, lba, h, x) implies #[trigger] after[x]
                == before[x] by {}
        }
    }

    /// Whether `later` is `self` after a change to the subtree below
    /// `lba`, of height `depth` before and `levels` after: the subtree is
    /// a B-tree still, it holds the entries it held but for those with a
    /// key in `gone`, it is made of pages that it was made of, which are in
    /// use, and the pages in use outside it hold what they held. No page
    /// was handed out; the pages given back were pages of the subtree.
    spec fn stepped(
        &self,
        later: &Self,
        lba: u64,
        depth: nat,
        levels: nat,
        lo: int,
        hi: int,
        least: nat,
        gone: Set<K>,
    ) -> bool {
        &&& later.index_wf()
        &&& later.data_device == self.data_device
        &&& later.degree == self.degree
        &&& later.index_pages_max == self.index_pages_max
        &&& later.data_pages_max == self.data_pages_max
        &&& later.data_pages_free_list == self.data_pages_free_list
        &&& later.cache.spec_block_size() == self.cache.spec_block_size()
        &&& wf_subtree(later.cache@, lba, levels, lo, hi, self.degree as nat, least)
        &&& forall|key: K, data: u64| #[trigger]
            has_entry(later.cache@, lba, levels, key, data) == (has_entry(
                self.cache@,
                lba,
                depth,
                key,
                data,
            ) && !gone.contains(key))
        &&& changed_within(self.cache@, later.cache@, lba, depth, self.used())
        &&& forall|x: u64| #[trigger]
            in_subtree(later.cache@, lba, levels, x) ==> in_subtree(self.cache@, lba, depth, x)
        &&& forall|x: u64| #[trigger] later.is_used(x) ==> self.is_used(x)
        &&& forall|x: u64|
            self.is_used(x) && !#[trigger] later.is_used(x) ==> in_subtree(
                self.cache@,
                lba,
                depth,
                x,
            ) && x != lba
        &&& later.subtree_used(lba, levels)
    }

    /// A change that leaves the top node with a number of keys leaves it
    /// with any smaller number.
    proof fn lemma_stepped_weaker(
        &self,
        later: &Self,
        lba: u64,
        depth: nat,
        levels: nat,
        lo: int,
        hi: int,
        least: nat,
        weaker: nat,
        gone: Set<K>,
    )
        requires
            self.stepped(later, lba, depth, levels, lo, hi, least, gone),
            weaker <= least,
        ensures
            self.stepped(later, lba, depth, levels, lo, hi, weaker, gone),
    {
    }

    /// Two changes to a subtree, one after the other, are one change.
    proof fn lemma_steps(
        &self,
        between: &Self,
        later: &Self,
        lba: u64,
        depth: nat,
        middle: nat,
        levels: nat,
        lo: int,
        hi: int,
        least_between: nat,
        least: nat,
        first: Set<K>,
        second: Set<K>,
    )
        requires
            self.stepped(between, lba, depth, middle, lo, hi, least_between, first),
            between.stepped(later, lba, middle, levels, lo, hi, least, second),
        ensures
            self.stepped(later, lba, depth, levels, lo, hi, least, first.union(second)),
    {
        let a = self.cache@;
        let b = between.cache@;
        let c = later.cache@;
        assert forall|x: u64| self.used().contains(x) && !in_subtree(a, lba, depth, x) implies #[trigger] c[x]
            == a[x] by {
            assert(self.is_used(x));
            assert(b[x] == a[x]);
            if !between.is_used(x) {
                assert(in_subtree(a, lba, depth, x));
            }
            assert(between.used().contains(x));
            if in_subtree(b, lba, middle, x) {
                assert(in_subtree(a, lba, depth, x));
            }
        }
        assert forall|x: u64| self.is_used(x) && !#[trigger] later.is_used(x) implies in_subtree(
            a,
            lba,
            depth,
            x,
        ) && x != lba by {
            if between.is_used(x) {
                assert(in_subtree(b, lba, middle, x));
            }
        }
        assert forall|x: u64| #[trigger] in_subtree(c, lba, levels, x) implies in_subtree(
            a,
            lba,
            depth,
            x,
        ) by {
            assert(in_subtree(b, lba, middle, x));
        }
        assert forall|x: u64| #[trigger] later.is_used(x) implies self.is_used(x) by {
            assert(between.is_used(x));
        }
    }

    /// A change to the subtree below child `i` of a node, which keeps the
    /// bounds of the child, is a change to the subtree below the node, as
    /// long as no key that went is a key of the node or of another child.
    proof fn lemma_step_up(
        &self,
        later: &Self,
        lba: u64,
        depth: nat,
        lo: int,
        hi: int,
        least: nat,
        i: int,
        gone: Set<K>,
    )
        requires
            self.index_wf(),
            depth > 0,
            wf_subtree(self.cache@, lba, depth, lo, hi, self.degree as nat, least),
            self.subtree_used(lba, depth),
            0 <= i < self.cache@[lba].len(),
            self.stepped(
                later,
                child_at(self.cache@[lba], i),
                (depth - 1) as nat,
                (depth - 1) as nat,
                child_lo(self.cache@[lba], i, lo),
                child_hi(self.cache@[lba], i, hi),
                (self.degree - 1) as nat,
                gone,
            ),
            forall|key: K, data: u64|
                gone.contains(key) ==> !#[trigger] has_beside(self.cache@, lba, depth, i, key, data),
        ensures
            self.stepped(later, lba, depth, depth, lo, hi, least, gone),
            later.cache@[lba] == self.cache@[lba],
    {
        let before = self.cache@;
        let after = later.cache@;
        let t = self.degree as nat;
        let hc = (depth - 1) as nat;
        let records = before[lba];
        let c = child_at(records, i);
        assert(records[i].child_lba is Some);
        assert(in_subtree(before, lba, depth, lba));
        lemma_above(before, lba, depth, lo, hi, t, least, i);
        lemma_child_subtree(before, lba, depth, i);
        assert(after[lba] == before[lba]) by {
            assert(self.used().contains(lba));
        }
        assert(grown_within(before, after, c, hc, self.used()));
        assert forall|x: u64| #[trigger] in_subtree(before, lba, depth, x) implies self.used().contains(
            x,
        ) by {
            assert(self.is_used(x));
        }
        lemma_child_changed(before, after, lba, depth, lo, hi, t, least, i, self.used());
        assert forall|key: K, data: u64| #[trigger]
            has_entry(after, lba, depth, key, data) == (has_entry(before, lba, depth, key, data)
                && !gone.contains(key)) by {
            lemma_beside(after, lba, depth, i, key, data);
            lemma_beside(before, lba, depth, i, key, data);
            assert(has_beside(after, lba, depth, i, key, data) == has_beside(
                before,
                lba,
                depth,
                i,
                key,
                data,
            ));
        }
        assert forall|x: u64| #[trigger] in_subtree(after, lba, depth, x) implies in_subtree(
            before,
            lba,
            depth,
            x,
        ) && later.is_used(x) by {
            if x != lba {
                let j = choose|j: int|
                    0 <= j < records.len() && records[j].child_lba is Some && in_subtree(
                        after,
                        #[trigger] child_at(records, j),
                        hc,
                        x,
                    );
                if j != i {
                    assert(crate::tree::same_subtree(before, after, child_at(records, j), hc));
                    assert(in_subtree(before, child_at(records, j), hc, x));
                    lemma_child_subtree(before, lba, depth, j);
                    lemma_siblings_apart(before, lba, depth, lo, hi, t, least, i, j, x);
                    assert(self.is_used(x));
                } else {
                    assert(in_subtree(before, c, hc, x));
                }
            } else {
                assert(self.is_used(x));
            }
        }
        assert forall|x: u64| self.is_used(x) && !#[trigger] later.is_used(x) implies in_subtree(
            before,
            lba,
            depth,
            x,
        ) && x != lba by {
            assert(in_subtree(before, c, hc, x));
        }
    }

    /// Joins the children at places `j` and `j + 1` of the node `lba`,
    /// which hold `2t - 1` keys with the key between them, into the left
    /// one, and gives the page of the right one back. Where that leaves
    /// the root without a key, the records of the joined child become
    /// those of the root, the page of the child is given back too, and the
    /// tree is one level lower. Returns whether it is.
    fn join_children(
        &mut self,
        lba: u64,
        parent: u64,
        depth: u64,
        j: usize,
        is_root: bool,
        Ghost(lo): Ghost<int>,
        Ghost(hi): Ghost<int>,
        Ghost(least): Ghost<nat>,
    ) -> (collapsed: bool)
        requires
            old(self).index_wf(),
            depth > 0,
            wf_subtree(old(self).cache@, lba, depth as nat, lo, hi, old(self).degree as nat, least),
            j + 1 < old(self).cache@[lba].len(),
            old(self).subtree_used(lba, depth as nat),
            key_count(old(self).cache@[child_at(old(self).cache@[lba], j as int)]) + key_count(
                old(self).cache@[child_at(old(self).cache@[lba], j + 1)],
            ) + 1 <= 2 * old(self).degree - 1,
            is_root ==> old(self).height == depth,
            !is_root ==> key_count(old(self).cache@[lba]) >= 2,
            forall|x: u64|
                #[trigger] in_subtree(old(self).cache@, lba, depth as nat, x) && x != lba ==> x
                    != 0,
        ensures
            collapsed == (is_root && key_count(old(self).cache@[lba]) == 1),
            final(self).height == if collapsed {
                (depth - 1) as u64
            } else {
                old(self).height
            },
            old(self).stepped(
                &*final(self),
                lba,
                depth as nat,
                if collapsed {
                    (depth - 1) as nat
                } else {
                    depth as nat
                },
                lo,
                hi,
                if collapsed {
                    (old(self).degree - 1) as nat
                } else {
                    (key_count(old(self).cache@[lba]) - 1) as nat
                },
                Set::empty(),
            ),
            !collapsed ==> final(self).cache@ == after_merge(old(self).cache@, lba, j as int),
            collapsed ==> final(self).cache@ == after_merge(old(self).cache@, lba, j as int).insert(
                lba,
                joined(
                    old(self).cache@[child_at(old(self).cache@[lba], j as int)],
                    old(self).cache@[lba][j as int],
                    old(self).cache@[child_at(old(self).cache@[lba], j + 1)],
                ),
            ).insert(child_at(old(self).cache@[lba], j as int), Seq::empty()),
            !final(self).is_used(child_at(old(self).cache@[lba], j + 1)),
            collapsed ==> !final(self).is_used(child_at(old(self).cache@[lba], j as int)),
            forall|x: u64|
                x != child_at(old(self).cache@[lba], j + 1) && !(collapsed && x == child_at(
                    old(self).cache@[lba],
                    j as int,
                )) ==> final(self).is_used(x) == old(self).is_used(x),
            !collapsed ==> final(self).cache@[lba] == merge_parent(old(self).cache@[lba], j as int),
            !collapsed ==> key_count(
                final(self).cache@[child_at(old(self).cache@[lba], j as int)],
            ) >= old(self).degree,
            collapsed ==> key_count(final(self).cache@[lba]) >= old(self).degree,
    {
        let ghost before = self.cache@;
        let ghost t = self.degree as nat;
        let ghost h = depth as nat;
        proof {
            self.cache.lemma_wf();
            assert(in_subtree(before, lba, h, lba));
            self.lemma_used_addressable(lba);
            lemma_child_subtree(before, lba, h, j as int);
            lemma_child_subtree(before, lba, h, j + 1);
            lemma_merged_pair(before, lba, h, lo, hi, t, least, j as int);
        }
        let mut records = self.cache.records(lba, parent);
        let count = records.len();
        assert(j + 1 < count);
        let left = match records[j].child_lba {
            Some(child) => child,
            None => 0,
        };
        let right = match records[j + 1].child_lba {
            Some(child) => child,
            None => 0,
        };
        proof {
            assert(before[lba][j as int].child_lba is Some);
            assert(before[lba][j + 1].child_lba is Some);
            assert(in_subtree(before, left, (h - 1) as nat, left));
            assert(in_subtree(before, right, (h - 1) as nat, right));
            assert(in_subtree(before, lba, h, left));
            assert(in_subtree(before, lba, h, right));
            self.lemma_used_addressable(left);
            self.lemma_used_addressable(right);
            assert(left == child_at(before[lba], j as int));
            assert(right == child_at(before[lba], j + 1));
            assert(wf_subtree(
                before,
                child_at(before[lba], j as int),
                (h - 1) as nat,
                child_lo(before[lba], j as int, lo),
                child_hi(before[lba], j as int, hi),
                t,
                (t - 1) as nat,
            ));
            assert(wf_subtree(
                before,
                child_at(before[lba], j + 1),
                (h - 1) as nat,
                child_lo(before[lba], j + 1, lo),
                child_hi(before[lba], j + 1, hi),
                t,
                (t - 1) as nat,
            ));
            assert(key_count(before[left]) + key_count(before[right]) + 1 >= t);
        }
        let left_records = self.cache.records(left, lba);
        let right_records = self.cache.records(right, lba);
        let all = join_records(left_records, records[j], right_records);
        let moved = records.remove(j);
        let pointer = records[j];
        records[j] = BTreeRecord {
            child_lba: Some(left),
            data_lba: pointer.data_lba,
            key: pointer.key,
        };
        let ghost merged = after_merge(before, lba, j as int);
        proof {
            let hc = (h - 1) as nat;
            assert(records@ =~= merged[lba]);
            assert(all@ == merged[left]);
            assert(wf_subtree(
                merged,
                child_at(merged[lba], j as int),
                hc,
                child_lo(merged[lba], j as int, lo),
                child_hi(merged[lba], j as int, hi),
                t,
                (t - 1) as nat,
            ));
            lemma_node_storable(merged[lba], false, t, self.cache.spec_block_size() as nat);
            lemma_node_storable(merged[left], hc == 0, t, self.cache.spec_block_size() as nat);
            assert(0 * BTreeRecord::<K>::width() == 0) by (nonlinear_arith);
        }
        let remaining = records.len();
        self.cache.store(lba, parent, records);
        self.cache.store(left, lba, all);
        self.cache.store(right, lba, Vec::new());
        let ghost stored = *self;
        proof {
            assert(self.cache@ =~= merged);
            self.lemma_same_used(old(self));
        }
        self.free_index_lba(right);
        let ghost joined_self = *self;
        proof {
            assert forall|x: u64| #[trigger] in_subtree(merged, lba, h, x) implies self.is_used(
                x,
            ) by {
                assert(in_subtree(before, lba, h, x) && x != right);
                assert(old(self).is_used(x));
                assert(stored.is_used(x));
            }
            assert forall|x: u64|
                old(self).used().contains(x) && !in_subtree(before, lba, h, x) implies #[trigger] merged[x]
                == before[x] by {}
            assert forall|x: u64| #[trigger] self.is_used(x) implies old(self).is_used(x) by {
                assert(stored.is_used(x));
            }
            assert forall|x: u64| old(self).is_used(x) && !#[trigger] self.is_used(x) implies in_subtree(
                before,
                lba,
                h,
                x,
            ) && x != lba by {
                assert(stored.is_used(x));
            }
            assert(old(self).stepped(
                &joined_self,
                lba,
                h,
                h,
                lo,
                hi,
                (key_count(before[lba]) - 1) as nat,
                Set::empty(),
            ));
        }
        if !is_root || remaining != 1 {
            return false;
        }
        proof {
            lemma_collapsed(merged, lba, h, lo, hi, t);
            assert(child_at(merged[lba], 0) == left);
            let hc = (h - 1) as nat;
            lemma_node_storable(merged[left], hc == 0, t, self.cache.spec_block_size() as nat);
        }
        let pulled = self.cache.records(left, lba);
        self.cache.store(lba, parent, pulled);
        self.cache.store(left, lba, Vec::new());
        self.height = self.height - 1;
        let ghost pulled_self = *self;
        proof {
            self.lemma_same_used(&joined_self);
        }
        self.free_index_lba(left);
        proof {
            let after = self.cache@;
            let hc = (h - 1) as nat;
            assert(after =~= merged.insert(lba, merged[left]).insert(left, Seq::empty()));
            assert forall|x: u64| #[trigger] in_subtree(after, lba, hc, x) implies self.is_used(
                x,
            ) by {
                assert(in_subtree(merged, lba, h, x) && x != left);
                assert(joined_self.is_used(x));
                assert(pulled_self.is_used(x));
            }
            assert forall|x: u64|
                joined_self.used().contains(x) && !in_subtree(merged, lba, h, x) implies #[trigger] after[x]
                == merged[x] by {
                assert(in_subtree(merged, lba, h, lba));
                assert(in_subtree(merged, left, hc, left));
                lemma_child_subtree(merged, lba, h, 0);
            }
            assert forall|x: u64| #[trigger] self.is_used(x) implies joined_self.is_used(x) by {
                assert(pulled_self.is_used(x));
            }
            assert forall|x: u64|
                joined_self.is_used(x) && !#[trigger] self.is_used(x) implies in_subtree(
                merged,
                lba,
                h,
                x,
            ) && x != lba by {
                assert(pulled_self.is_used(x));
                assert(in_subtree(merged, left, hc, left));
                lemma_child_subtree(merged, lba, h, 0);
            }
            assert(joined_self.stepped(
                &*self,
                lba,
                h,
                hc,
                lo,
                hi,
                (t - 1) as nat,
                Set::empty(),
            ));
            old(self).lemma_steps(
                &joined_self,
                &*self,
                lba,
                h,
                h,
                hc,
                lo,
                hi,
                (key_count(before[lba]) - 1) as nat,
                (t - 1) as nat,
                Set::empty(),
                Set::empty(),
            );
            assert(Set::<K>::empty().union(Set::empty()) =~= Set::<K>::empty());
        }
        true
    }

    /// The height of a subtree of height `depth` after its node was made
    /// ready for a key to go: one less where the root gave way to its
    /// joined children.
    spec fn levels_after(depth: u64, collapsed: bool) -> nat {
        if collapsed {
            (depth - 1) as nat
        } else {
            depth as nat
        }
    }

    /// The least number of keys that a subtree may be left with when a key
    /// is taken out of it.
    spec fn least_left(&self, is_root: bool, levels: nat) -> nat {
        if is_root {
            Self::root_least(levels)
        } else {
            (self.degree - 1) as nat
        }
    }

    /// The least number of keys that the top node of a subtree must hold
    /// for a key to be taken out of the subtree.
    spec fn least_needed(&self, is_root: bool, depth: nat) -> nat {
        if is_root {
            Self::root_least(depth)
        } else {
            self.degree as nat
        }
    }

    /// Takes `key` out of the subtree below the child at place `at` of the
    /// node `lba`, where the key belongs and which holds keys to spare.
    fn remove_below(
        &mut self,
        key: K,
        lba: u64,
        parent: u64,
        depth: u64,
        at: usize,
        Ghost(lo): Ghost<int>,
        Ghost(hi): Ghost<int>,
        Ghost(least): Ghost<nat>,
    )
        requires
            old(self).index_wf(),
            depth > 0,
            key != K::sentinel(),
            lo < key.rank() < hi,
            wf_subtree(old(self).cache@, lba, depth as nat, lo, hi, old(self).degree as nat, least),
            old(self).subtree_used(lba, depth as nat),
            is_slot(old(self).cache@[lba], key, at as int),
            at < old(self).cache@[lba].len(),
            old(self).cache@[lba][at as int].key != key,
            key_count(old(self).cache@[child_at(old(self).cache@[lba], at as int)]) >= old(
                self,
            ).degree,
            forall|x: u64|
                #[trigger] in_subtree(old(self).cache@, lba, depth as nat, x) && x != lba ==> x
                    != 0,
        ensures
            final(self).height == old(self).height,
            old(self).stepped(
                &*final(self),
                lba,
                depth as nat,
                depth as nat,
                lo,
                hi,
                least,
                set![key],
            ),
        decreases depth, 0nat,
    {
        let ghost before = self.cache@;
        let ghost t = self.degree as nat;
        let ghost h = depth as nat;
        let ghost i = at as int;
        proof {
            self.cache.lemma_wf();
            assert(in_subtree(before, lba, h, lba));
            self.lemma_used_addressable(lba);
            lemma_descend(before, lba, h, lo, hi, t, least, key, i);
            lemma_child_subtree(before, lba, h, i);
            lemma_above(before, lba, h, lo, hi, t, least, i);
        }
        let records = self.cache.records(lba, parent);
        let child = match records[at].child_lba {
            Some(child) => child,
            None => 0,
        };
        let ghost clo = child_lo(before[lba], i, lo);
        let ghost chi = child_hi(before[lba], i, hi);
        proof {
            assert(before[lba][i].child_lba is Some);
            assert(child == child_at(before[lba], i));
            assert(in_subtree(before, child, (h - 1) as nat, child));
            assert(wf_subtree(before, child, (h - 1) as nat, clo, chi, t, (t - 1) as nat));
            assert(wf_subtree(before, child, (h - 1) as nat, clo, chi, t, t));
            self.lemma_same_used(old(self));
            assert forall|x: u64| #[trigger]
                in_subtree(before, child, (h - 1) as nat, x) implies self.is_used(x) && x != 0 by {
                assert(in_subtree(before, lba, h, x));
            }
        }
        let ghost ready = *self;
        let levels = self.remove_internal(key, child, lba, depth - 1, false, Ghost(clo), Ghost(chi));
        proof {
            assert(ready.stepped(
                &*self,
                child,
                (h - 1) as nat,
                (h - 1) as nat,
                clo,
                chi,
                (t - 1) as nat,
                set![key],
            ));
            assert forall|k: K, data: u64| set![key].contains(k) implies !#[trigger] has_beside(
                before,
                lba,
                h,
                i,
                k,
                data,
            ) by {
                if has_beside(before, lba, h, i, key, data) {
                    if node_has(before[lba], key, data) {
                    } else {
                        let j = choose|j: int|
                            j != i && #[trigger] child_has(before, lba, h, j, key, data);
                    }
                }
            }
            ready.lemma_step_up(&*self, lba, h, lo, hi, least, i, set![key]);
            ready.lemma_same_used(old(self));
            ready.lemma_restated(old(self), &*self, lba, h, h, lo, hi, least, set![key]);
        }
    }

    /// A change from a tree is a change from a tree with the same pages,
    /// the same pages in use and the same data.
    proof fn lemma_restated(
        &self,
        same: &Self,
        later: &Self,
        lba: u64,
        depth: nat,
        levels: nat,
        lo: int,
        hi: int,
        least: nat,
        gone: Set<K>,
    )
        requires
            self.stepped(later, lba, depth, levels, lo, hi, least, gone),
            same.cache@ == self.cache@,
            same.cache.spec_block_size() == self.cache.spec_block_size(),
            same.data_device == self.data_device,
            same.degree == self.degree,
            same.index_pages_max == self.index_pages_max,
            same.index_pages_free_list == self.index_pages_free_list,
            same.data_pages_max == self.data_pages_max,
            same.data_pages_free_list == self.data_pages_free_list,
        ensures
            same.stepped(later, lba, depth, levels, lo, hi, least, gone),
    {
        self.lemma_same_used(same);
        assert forall|x: u64| same.is_used(x) && !#[trigger] later.is_used(x) implies in_subtree(
            same.cache@,
            lba,
            depth,
            x,
        ) && x != lba by {
            assert(self.is_used(x));
        }
        assert forall|x: u64| #[trigger] later.is_used(x) implies same.is_used(x) by {
            assert(self.is_used(x));
        }
    }

    /// Takes the key at place `at` of the internal node `lba` out of the
    /// tree: the greatest key below the child before it, or the least
    /// below the child behind it, whichever child holds keys to spare, is
    /// taken out of its subtree and put in its place.
    fn replace_with_neighbour(
        &mut self,
        lba: u64,
        parent: u64,
        depth: u64,
        at: usize,
        from_left: bool,
        Ghost(lo): Ghost<int>,
        Ghost(hi): Ghost<int>,
        Ghost(least): Ghost<nat>,
    )
        requires
            old(self).index_wf(),
            depth > 0,
            wf_subtree(old(self).cache@, lba, depth as nat, lo, hi, old(self).degree as nat, least),
            old(self).subtree_used(lba, depth as nat),
            at + 1 < old(self).cache@[lba].len(),
            key_count(
                old(self).cache@[child_at(
                    old(self).cache@[lba],
                    if from_left {
                        at as int
                    } else {
                        at + 1
                    },
                )],
            ) >= old(self).degree,
            forall|x: u64|
                #[trigger] in_subtree(old(self).cache@, lba, depth as nat, x) && x != lba ==> x
                    != 0,
        ensures
            final(self).height == old(self).height,
            old(self).stepped(
                &*final(self),
                lba,
                depth as nat,
                depth as nat,
                lo,
                hi,
                least,
                set![old(self).cache@[lba][at as int].key],
            ),
        decreases depth, 0nat,
    {
        let ghost before = self.cache@;
        let ghost t = self.degree as nat;
        let ghost h = depth as nat;
        let ghost hc = (depth - 1) as nat;
        let ghost i = at as int;
        let ghost side = if from_left {
            i
        } else {
            i + 1
        };
        proof {
            self.cache.lemma_wf();
            assert(in_subtree(before, lba, h, lba));
            self.lemma_used_addressable(lba);
            lemma_child_subtree(before, lba, h, side);
            lemma_above(before, lba, h, lo, hi, t, least, side);
            lemma_child_bounds(before[lba], i, lo, hi);
            lemma_child_bounds(before[lba], i + 1, lo, hi);
        }
        let records = self.cache.records(lba, parent);
        let count = records.len();
        assert(at + 1 < count);
        let key = records[at].key;
        let child = match records[if from_left { at } else { at + 1 }].child_lba {
            Some(child) => child,
            None => 0,
        };
        let ghost clo = child_lo(before[lba], side, lo);
        let ghost chi = child_hi(before[lba], side, hi);
        proof {
            assert(before[lba][side].child_lba is Some);
            assert(before[lba][i].key != K::sentinel());
            assert(child == child_at(before[lba], side));
            assert(in_subtree(before, child, hc, child));
            assert(wf_subtree(before, child, hc, clo, chi, t, (t - 1) as nat));
            assert(wf_subtree(before, child, hc, clo, chi, t, t));
            self.lemma_same_used(old(self));
            assert forall|x: u64| #[trigger] in_subtree(before, child, hc, x) implies self.is_used(
                x,
            ) && x != 0 by {
                assert(in_subtree(before, lba, h, x));
            }
        }
        let entry = if from_left {
            self.greatest_below(child, lba, depth - 1, Ghost(clo), Ghost(chi), Ghost(t))
        } else {
            self.least_below(child, lba, depth - 1, Ghost(clo), Ghost(chi), Ghost(t))
        };
        let ghost ready = *self;
        proof {
            self.lemma_same_used(old(self));
            lemma_entries_within(before, child, hc, clo, chi, t, t, entry.key, entry.data_lba);
        }
        let levels = self.remove_internal(
            entry.key,
            child,
            lba,
            depth - 1,
            false,
            Ghost(clo),
            Ghost(chi),
        );
        let ghost taken = *self;
        let ghost between = self.cache@;
        let ghost m = entry.key.rank() as int;
        proof {
            assert(ready.stepped(&taken, child, hc, hc, clo, chi, (t - 1) as nat, set![entry.key]));
            assert(is_slot(before[lba], entry.key, side)) by {
                assert forall|j: int| 0 <= j < side implies (#[trigger] before[lba][j]).key.rank()
                    < entry.key.rank() by {
                    if j < side - 1 {
                        assert(before[lba][j].key.rank() < before[lba][side - 1].key.rank());
                    }
                }
                if side < before[lba].len() - 1 {
                } else {
                    lemma_valid_below_top(entry.key);
                }
            }
            lemma_descend(before, lba, h, lo, hi, t, least, entry.key, side);
            assert forall|k: K, data: u64| set![entry.key].contains(k) implies !#[trigger] has_beside(
                before,
                lba,
                h,
                side,
                k,
                data,
            ) by {
                if has_beside(before, lba, h, side, entry.key, data) {
                    if node_has(before[lba], entry.key, data) {
                    } else {
                        let j = choose|j: int|
                            j != side && #[trigger] child_has(before, lba, h, j, entry.key, data);
                    }
                }
            }
            ready.lemma_step_up(&taken, lba, h, lo, hi, least, side, set![entry.key]);
            assert(between[lba] == before[lba]);
            assert forall|k: K, data: u64| #[trigger]
                has_entry(between, child, hc, k, data) implies if from_left {
                k.rank() < m
            } else {
                m < k.rank()
            } by {
                assert(has_entry(before, child, hc, k, data) && k != entry.key);
                if k.rank() == entry.key.rank() {
                    K::lemma_rank_injective(k, entry.key);
                }
            }
            let left = child_at(between[lba], i);
            let right = child_at(between[lba], i + 1);
            let llo = child_lo(between[lba], i, lo);
            let rhi = child_hi(between[lba], i + 1, hi);
            let s = between[lba][i].key.rank() as int;
            assert(wf_subtree(between, left, hc, llo, s, t, (t - 1) as nat));
            assert(wf_subtree(between, right, hc, s, rhi, t, (t - 1) as nat));
            if from_left {
                lemma_tighten_hi(between, left, hc, llo, s, t, (t - 1) as nat, m);
                lemma_widen(between, right, hc, s, rhi, t, (t - 1) as nat, m, rhi);
            } else {
                lemma_tighten_lo(between, right, hc, s, rhi, t, (t - 1) as nat, m);
                lemma_widen(between, left, hc, llo, s, t, (t - 1) as nat, llo, m);
            }
            lemma_replaced(between, lba, h, lo, hi, t, least, i, entry);
            let after = between.insert(lba, between[lba].update(i, with_entry(between[lba][i], entry)));
            lemma_node_storable(after[lba], false, t, self.cache.spec_block_size() as nat);
        }
        let mut changed = self.cache.records(lba, parent);
        let pointer = changed[at];
        changed[at] = BTreeRecord {
            child_lba: pointer.child_lba,
            data_lba: entry.data_lba,
            key: entry.key,
        };
        self.cache.store(lba, parent, changed);
        proof {
            let after = self.cache@;
            assert(after =~= between.insert(
                lba,
                between[lba].update(i, with_entry(between[lba][i], entry)),
            ));
            self.lemma_same_used(&taken);
            assert(has_entry(before, child, hc, entry.key, entry.data_lba));
            assert(has_entry(before, lba, h, entry.key, entry.data_lba)) by {
                assert(child_has(before, lba, h, side, entry.key, entry.data_lba));
                lemma_beside(before, lba, h, side, entry.key, entry.data_lba);
            }
            assert forall|k: K, data: u64| #[trigger]
                has_entry(after, lba, h, k, data) == (has_entry(before, lba, h, k, data)
                    && !set![key].contains(k)) by {
                assert(has_entry(between, lba, h, k, data) == (has_entry(before, lba, h, k, data)
                    && !set![entry.key].contains(k)));
                if has_entry(before, lba, h, k, data) && k == entry.key {
                    lemma_unique_data(
                        before,
                        lba,
                        h,
                        lo,
                        hi,
                        t,
                        least,
                        k,
                        data,
                        entry.data_lba,
                    );
                }
            }
            assert forall|x: u64|
                old(self).used().contains(x) && !in_subtree(before, lba, h, x) implies #[trigger] after[x]
                == before[x] by {
                assert(ready.used().contains(x));
                assert(between[x] == before[x]);
            }
            assert forall|x: u64| #[trigger] in_subtree(after, lba, h, x) implies in_subtree(
                before,
                lba,
                h,
                x,
            ) && self.is_used(x) by {
                assert(in_subtree(between, lba, h, x));
                assert(taken.is_used(x));
            }
            assert forall|x: u64| old(self).is_used(x) && !#[trigger] self.is_used(x) implies in_subtree(
                before,
                lba,
                h,
                x,
            ) && x != lba by {
                assert(ready.is_used(x));
                assert(!taken.is_used(x));
            }
            assert forall|x: u64| #[trigger] self.is_used(x) implies old(self).is_used(x) by {
                assert(taken.is_used(x));
                assert(ready.is_used(x));
            }
        }
    }

    /// How many keys the child at place `at` of the node `lba` holds.
    fn child_key_count(
        &mut self,
        lba: u64,
        parent: u64,
        depth: u64,
        at: usize,
        Ghost(lo): Ghost<int>,
        Ghost(hi): Ghost<int>,
        Ghost(least): Ghost<nat>,
    ) -> (count: usize)
        requires
            old(self).index_wf(),
            depth > 0,
            wf_subtree(old(self).cache@, lba, depth as nat, lo, hi, old(self).degree as nat, least),
            old(self).subtree_used(lba, depth as nat),
            at < old(self).cache@[lba].len(),
        ensures
            final(self).index_wf(),
            final(self).cache@ == old(self).cache@,
            final(self).cache.spec_block_size() == old(self).cache.spec_block_size(),
            final(self).data_device == old(self).data_device,
            final(self).degree == old(self).degree,
            final(self).height == old(self).height,
            final(self).index_pages_max == old(self).index_pages_max,
            final(self).index_pages_free_list == old(self).index_pages_free_list,
            final(self).data_pages_max == old(self).data_pages_max,
            final(self).data_pages_free_list == old(self).data_pages_free_list,
            count == key_count(old(self).cache@[child_at(old(self).cache@[lba], at as int)]),
            old(self).degree - 1 <= count <= 2 * old(self).degree - 1,
    {
        let ghost before = self.cache@;
        let ghost h = depth as nat;
        let ghost t = self.degree as nat;
        proof {
            assert(in_subtree(before, lba, h, lba));
            self.lemma_used_addressable(lba);
            lemma_child_subtree(before, lba, h, at as int);
        }
        let records = self.cache.records(lba, parent);
        let child = match records[at].child_lba {
            Some(child) => child,
            None => 0,
        };
        proof {
            assert(before[lba][at as int].child_lba is Some);
            assert(child == child_at(before[lba], at as int));
            assert(in_subtree(before, child, (h - 1) as nat, child));
            assert(old(self).is_used(child));
            self.lemma_same_used(old(self));
            self.lemma_used_addressable(child);
            assert(wf_subtree(
                before,
                child_at(before[lba], at as int),
                (h - 1) as nat,
                child_lo(before[lba], at as int, lo),
                child_hi(before[lba], at as int, hi),
                t,
                (t - 1) as nat,
            ));
        }
        let child_records = self.cache.records(child, lba);
        count_keys(&child_records)
    }

    /// Takes `key` out of the subtree below `lba`. Before it goes down to
    /// a child that holds the least number of keys, it gives the child a
    /// key of a neighbour that holds keys to spare, or joins the child with
    /// a neighbour. Returns the height that the subtree then has: one less
    /// where the root lost its last key to its two children, else as
    /// before.
    fn remove_internal(
        &mut self,
        key: K,
        lba: u64,
        parent: u64,
        depth: u64,
        is_root: bool,
        Ghost(lo): Ghost<int>,
        Ghost(hi): Ghost<int>,
    ) -> (levels: u64)
        requires
            old(self).index_wf(),
            key != K::sentinel(),
            lo < key.rank() < hi,
            wf_subtree(
                old(self).cache@,
                lba,
                depth as nat,
                lo,
                hi,
                old(self).degree as nat,
                old(self).least_needed(is_root, depth as nat),
            ),
            old(self).subtree_used(lba, depth as nat),
            is_root ==> old(self).height == depth,
            forall|x: u64|
                #[trigger] in_subtree(old(self).cache@, lba, depth as nat, x) && x != lba ==> x
                    != 0,
        ensures
            levels <= depth,
            !is_root ==> levels == depth,
            final(self).height == if is_root {
                levels
            } else {
                old(self).height
            },
            old(self).stepped(
                &*final(self),
                lba,
                depth as nat,
                levels as nat,
                lo,
                hi,
                old(self).least_left(is_root, levels as nat),
                set![key],
            ),
        decreases depth, 3nat,
    {
        let ghost before = self.cache@;
        let ghost t = self.degree as nat;
        let ghost h = depth as nat;
        let ghost least = self.least_needed(is_root, h);
        proof {
            self.cache.lemma_wf();
            assert(in_subtree(before, lba, h, lba));
            self.lemma_used_addressable(lba);
        }
        let mut records = self.cache.records(lba, parent);
        let i = find_slot(&records, &key);
        proof {
            self.lemma_same_used(old(self));
        }
        let ghost ready = *self;
        if depth == 0 {
            proof {
                lemma_leaf_lookup(before, lba, lo, hi, t, least, key, i as int);
            }
            if i < records.len() && records[i].key.is_same(&key) {
                proof {
                    lemma_leaf_remove(before, lba, lo, hi, t, least, i as int);
                    let after = before.insert(lba, before[lba].remove(i as int));
                    lemma_node_storable(after[lba], true, t, self.cache.spec_block_size() as nat);
                }
                records.remove(i);
                self.cache.store(lba, parent, records);
                proof {
                    self.lemma_same_used(old(self));
                    let after = self.cache@;
                    assert(after =~= before.insert(lba, before[lba].remove(i as int)));
                    assert forall|x: u64| #[trigger] in_subtree(after, lba, 0, x) implies x
                        == lba by {}
                    assert forall|k: K, data: u64| #[trigger]
                        has_entry(after, lba, 0, k, data) == (has_entry(before, lba, 0, k, data)
                            && !set![key].contains(k)) by {}
                }
            } else {
                proof {
                    assert forall|k: K, data: u64| #[trigger]
                        has_entry(before, lba, 0, k, data) == (has_entry(before, lba, 0, k, data)
                            && !set![key].contains(k)) by {}
                }
            }
            return 0;
        }
        proof {
            lemma_descend(before, lba, h, lo, hi, t, least, key, i as int);
        }
        let levels = if records[i].key.is_same(&key) {
            self.remove_found(key, lba, parent, depth, i, is_root, Ghost(lo), Ghost(hi))
        } else {
            self.remove_missing(key, lba, parent, depth, i, is_root, Ghost(lo), Ghost(hi))
        };
        proof {
            ready.lemma_restated(
                old(self),
                &*self,
                lba,
                h,
                levels as nat,
                lo,
                hi,
                ready.least_left(is_root, levels as nat),
                set![key],
            );
        }
        levels
    }

    /// Takes `key` out of the subtree below the internal node `lba`, which
    /// holds the key at place `at`.
    fn remove_found(
        &mut self,
        key: K,
        lba: u64,
        parent: u64,
        depth: u64,
        at: usize,
        is_root: bool,
        Ghost(lo): Ghost<int>,
        Ghost(hi): Ghost<int>,
    ) -> (levels: u64)
        requires
            old(self).index_wf(),
            depth > 0,
            key != K::sentinel(),
            lo < key.rank() < hi,
            wf_subtree(
                old(self).cache@,
                lba,
                depth as nat,
                lo,
                hi,
                old(self).degree as nat,
                old(self).least_needed(is_root, depth as nat),
            ),
            old(self).subtree_used(lba, depth as nat),
            is_root ==> old(self).height == depth,
            forall|x: u64|
                #[trigger] in_subtree(old(self).cache@, lba, depth as nat, x) && x != lba ==> x
                    != 0,
            at < old(self).cache@[lba].len(),
            old(self).cache@[lba][at as int].key == key,
        ensures
            levels <= depth,
            !is_root ==> levels == depth,
            final(self).height == if is_root {
                levels
            } else {
                old(self).height
            },
            old(self).stepped(
                &*final(self),
                lba,
                depth as nat,
                levels as nat,
                lo,
                hi,
                old(self).least_left(is_root, levels as nat),
                set![key],
            ),
        decreases depth, 2nat,
    {
        let ghost before = self.cache@;
        let ghost t = self.degree as nat;
        let ghost h = depth as nat;
        let ghost least = self.least_needed(is_root, h);
        let ghost i = at as int;
        proof {
            self.lemma_degree_small();
            assert(before[lba][i].key != K::sentinel());
            assert(i + 1 < before[lba].len());
        }
        let left_count = self.child_key_count(
            lba,
            parent,
            depth,
            at,
            Ghost(lo),
            Ghost(hi),
            Ghost(least),
        );
        proof {
            self.lemma_same_used(old(self));
        }
        let right_count = self.child_key_count(
            lba,
            parent,
            depth,
            at + 1,
            Ghost(lo),
            Ghost(hi),
            Ghost(least),
        );
        let degree = self.degree as usize;
        let ghost ready = *self;
        proof {
            self.lemma_same_used(old(self));
        }
        if left_count >= degree || right_count >= degree {
            self.replace_with_neighbour(
                lba,
                parent,
                depth,
                at,
                left_count >= degree,
                Ghost(lo),
                Ghost(hi),
                Ghost(least),
            );
            proof {
                ready.lemma_restated(old(self), &*self, lba, h, h, lo, hi, least, set![key]);
            }
            return depth;
        }
        let collapsed = self.join_children(
            lba,
            parent,
            depth,
            at,
            is_root,
            Ghost(lo),
            Ghost(hi),
            Ghost(least),
        );
        proof {
            lemma_merged_pair(before, lba, h, lo, hi, t, least, i);
            if !collapsed {
                let made = self.cache@;
                assert(made[lba] == merge_parent(before[lba], i));
                assert(is_slot(made[lba], key, i)) by {
                    assert forall|k: int| 0 <= k < i implies (#[trigger] made[lba][k]).key.rank()
                        < key.rank() by {
                        assert(made[lba][k] == before[lba][k]);
                        assert(before[lba][k].key.rank() < before[lba][i].key.rank());
                    }
                    assert(before[lba][i].key.rank() < before[lba][i + 1].key.rank());
                }
                assert(made[lba][i].key != key) by {
                    assert(before[lba][i].key.rank() < before[lba][i + 1].key.rank());
                }
            }
        }
        self.finish_below(
            key,
            lba,
            parent,
            depth,
            at,
            is_root,
            collapsed,
            Ghost(lo),
            Ghost(hi),
            Ghost(
                if collapsed {
                    (t - 1) as nat
                } else {
                    (key_count(before[lba]) - 1) as nat
                },
            ),
            Ghost(*old(self)),
            Ghost(ready),
        )
    }

    /// Takes `key` out of the subtree below the internal node `lba`, which
    /// does not hold the key itself: the key belongs below the child at
    /// place `at`.
    fn remove_missing(
        &mut self,
        key: K,
        lba: u64,
        parent: u64,
        depth: u64,
        at: usize,
        is_root: bool,
        Ghost(lo): Ghost<int>,
        Ghost(hi): Ghost<int>,
    ) -> (levels: u64)
        requires
            old(self).index_wf(),
            depth > 0,
            key != K::sentinel(),
            lo < key.rank() < hi,
            wf_subtree(
                old(self).cache@,
                lba,
                depth as nat,
                lo,
                hi,
                old(self).degree as nat,
                old(self).least_needed(is_root, depth as nat),
            ),
            old(self).subtree_used(lba, depth as nat),
            is_root ==> old(self).height == depth,
            forall|x: u64|
                #[trigger] in_subtree(old(self).cache@, lba, depth as nat, x) && x != lba ==> x
                    != 0,
            at < old(self).cache@[lba].len(),
            is_slot(old(self).cache@[lba], key, at as int),
            old(self).cache@[lba][at as int].key != key,
        ensures
            levels <= depth,
            !is_root ==> levels == depth,
            final(self).height == if is_root {
                levels
            } else {
                old(self).height
            },
            old(self).stepped(
                &*final(self),
                lba,
                depth as nat,
                levels as nat,
                lo,
                hi,
                old(self).least_left(is_root, levels as nat),
                set![key],
            ),
        decreases depth, 2nat,
    {
        let ghost before = self.cache@;
        let ghost t = self.degree as nat;
        let ghost h = depth as nat;
        let ghost least = self.least_needed(is_root, h);
        let ghost i = at as int;
        proof {
            self.lemma_degree_small();
            self.cache.lemma_wf();
            assert(in_subtree(before, lba, h, lba));
            self.lemma_used_addressable(lba);
        }
        let degree = self.degree as usize;
        let child_count = self.child_key_count(
            lba,
            parent,
            depth,
            at,
            Ghost(lo),
            Ghost(hi),
            Ghost(least),
        );
        proof {
            self.lemma_same_used(old(self));
        }
        if child_count >= degree {
            let ghost ready = *self;
            self.remove_below(key, lba, parent, depth, at, Ghost(lo), Ghost(hi), Ghost(least));
            proof {
                ready.lemma_restated(old(self), &*self, lba, h, h, lo, hi, least, set![key]);
            }
            return depth;
        }
        let ghost ready = *self;
        let prepared = self.prepare_for_remove(
            key,
            lba,
            parent,
            depth,
            at,
            is_root,
            Ghost(lo),
            Ghost(hi),
        );
        self.finish_below(
            key,
            lba,
            parent,
            depth,
            prepared.0,
            is_root,
            prepared.1,
            Ghost(lo),
            Ghost(hi),
            Ghost(ready.least_left(is_root, Self::levels_after(depth, prepared.1))),
            Ghost(*old(self)),
            Ghost(ready),
        )
    }

    /// Makes the node `lba` ready for a key to be taken out below its
    /// child at place `at`, a child that holds the least number of keys:
    /// the child gets a key from the neighbour before it or behind it,
    /// whichever holds keys to spare, or is joined with a neighbour. Returns
    /// the place of the child to go down to, and whether the root gave way
    /// to its joined children.
    #[verifier::rlimit(60)]
    fn prepare_for_remove(
        &mut self,
        key: K,
        lba: u64,
        parent: u64,
        depth: u64,
        at: usize,
        is_root: bool,
        Ghost(lo): Ghost<int>,
        Ghost(hi): Ghost<int>,
    ) -> (prepared: (usize, bool))
        requires
            old(self).index_wf(),
            depth > 0,
            key != K::sentinel(),
            lo < key.rank() < hi,
            wf_subtree(
                old(self).cache@,
                lba,
                depth as nat,
                lo,
                hi,
                old(self).degree as nat,
                old(self).least_needed(is_root, depth as nat),
            ),
            old(self).subtree_used(lba, depth as nat),
            is_root ==> old(self).height == depth,
            forall|x: u64|
                #[trigger] in_subtree(old(self).cache@, lba, depth as nat, x) && x != lba ==> x
                    != 0,
            at < old(self).cache@[lba].len(),
            is_slot(old(self).cache@[lba], key, at as int),
            old(self).cache@[lba][at as int].key != key,
            key_count(old(self).cache@[child_at(old(self).cache@[lba], at as int)]) < old(
                self,
            ).degree,
        ensures
            prepared.1 ==> is_root,
            final(self).height == if prepared.1 {
                (depth - 1) as u64
            } else {
                old(self).height
            },
            old(self).stepped(
                &*final(self),
                lba,
                depth as nat,
                Self::levels_after(depth, prepared.1),
                lo,
                hi,
                old(self).least_left(is_root, Self::levels_after(depth, prepared.1)),
                Set::empty(),
            ),
            prepared.1 ==> key_count(final(self).cache@[lba]) >= old(self).degree,
            !prepared.1 ==> {
                &&& prepared.0 < final(self).cache@[lba].len()
                &&& is_slot(final(self).cache@[lba], key, prepared.0 as int)
                &&& final(self).cache@[lba][prepared.0 as int].key != key
                &&& key_count(
                    final(self).cache@[child_at(final(self).cache@[lba], prepared.0 as int)],
                ) >= old(self).degree
            },
    {
        let ghost before = self.cache@;
        let ghost t = self.degree as nat;
        let ghost h = depth as nat;
        let ghost least = self.least_needed(is_root, h);
        let ghost i = at as int;
        proof {
            self.lemma_degree_small();
            self.cache.lemma_wf();
            assert(in_subtree(before, lba, h, lba));
            self.lemma_used_addressable(lba);
        }
        let count = self.cache.records(lba, parent).len();
        let degree = self.degree as usize;
        proof {
            self.lemma_same_used(old(self));
        }
        let child_count = self.child_key_count(
            lba,
            parent,
            depth,
            at,
            Ghost(lo),
            Ghost(hi),
            Ghost(least),
        );
        proof {
            self.lemma_same_used(old(self));
        }
        let mut left_count: usize = 0;
        if at > 0 {
            left_count = self.child_key_count(
                lba,
                parent,
                depth,
                at - 1,
                Ghost(lo),
                Ghost(hi),
                Ghost(least),
            );
            proof {
                self.lemma_same_used(old(self));
            }
        }
        let mut right_count: usize = 0;
        if at + 1 < count {
            right_count = self.child_key_count(
                lba,
                parent,
                depth,
                at + 1,
                Ghost(lo),
                Ghost(hi),
                Ghost(least),
            );
            proof {
                self.lemma_same_used(old(self));
            }
        }
        if at > 0 && left_count >= degree {
            self.rebalance(
                lba,
                parent,
                depth,
                at - 1,
                left_count - 1,
                Ghost(lo),
                Ghost(hi),
                Ghost(least),
            );
            proof {
                lemma_rebalanced(before, lba, h, lo, hi, t, least, i - 1, left_count - 1);
                let made = self.cache@;
                assert(is_slot(made[lba], key, i)) by {
                    assert forall|k: int| 0 <= k < i implies (#[trigger] made[lba][k]).key.rank()
                        < key.rank() by {
                        if k != i - 1 {
                            assert(made[lba][k] == before[lba][k]);
                        }
                        assert(before[lba][k].key.rank() < key.rank());
                    }
                    assert(made[lba][i] == before[lba][i]);
                }
                assert(child_at(made[lba], i) == child_at(before[lba], i));
            }
            proof {
                old(self).lemma_stepped_weaker(
                    &*self,
                    lba,
                    h,
                    h,
                    lo,
                    hi,
                    least,
                    old(self).least_left(is_root, h),
                    Set::empty(),
                );
            }
            return (at, false);
        }
        if at + 1 < count && right_count >= degree {
            self.rebalance(
                lba,
                parent,
                depth,
                at,
                child_count + 1,
                Ghost(lo),
                Ghost(hi),
                Ghost(least),
            );
            proof {
                lemma_rebalanced(before, lba, h, lo, hi, t, least, i, child_count + 1);
                let made = self.cache@;
                if before[lba][i].key.rank() == key.rank() {
                    K::lemma_rank_injective(before[lba][i].key, key);
                }
                assert(is_slot(made[lba], key, i)) by {
                    assert forall|k: int| 0 <= k < i implies (#[trigger] made[lba][k]).key.rank()
                        < key.rank() by {
                        assert(made[lba][k] == before[lba][k]);
                    }
                }
                assert(child_at(made[lba], i) == child_at(before[lba], i));
            }
            proof {
                old(self).lemma_stepped_weaker(
                    &*self,
                    lba,
                    h,
                    h,
                    lo,
                    hi,
                    least,
                    old(self).least_left(is_root, h),
                    Set::empty(),
                );
            }
            return (at, false);
        }
        let j: usize = if at > 0 {
            at - 1
        } else {
            at
        };
        proof {
            assert(key_count(before[lba]) >= 1);
            assert(j + 1 < count);
        }
        let collapsed = self.join_children(
            lba,
            parent,
            depth,
            j,
            is_root,
            Ghost(lo),
            Ghost(hi),
            Ghost(least),
        );
        proof {
            lemma_merged_pair(before, lba, h, lo, hi, t, least, j as int);
            if !collapsed {
                let made = self.cache@;
                assert(made[lba] == merge_parent(before[lba], j as int));
                if before[lba][i].key.rank() == key.rank() {
                    K::lemma_rank_injective(before[lba][i].key, key);
                }
                assert(is_slot(made[lba], key, j as int)) by {
                    assert forall|k: int| 0 <= k < j implies (#[trigger] made[lba][k]).key.rank()
                        < key.rank() by {
                        assert(made[lba][k] == before[lba][k]);
                        assert(before[lba][k].key.rank() < key.rank());
                    }
                    if j == i {
                        assert(before[lba][i].key.rank() < before[lba][i + 1].key.rank());
                    }
                }
                assert(made[lba][j as int].key != key) by {
                    if j == i {
                        assert(before[lba][i].key.rank() < before[lba][i + 1].key.rank());
                    }
                }
            }
        }
        proof {
            old(self).lemma_stepped_weaker(
                &*self,
                lba,
                h,
                Self::levels_after(depth, collapsed),
                lo,
                hi,
                if collapsed {
                    (t - 1) as nat
                } else {
                    (key_count(before[lba]) - 1) as nat
                },
                old(self).least_left(is_root, Self::levels_after(depth, collapsed)),
                Set::empty(),
            );
        }
        (j, collapsed)
    }

    /// Takes `key` out of the subtree below `lba` after the node was made
    /// ready for it: out of the root, where the tree lost a level, else
    /// out of the subtree below the child at place `at`.
    fn finish_below(
        &mut self,
        key: K,
        lba: u64,
        parent: u64,
        depth: u64,
        at: usize,
        is_root: bool,
        collapsed: bool,
        Ghost(lo): Ghost<int>,
        Ghost(hi): Ghost<int>,
        Ghost(least): Ghost<nat>,
        Ghost(origin): Ghost<Self>,
        Ghost(ready): Ghost<Self>,
    ) -> (levels: u64)
        requires
            depth > 0,
            key != K::sentinel(),
            lo < key.rank() < hi,
            collapsed ==> is_root,
            is_root ==> old(self).height == if collapsed {
                (depth - 1) as u64
            } else {
                depth
            },
            origin.cache@ == ready.cache@,
            origin.cache.spec_block_size() == ready.cache.spec_block_size(),
            origin.data_device == ready.data_device,
            origin.degree == ready.degree,
            origin.index_pages_max == ready.index_pages_max,
            origin.index_pages_free_list == ready.index_pages_free_list,
            origin.data_pages_max == ready.data_pages_max,
            origin.data_pages_free_list == ready.data_pages_free_list,
            forall|x: u64|
                #[trigger] in_subtree(ready.cache@, lba, depth as nat, x) && x != lba ==> x != 0,
            ready.stepped(
                &*old(self),
                lba,
                depth as nat,
                Self::levels_after(depth, collapsed),
                lo,
                hi,
                least,
                Set::empty(),
            ),
            least >= ready.least_left(is_root, Self::levels_after(depth, collapsed)),
            collapsed ==> key_count(old(self).cache@[lba]) >= ready.degree,
            !collapsed ==> {
                &&& at < old(self).cache@[lba].len()
                &&& is_slot(old(self).cache@[lba], key, at as int)
                &&& old(self).cache@[lba][at as int].key != key
                &&& key_count(old(self).cache@[child_at(old(self).cache@[lba], at as int)])
                    >= ready.degree
            },
        ensures
            levels <= depth,
            !is_root ==> levels == depth,
            final(self).height == if is_root {
                levels
            } else {
                old(self).height
            },
            origin.stepped(
                &*final(self),
                lba,
                depth as nat,
                levels as nat,
                lo,
                hi,
                origin.least_left(is_root, levels as nat),
                set![key],
            ),
        decreases depth, 1nat,
    {
        let ghost t = ready.degree as nat;
        let ghost h = depth as nat;
        let ghost mid_levels = Self::levels_after(depth, collapsed);
        let ghost made = *self;
        proof {
            assert forall|x: u64|
                #[trigger] in_subtree(made.cache@, lba, mid_levels, x) && x != lba implies x
                != 0 by {
                assert(in_subtree(ready.cache@, lba, h, x));
            }
        }
        if collapsed {
            proof {
                assert(wf_subtree(
                    made.cache@,
                    lba,
                    mid_levels,
                    lo,
                    hi,
                    t,
                    made.least_needed(true, mid_levels),
                ));
            }
            let levels = self.remove_internal(
                key,
                lba,
                parent,
                depth - 1,
                true,
                Ghost(lo),
                Ghost(hi),
            );
            proof {
                ready.lemma_steps(
                    &made,
                    &*self,
                    lba,
                    h,
                    mid_levels,
                    levels as nat,
                    lo,
                    hi,
                    least,
                    made.least_left(true, levels as nat),
                    Set::empty(),
                    set![key],
                );
                assert(Set::<K>::empty().union(set![key]) =~= set![key]);
                ready.lemma_restated(
                    &origin,
                    &*self,
                    lba,
                    h,
                    levels as nat,
                    lo,
                    hi,
                    made.least_left(true, levels as nat),
                    set![key],
                );
            }
            return levels;
        }
        self.remove_below(key, lba, parent, depth, at, Ghost(lo), Ghost(hi), Ghost(least));
        proof {
            ready.lemma_steps(
                &made,
                &*self,
                lba,
                h,
                h,
                h,
                lo,
                hi,
                least,
                least,
                Set::empty(),
                set![key],
            );
            assert(Set::<K>::empty().union(set![key]) =~= set![key]);
            ready.lemma_restated(&origin, &*self, lba, h, h, lo, hi, least, set![key]);
        }
        depth
    }

    /// The payload that data block `lba` holds for `key`: that of the
    /// first pair with the key, if there is one.
    pub fn get_record(&mut self, key: K, lba: u64) -> (r: Option<T>)
        requires
            old(self).inv(),
        ensures
            final(self).inv(),
            final(self).pages() == old(self).pages(),
            old(self).same_room(&*final(self)),
            final(self).spec_height() == old(self).spec_height(),
            final(self).spec_degree() == old(self).spec_degree(),
            forall|k: K, data: u64| final(self).has(k, data) == old(self).has(k, data),
            forall|x: u64| #[trigger] final(self).data_page(x) == old(self).data_page(x),
            forall|k: K| old(self).contains(k) ==> #[trigger] final(self).payload(k) == old(self).payload(k),
            exists|at: int|
                #[trigger] is_first_with(old(self).data_page(lba), key, at) && r == if at < old(
                    self,
                ).data_page(lba).len() {
                    Some(old(self).data_page(lba)[at].value)
                } else {
                    None
                },
    {
        proof {
            self.data_device.lemma_wf();
        }
        if lba >= self.data_device.block_count() {
            proof {
                assert(is_first_with(self.data_page(lba), key, 0));
            }
            return None;
        }
        let page = Page::<Pair<K, T>>::new(&mut self.data_device, lba, NO_PARENT);
        proof {
            assert forall|x: u64| #[trigger] self.data_page(x) == old(self).data_page(x) by {}
            assert forall|i: int| 0 <= i < self.data_pages_free_list@.len() implies self.data_room(
                #[trigger] self.data_pages_free_list@[i],
            ) by {
                assert(old(self).data_room(self.data_pages_free_list@[i]));
            }
            self.lemma_same_used(old(self));
            old(self).lemma_unchanged(&*self);
        }
        let at = find_pair(&page.records, &key);
        proof {
            assert(page.records@ == old(self).data_page(lba));
            assert(is_first_with(old(self).data_page(lba), key, at as int));
        }
        if at < page.records.len() {
            Some(page.records[at].value)
        } else {
            None
        }
    }

    /// Takes the first pair with `key` out of data block `lba`, which then
    /// has room for a pair.
    fn delete_record(&mut self, key: K, lba: u64)
        requires
            old(self).data_wf(),
        ensures
            final(self).data_wf(),
            final(self).cache == old(self).cache,
            final(self).degree == old(self).degree,
            final(self).height == old(self).height,
            final(self).index_pages_max == old(self).index_pages_max,
            final(self).index_pages_free_list == old(self).index_pages_free_list,
            without_key(old(self).data_page(lba), final(self).data_page(lba), key),
            forall|x: u64| x != lba ==> #[trigger] final(self).data_page(x) == old(self).data_page(x),
            final(self).data_device.spec_block_size() == old(self).data_device.spec_block_size(),
            final(self).data_pages_max == old(self).data_pages_max,
            final(self).data_pages_free_list@.len() >= old(self).data_pages_free_list@.len(),
            final(self).data_pages_free_list@ == if final(self).data_page(lba).len() < old(
                self,
            ).data_page(lba).len() && !old(self).data_pages_free_list@.contains(lba) {
                old(self).data_pages_free_list@.push(lba)
            } else {
                old(self).data_pages_free_list@
            },
    {
        let ghost blocks = self.data_device@;
        let ghost list = self.data_pages_free_list@;
        proof {
            self.data_device.lemma_wf();
            Pair::<K, T>::lemma_width_bounds();
        }
        if lba >= self.data_device.block_count() {
            proof {
                assert(is_first_with(self.data_page(lba), key, 0));
            }
            return ;
        }
        proof {
            lemma_decoded_storable::<Pair<K, T>>(blocks[lba as int]);
            lemma_can_address_below(
                self.data_device.spec_block_size(),
                (self.data_pages_max - 1) as u64,
                lba,
            );
        }
        let mut page = Page::<Pair<K, T>>::new(&mut self.data_device, lba, NO_PARENT);
        let ghost held = page.records@;
        let at = find_pair(&page.records, &key);
        if at >= page.records.len() {
            proof {
                assert forall|x: u64| #[trigger] self.data_page(x) == old(self).data_page(x) by {}
                assert forall|i: int| 0 <= i < list.len() implies self.data_room(
                    #[trigger] list[i],
                ) by {
                    assert(old(self).data_room(list[i]));
                }
            }
            return ;
        }
        page.records.remove(at);
        page.dirty = true;
        let block_size = self.data_device.block_size();
        proof {
            let w = Pair::<K, T>::width();
            assert(page.records@.len() * w <= held.len() * w) by (nonlinear_arith)
                requires
                    page.records@.len() <= held.len(),
            ;
            assert(storable(page.records@, block_size as nat)) by {
                assert forall|i: int| 0 <= i < page.records@.len() implies #[trigger] page.records@[i]
                    != Pair::<K, T>::sentinel() by {
                    if i < at {
                        assert(held[i] != Pair::<K, T>::sentinel());
                    } else {
                        assert(held[i + 1] != Pair::<K, T>::sentinel());
                    }
                }
            }
            lemma_block_round_trip::<Pair<K, T>>(page.records@, block_size as nat);
            assert((page.records@.len() + 1) * w == held.len() * w) by (nonlinear_arith)
                requires
                    page.records@.len() + 1 == held.len(),
            ;
        }
        let flushed = page.flush(&mut self.data_device);
        proof {
            assert(flushed is Ok);
            let image = encode_block::<Pair<K, T>>(page.records@, block_size as nat);
            assert(self.data_device@ =~= blocks_after_write(blocks, lba as int, image));
            assert forall|x: u64| x != lba implies #[trigger] self.data_page(x) == old(
                self,
            ).data_page(x) by {
                if x < blocks.len() {
                    assert(self.data_device@[x as int] == blocks[x as int]);
                }
            }
            assert(self.data_page(lba) == page.records@);
            assert(self.data_room(lba));
        }
        let mut i: usize = 0;
        while i < self.data_pages_free_list.len() && self.data_pages_free_list[i] != lba
            invariant
                0 <= i <= self.data_pages_free_list@.len(),
                self.data_pages_free_list@ == list,
                forall|j: int| 0 <= j < i ==> list[j] != lba,
            decreases self.data_pages_free_list@.len() - i,
        {
            i += 1;
        }
        if i >= self.data_pages_free_list.len() {
            self.data_pages_free_list.push(lba);
        }
        proof {
            let longer = self.data_pages_free_list@;
            assert forall|k: int| 0 <= k < longer.len() implies (#[trigger] longer[k])
                < self.data_pages_max && self.data_room(longer[k]) by {
                if k < list.len() {
                    assert(longer[k] == list[k]);
                    if list[k] != lba {
                        assert(old(self).data_room(list[k]));
                    }
                }
            }
            assert forall|a: int, b: int| 0 <= a < b < longer.len() implies longer[a]
                != longer[b] by {
                if b < list.len() {
                    assert(list[a] != list[b]);
                } else {
                    assert(longer[a] == list[a]);
                }
            }
            let len = self.data_device@.len();
            if self.data_pages_max == len + 1 {
                let k = choose|k: int| 0 <= k < list.len() && list[k] == blocks.len() as u64;
                assert(longer[k] == list[k]);
            }
        }
    }

    /// Takes `key` out of the tree, and its pair out of its data block.
    /// Nothing is done for a key that the tree does not hold.
    pub fn remove(&mut self, key: K)
        requires
            old(self).inv(),
        ensures
            final(self).inv(),
            final(self).spec_degree() == old(self).spec_degree(),
            final(self).spec_height() <= old(self).spec_height(),
            final(self).index_block_size() == old(self).index_block_size(),
            final(self).data_block_size() == old(self).data_block_size(),
            final(self).index_pages() == old(self).index_pages(),
            final(self).data_pages() == old(self).data_pages(),
            final(self).open_data_pages().len() >= old(self).open_data_pages().len(),
            !old(self).contains(key) ==> final(self).open_data_pages() == old(
                self,
            ).open_data_pages(),
            forall|x: u64| #[trigger]
                old(self).has(key, x) ==> final(self).open_data_pages() == (if final(self).data_page(
                    x,
                ).len() < old(self).data_page(x).len() && !old(self).open_data_pages().contains(x) {
                    old(self).open_data_pages().push(x)
                } else {
                    old(self).open_data_pages()
                }),
            forall|k: K, data: u64| #[trigger]
                final(self).has(k, data) == (old(self).has(k, data) && k != key),
            forall|x: u64|
                !old(self).has(key, x) ==> #[trigger] final(self).data_page(x) == old(
                    self,
                ).data_page(x),
            forall|x: u64|
                old(self).has(key, x) ==> without_key(
                    old(self).data_page(x),
                    #[trigger] final(self).data_page(x),
                    key,
                ),
            forall|k: K|
                old(self).contains(k) && k != key ==> #[trigger] final(self).payload(k) == old(
                    self,
                ).payload(k),
    {
        if !key.is_valid() {
            proof {
                assert forall|k: K, data: u64| #[trigger]
                    self.has(k, data) == (old(self).has(k, data) && k != key) by {
                    if self.has(k, data) {
                        lemma_entries_within(
                            self.cache@,
                            0,
                            self.height as nat,
                            -1,
                            Self::top(),
                            self.degree as nat,
                            Self::root_least(self.height as nat),
                            k,
                            data,
                        );
                    }
                }
                assert forall|x: u64| !old(self).has(key, x) by {
                    if old(self).has(key, x) {
                        lemma_entries_within(
                            self.cache@,
                            0,
                            self.height as nat,
                            -1,
                            Self::top(),
                            self.degree as nat,
                            Self::root_least(self.height as nat),
                            key,
                            x,
                        );
                    }
                }
            }
            return ;
        }
        let found = self.search(key);
        let ghost searched = *self;
        match found {
            Some(record) => {
                self.delete_record(key, record.data_lba);
            },
            None => {},
        }
        let ghost cleared = *self;
        proof {
            lemma_valid_below_top(key);
            self.lemma_same_used(&searched);
            assert(forall|x: u64| #[trigger]
                in_subtree(self.cache@, 0, self.height as nat, x) ==> searched.is_used(x));
            assert forall|x: u64| !old(self).has(key, x) implies #[trigger] self.data_page(x)
                == old(self).data_page(x) by {
                assert(searched.data_page(x) == old(self).data_page(x));
            }
            assert forall|x: u64| old(self).has(key, x) implies without_key(
                old(self).data_page(x),
                #[trigger] self.data_page(x),
                key,
            ) by {
                assert(searched.data_page(x) == old(self).data_page(x));
                assert(found is Some);
                lemma_unique_data(
                    old(self).cache@,
                    0,
                    old(self).height as nat,
                    -1,
                    Self::top(),
                    old(self).degree as nat,
                    Self::root_least(old(self).height as nat),
                    key,
                    x,
                    found->Some_0.data_lba,
                );
            }
        }
        let levels = self.remove_internal(
            key,
            0,
            NO_PARENT,
            self.height,
            true,
            Ghost(-1),
            Ghost(Self::top()),
        );
        proof {
            assert forall|x: u64| #[trigger] self.data_page(x) == cleared.data_page(x) by {}
            assert forall|k: K, data: u64| #[trigger]
                self.has(k, data) == (old(self).has(k, data) && k != key) by {
                assert(self.has(k, data) == (has_entry(
                    cleared.cache@,
                    0,
                    cleared.height as nat,
                    k,
                    data,
                ) && !set![key].contains(k)));
                assert(searched.has(k, data) == old(self).has(k, data));
            }
            old(self).lemma_data_removed(&*self, key);
        }
    }

    /// The entry with the least key of the tree, if the tree holds a key.
    pub fn find_min(&mut self) -> (r: Option<BTreeRecord<K>>)
        requires
            old(self).inv(),
        ensures
            final(self).inv(),
            final(self).pages() == old(self).pages(),
            old(self).same_room(&*final(self)),
            final(self).spec_height() == old(self).spec_height(),
            final(self).spec_degree() == old(self).spec_degree(),
            forall|k: K, data: u64| final(self).has(k, data) == old(self).has(k, data),
            forall|x: u64| #[trigger] final(self).data_page(x) == old(self).data_page(x),
            forall|k: K| old(self).contains(k) ==> #[trigger] final(self).payload(k) == old(self).payload(k),
            r is None <==> forall|k: K, data: u64| !old(self).has(k, data),
            r is Some ==> old(self).has(r->Some_0.key, r->Some_0.data_lba) && forall|
                k: K,
                data: u64,
            | #[trigger] old(self).has(k, data) ==> r->Some_0.key.rank() <= k.rank(),
            r is Some ==> holds_record(
                old(self).pages(),
                0,
                old(self).spec_height(),
                r->Some_0,
            ),
    {
        let ghost pages = self.cache@;
        let ghost h = self.height as nat;
        proof {
            assert(in_subtree(pages, 0, h, 0));
            self.lemma_used_addressable(0);
        }
        let root = self.cache.records(0, NO_PARENT);
        proof {
            self.lemma_same_used(old(self));
            old(self).lemma_unchanged(&*self);
        }
        if count_keys(&root) == 0 {
            proof {
                assert forall|k: K, data: u64| !old(self).has(k, data) by {
                    if old(self).has(k, data) {
                        if node_has(pages[0], k, data) {
                            let j = choose|j: int|
                                0 <= j < pages[0].len() && (#[trigger] pages[0][j]).key == k
                                    && pages[0][j].data_lba == data;
                        }
                    }
                }
            }
            return None;
        }
        let record = self.least_below(
            0,
            NO_PARENT,
            self.height,
            Ghost(-1),
            Ghost(Self::top()),
            Ghost(Self::root_least(h)),
        );
        proof {
            self.lemma_same_used(old(self));
            assert(old(self).has(record.key, record.data_lba));
            old(self).lemma_unchanged(&*self);
        }
        Some(record)
    }

    /// The entry with the greatest key of the tree, if the tree holds a
    /// key.
    pub fn find_max(&mut self) -> (r: Option<BTreeRecord<K>>)
        requires
            old(self).inv(),
        ensures
            final(self).inv(),
            final(self).pages() == old(self).pages(),
            old(self).same_room(&*final(self)),
            final(self).spec_height() == old(self).spec_height(),
            final(self).spec_degree() == old(self).spec_degree(),
            forall|k: K, data: u64| final(self).has(k, data) == old(self).has(k, data),
            forall|x: u64| #[trigger] final(self).data_page(x) == old(self).data_page(x),
            forall|k: K| old(self).contains(k) ==> #[trigger] final(self).payload(k) == old(self).payload(k),
            r is None <==> forall|k: K, data: u64| !old(self).has(k, data),
            r is Some ==> old(self).has(r->Some_0.key, r->Some_0.data_lba) && forall|
                k: K,
                data: u64,
            | #[trigger] old(self).has(k, data) ==> k.rank() <= r->Some_0.key.rank(),
            r is Some ==> holds_record(
                old(self).pages(),
                0,
                old(self).spec_height(),
                r->Some_0,
            ),
    {
        let ghost pages = self.cache@;
        let ghost h = self.height as nat;
        proof {
            assert(in_subtree(pages, 0, h, 0));
            self.lemma_used_addressable(0);
        }
        let root = self.cache.records(0, NO_PARENT);
        proof {
            self.lemma_same_used(old(self));
            old(self).lemma_unchanged(&*self);
        }
        if count_keys(&root) == 0 {
            proof {
                assert forall|k: K, data: u64| !old(self).has(k, data) by {
                    if old(self).has(k, data) {
                        if node_has(pages[0], k, data) {
                            let j = choose|j: int|
                                0 <= j < pages[0].len() && (#[trigger] pages[0][j]).key == k
                                    && pages[0][j].data_lba == data;
                        }
                    }
                }
            }
            return None;
        }
        let record = self.greatest_below(
            0,
            NO_PARENT,
            self.height,
            Ghost(-1),
            Ghost(Self::top()),
            Ghost(Self::root_least(h)),
        );
        proof {
            self.lemma_same_used(old(self));
            assert(old(self).has(record.key, record.data_lba));
            old(self).lemma_unchanged(&*self);
        }
        Some(record)
    }

    /// The block size of the index device.
    pub closed spec fn index_block_size(&self) -> u64 {
        self.cache.spec_block_size()
    }

    /// The records of index page `lba`, or nothing where the index device
    /// cannot hold such a page.
    pub fn node(&mut self, lba: u64) -> (r: Option<Vec<BTreeRecord<K>>>)
        requires
            old(self).inv(),
        ensures
            final(self).inv(),
            final(self).pages() == old(self).pages(),
            old(self).same_room(&*final(self)),
            final(self).spec_height() == old(self).spec_height(),
            final(self).spec_degree() == old(self).spec_degree(),
            final(self).index_block_size() == old(self).index_block_size(),
            forall|k: K, data: u64| final(self).has(k, data) == old(self).has(k, data),
            forall|x: u64| #[trigger] final(self).data_page(x) == old(self).data_page(x),
            forall|k: K| old(self).contains(k) ==> #[trigger] final(self).payload(k) == old(self).payload(k),
            r is Some <==> can_address(old(self).index_block_size(), lba),
            r is Some ==> r->Some_0@ == old(self).pages()[lba],
    {
        proof {
            self.cache.lemma_wf();
        }
        if !address_fits(self.cache.block_size(), lba) {
            return None;
        }
        let records = self.cache.records(lba, NO_PARENT);
        proof {
            self.lemma_same_used(old(self));
            assert forall|x: u64| #[trigger] self.data_page(x) == old(self).data_page(x) by {}
            assert forall|i: int| 0 <= i < self.data_pages_free_list@.len() implies self.data_room(
                #[trigger] self.data_pages_free_list@[i],
            ) by {
                assert(old(self).data_room(self.data_pages_free_list@[i]));
            }
            old(self).lemma_unchanged(&*self);
        }
        Some(records)
    }

    /// Writes every changed page of the index to its device, and hands
    /// the index device and the data device back.
    pub fn close(self) -> (devices: (BlockDevice, BlockDevice))
        requires
            self.inv(),
        ensures
            devices.0.wf(),
            devices.1.wf(),
            devices.0.spec_block_size() == self.index_block_size(),
            forall|lba: u64|
                #[trigger] self.pages()[lba] == if lba < devices.0@.len() {
                    decode_block::<BTreeRecord<K>>(devices.0@[lba as int])
                } else {
                    Seq::empty()
                },
            forall|lba: u64|
                #[trigger] self.data_page(lba) == if lba < devices.1@.len() {
                    decode_block::<Pair<K, T>>(devices.1@[lba as int])
                } else {
                    Seq::empty()
                },
    {
        let mut tree = self;
        tree.cache.flush();
        (tree.cache.into_device(), tree.data_device)
    }

    /// The reads and writes that the index device and the data device
    /// have counted, in this order.
    pub closed spec fn counters(&self) -> (u64, u64, u64, u64) {
        (
            self.cache.spec_reads(),
            self.cache.spec_writes(),
            self.data_device.spec_reads(),
            self.data_device.spec_writes(),
        )
    }

    /// The sizes in bytes of the index device and the data device. Index
    /// pages that were changed and not yet written are not counted.
    pub closed spec fn sizes(&self) -> (int, int) {
        (
            self.cache.stored().len() * self.cache.spec_block_size(),
            self.data_device@.len() * self.data_device.spec_block_size(),
        )
    }

    /// How many reads the index device has counted.
    pub fn index_reads(&self) -> (n: u64)
        ensures
            n == self.counters().0,
    {
        self.cache.reads()
    }

    /// How many writes the index device has counted.
    pub fn index_writes(&self) -> (n: u64)
        ensures
            n == self.counters().1,
    {
        self.cache.writes()
    }

    /// How many reads the data device has counted.
    pub fn data_reads(&self) -> (n: u64)
        ensures
            n == self.counters().2,
    {
        self.data_device.reads()
    }

    /// How many writes the data device has counted.
    pub fn data_writes(&self) -> (n: u64)
        ensures
            n == self.counters().3,
    {
        self.data_device.writes()
    }

    /// The size of the index device in bytes.
    pub fn index_size(&self) -> (n: u64)
        requires
            self.inv(),
        ensures
            n == self.sizes().0,
    {
        self.cache.size()
    }

    /// The size of the data device in bytes.
    pub fn data_size(&self) -> (n: u64)
        requires
            self.inv(),
        ensures
            n == self.sizes().1,
    {
        self.data_device.size()
    }

    /// The keys of the tree, from left to right.
    pub closed spec fn keys(&self) -> Seq<K> {
        keys_in_order(self.cache@, 0, self.height as nat)
    }

    /// Whether index page `lba` is a page of the tree.
    pub closed spec fn reachable(&self, lba: u64) -> bool {
        in_subtree(self.cache@, 0, self.height as nat, lba)
    }

    /// Every page of the tree holds no more than `2t - 1` keys, and every
    /// page but the root holds `t - 1` keys at the least.
    pub proof fn lemma_key_counts(&self, lba: u64)
        requires
            self.inv(),
            self.reachable(lba),
        ensures
            key_count(self.pages()[lba]) <= 2 * self.spec_degree() - 1,
            lba != 0 ==> self.spec_degree() - 1 <= key_count(self.pages()[lba]),
    {
        lemma_member_counts(
            self.cache@,
            0,
            self.height as nat,
            -1,
            Self::top(),
            self.degree as nat,
            Self::root_least(self.height as nat),
            lba,
        );
    }

    /// The keys of the tree, read from left to right, grow from one to the
    /// next, and they are the keys that the tree holds.
    pub proof fn lemma_keys_grow(&self)
        requires
            self.inv(),
        ensures
            increasing(self.keys()),
            forall|key: K| #[trigger] self.keys().contains(key) == self.contains(key),
    {
        lemma_keys_in_order(
            self.cache@,
            0,
            self.height as nat,
            -1,
            Self::top(),
            self.degree as nat,
            Self::root_least(self.height as nat),
        );
        assert forall|key: K| #[trigger] self.keys().contains(key) == self.contains(key) by {
            lemma_keys_upto_held(self.cache@, 0, self.height as nat, self.cache@[0].len(), key);
            let h = self.height as nat;
            if self.contains(key) {
                let data = choose|data: u64| self.has(key, data);
                assert(has_entry(self.cache@, 0, h, key, data));
            }
            if holds_key(self.cache@, 0, h, key) {
                let data = choose|data: u64| has_entry(self.cache@, 0, h, key, data);
                assert(self.has(key, data));
            }
        }
    }

    /// A tree that holds a key is no higher than its keys allow: with `n`
    /// keys, `h` levels below the root and minimum degree `t`,
    /// `2 * t^h <= n + 1`.
    pub proof fn lemma_depth(&self)
        requires
            self.inv(),
            self.keys().len() >= 1,
        ensures
            2 * power(self.spec_degree(), self.spec_height()) <= self.keys().len() + 1,
    {
        let pages = self.cache@;
        let h = self.height as nat;
        let t = self.degree as nat;
        if h == 0 {
            lemma_keys_upto_count(
                pages,
                0,
                h,
                -1,
                Self::top(),
                t,
                Self::root_least(h),
                pages[0].len(),
            );
            assert(pages[0][pages[0].len() - 1].child_lba is None);
            assert(pages[0].last().key != K::sentinel());
        }
        lemma_height_bound(pages, 0, h, -1, Self::top(), t, Self::root_least(h));
    }

    /// The payload of `key`, if the tree holds the key.
    pub fn get(&mut self, key: K) -> (r: Option<T>)
        requires
            old(self).inv(),
        ensures
            final(self).inv(),
            final(self).pages() == old(self).pages(),
            old(self).same_room(&*final(self)),
            final(self).spec_height() == old(self).spec_height(),
            final(self).spec_degree() == old(self).spec_degree(),
            forall|k: K, data: u64| final(self).has(k, data) == old(self).has(k, data),
            forall|x: u64| #[trigger] final(self).data_page(x) == old(self).data_page(x),
            forall|k: K| old(self).contains(k) ==> #[trigger] final(self).payload(k) == old(self).payload(k),
            r == if old(self).contains(key) {
                Some(old(self).payload(key))
            } else {
                None::<T>
            },
    {
        let found = self.search(key);
        let ghost searched = *self;
        match found {
            Some(record) => {
                let r = self.get_record(key, record.data_lba);
                proof {
                    let lba = record.data_lba;
                    let page = old(self).data_page(lba);
                    assert(searched.data_page(lba) == page);
                    let at = choose|at: int|
                        #[trigger] is_first_with(page, key, at) && r == if at < page.len() {
                            Some(page[at].value)
                        } else {
                            None
                        };
                    assert(old(self).has(key, lba));
                    let i = choose|i: int| 0 <= i < page.len() && (#[trigger] page[i]).key == key;
                    assert(at <= i);
                    old(self).lemma_payload(key, lba, at);
                    assert forall|k: K| old(self).contains(k) implies #[trigger] self.payload(k)
                        == old(self).payload(k) by {
                        assert(searched.contains(k)) by {
                            let data = choose|data: u64| old(self).has(k, data);
                            assert(searched.has(k, data));
                        }
                        assert(searched.payload(k) == old(self).payload(k));
                    }
                }
                r
            },
            None => None,
        }
    }

    /// The parent that index page `lba` is known to have: the page through
    /// which it was last reached, as long as the page is held in memory
    /// and that page has held a pointer to it.
    pub closed spec fn known_parent(&self, lba: u64) -> Option<u64> {
        if self.cache.is_cached(lba) && self.cache.parent_of(lba) != NO_PARENT {
            Some(self.cache.parent_of(lba))
        } else {
            None
        }
    }

    /// A page that is known to have a parent is a page that a record of
    /// that parent points to.
    pub proof fn lemma_parent_points(&self, lba: u64)
        requires
            self.inv(),
            self.known_parent(lba) is Some,
        ensures
            points_to(self.pages()[self.known_parent(lba)->Some_0], lba),
    {
        self.cache.lemma_wf();
    }

    /// The parent that index page `lba` is known to have, if any.
    pub fn parent_of(&self, lba: u64) -> (r: Option<u64>)
        requires
            self.inv(),
        ensures
            r == self.known_parent(lba),
    {
        self.cache.parent(lba)
    }
}

} // verus!
