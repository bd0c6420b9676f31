//! Joining two neighbouring nodes around the key between them, cutting the
//! joined records anew, and the other changes that taking a key out of a
//! B-tree is made of.

use vstd::prelude::*;
use crate::btree_key::BTreeKey;
use crate::btree_record::BTreeRecord;
use crate::tree::{
    child_at, child_hi, child_lo, guard_for, has_entry, has_in, in_subtree, internal_shape,
    key_count, keys_within, leaf_shape, lemma_above, lemma_child_bounds, lemma_child_subtree,
    lemma_entries_within, lemma_frame, lemma_node_frame, lemma_node_view,
    lemma_siblings_apart, lemma_valid_below_top, node_has, node_ok, reach_in, same_subtree,
    strictly_sorted, wf_subtree,
};
use crate::tree_split::{split_left, split_right, with_child};

verus! {

/// `record` with the key and the data block of `entry`.
pub open spec fn with_entry<K: BTreeKey>(record: BTreeRecord<K>, entry: BTreeRecord<K>) -> BTreeRecord<
    K,
> {
    BTreeRecord { child_lba: record.child_lba, data_lba: entry.data_lba, key: entry.key }
}

/// The records of two neighbouring nodes as one node, with the key that
/// stood between them in the parent: in a leaf the key stands between the
/// two, in an internal node it takes the place of the left node's guard.
pub open spec fn joined<K: BTreeKey>(
    left: Seq<BTreeRecord<K>>,
    middle: BTreeRecord<K>,
    right: Seq<BTreeRecord<K>>,
) -> Seq<BTreeRecord<K>> {
    if left.len() > 0 && left.last().key == K::sentinel() {
        left.drop_last().push(with_entry(left.last(), middle)) + right
    } else {
        left.push(BTreeRecord { child_lba: None, data_lba: middle.data_lba, key: middle.key })
            + right
    }
}

/// Where the records of two joined nodes come from: the keys of the left
/// node, then the key between the two, then the records of the right node.
pub proof fn lemma_join_places<K: BTreeKey>(
    pages: Map<u64, Seq<BTreeRecord<K>>>,
    left: Seq<BTreeRecord<K>>,
    middle: BTreeRecord<K>,
    right: Seq<BTreeRecord<K>>,
    h: nat,
    lo: int,
    hi: int,
    t: nat,
)
    requires
        middle.key != K::sentinel(),
        lo < middle.key.rank() < hi,
        node_ok(pages, left, h, lo, middle.key.rank() as int, t),
        node_ok(pages, right, h, middle.key.rank() as int, hi, t),
    ensures
        ({
            let all = joined(left, middle, right);
            &&& all.len() == key_count(left) + 1 + right.len()
            &&& key_count(all) == key_count(left) + key_count(right) + 1
            &&& forall|j: int| 0 <= j < key_count(left) ==> #[trigger] all[j] == left[j]
            &&& all[key_count(left) as int].key == middle.key
            &&& all[key_count(left) as int].data_lba == middle.data_lba
            &&& h > 0 ==> all[key_count(left) as int].child_lba == left[key_count(left) as int].child_lba
            &&& h == 0 ==> all[key_count(left) as int].child_lba is None
            &&& forall|j: int|
                0 <= j < right.len() ==> #[trigger] all[key_count(left) + 1 + j] == right[j]
            &&& h > 0 ==> left.len() == key_count(left) + 1 && right.len() >= 1
            &&& h == 0 ==> left.len() == key_count(left) && key_count(right) == right.len()
        }),
{
    let all = joined(left, middle, right);
    let m = middle.key.rank() as int;
    let n = key_count(left) as int;
    lemma_valid_below_top(middle.key);
    if h == 0 {
        if left.len() > 0 {
            assert(left[left.len() - 1].child_lba is None);
            assert(left.last().key != K::sentinel());
        }
        if right.len() > 0 {
            assert(right[right.len() - 1].child_lba is None);
        }
        let mid = BTreeRecord::<K> { child_lba: None, data_lba: middle.data_lba, key: middle.key };
        assert(all == left.push(mid) + right);
        assert(n == left.len());
        assert(forall|j: int| 0 <= j < n ==> all[j] == left[j]);
        assert(all[n] == mid);
        assert(forall|j: int| 0 <= j < right.len() ==> all[n + 1 + j] == right[j]);
        assert(all.len() == n + 1 + right.len());
        assert(all.last().key != K::sentinel()) by {
            if right.len() > 0 {
                assert(all.last() == right[right.len() - 1]);
            }
        }
    } else {
        assert(left.len() >= 1 && left.last().key == K::sentinel());
        assert(right.len() >= 1);
        let mid = with_entry(left.last(), middle);
        assert(all == left.drop_last().push(mid) + right);
        assert(n == left.len() - 1);
        assert(forall|j: int| 0 <= j < n ==> all[j] == left[j]);
        assert(all[n] == mid);
        assert(forall|j: int| 0 <= j < right.len() ==> all[n + 1 + j] == right[j]);
        assert(all.len() == n + 1 + right.len());
        assert(all.last() == right.last());
        assert(left[n].child_lba is Some);
    }
}

/// Two neighbouring nodes joined around the key between them make a node.
pub proof fn lemma_join_shape<K: BTreeKey>(
    pages: Map<u64, Seq<BTreeRecord<K>>>,
    left: Seq<BTreeRecord<K>>,
    middle: BTreeRecord<K>,
    right: Seq<BTreeRecord<K>>,
    h: nat,
    lo: int,
    hi: int,
    t: nat,
)
    requires
        middle.key != K::sentinel(),
        lo < middle.key.rank() < hi,
        node_ok(pages, left, h, lo, middle.key.rank() as int, t),
        node_ok(pages, right, h, middle.key.rank() as int, hi, t),
    ensures
        node_ok(pages, joined(left, middle, right), h, lo, hi, t),
{
    let all = joined(left, middle, right);
    let m = middle.key.rank() as int;
    let n = key_count(left) as int;
    lemma_valid_below_top(middle.key);
    lemma_join_places(pages, left, middle, right, h, lo, hi, t);
    assert(strictly_sorted(all)) by {
        assert forall|a: int, b: int| 0 <= a < b < all.len() implies (#[trigger] all[a]).key.rank()
            < (#[trigger] all[b]).key.rank() by {
            if b < n {
                assert(left[a].key.rank() < left[b].key.rank());
            } else if b == n {
                assert(left[a].key != K::sentinel());
            } else if a < n {
                assert(left[a].key != K::sentinel());
                let rb = right[b - n - 1];
                if rb.key != K::sentinel() {
                } else {
                    lemma_valid_below_top(left[a].key);
                }
            } else if a == n {
                let rb = right[b - n - 1];
                if rb.key != K::sentinel() {
                }
            } else {
                assert(right[a - n - 1].key.rank() < right[b - n - 1].key.rank());
            }
        }
    }
    assert(keys_within(all, lo, hi)) by {
        assert forall|j: int|
            0 <= j < all.len() && (#[trigger] all[j]).key != K::sentinel() implies lo
            < all[j].key.rank() < hi by {
            if j < n {
                assert(left[j].key != K::sentinel());
            } else if j > n {
                assert(right[j - n - 1].key != K::sentinel());
            }
        }
    }
    if h == 0 {
        assert(leaf_shape(all)) by {
            assert forall|j: int| 0 <= j < all.len() implies (#[trigger] all[j]).child_lba is None
                && all[j].key != K::sentinel() by {
                if j < n {
                    assert(left[j].child_lba is None);
                } else if j > n {
                    assert(right[j - n - 1].child_lba is None);
                }
            }
        }
    } else {
        let hc = (h - 1) as nat;
        assert(internal_shape(all)) by {
            assert forall|j: int| 0 <= j < all.len() implies (#[trigger] all[j]).child_lba is Some by {
                if j < n {
                    assert(left[j].child_lba is Some);
                } else if j > n {
                    assert(right[j - n - 1].child_lba is Some);
                }
            }
            assert forall|j: int| 0 <= j < all.len() - 1 implies (#[trigger] all[j]).key
                != K::sentinel() by {
                if j < n {
                    assert(left[j].key != K::sentinel());
                } else if j > n {
                    assert(right[j - n - 1].key != K::sentinel());
                }
            }
        }
        assert forall|j: int| 0 <= j < all.len() implies wf_subtree(
            pages,
            #[trigger] child_at(all, j),
            hc,
            child_lo(all, j, lo),
            child_hi(all, j, hi),
            t,
            (t - 1) as nat,
        ) by {
            if j <= n {
                assert(child_at(all, j) == child_at(left, j));
                assert(child_lo(all, j, lo) == child_lo(left, j, lo));
                assert(child_hi(all, j, hi) == child_hi(left, j, m));
            } else {
                let k = j - n - 1;
                assert(child_at(all, j) == child_at(right, k));
                assert(child_lo(all, j, lo) == child_lo(right, k, m));
                assert(child_hi(all, j, hi) == child_hi(right, k, hi));
            }
        }
    }
}

/// The entries of two joined nodes are those of the two and the key
/// between them.
pub proof fn lemma_join_entries<K: BTreeKey>(
    pages: Map<u64, Seq<BTreeRecord<K>>>,
    left: Seq<BTreeRecord<K>>,
    middle: BTreeRecord<K>,
    right: Seq<BTreeRecord<K>>,
    h: nat,
    lo: int,
    hi: int,
    t: nat,
)
    requires
        middle.key != K::sentinel(),
        lo < middle.key.rank() < hi,
        node_ok(pages, left, h, lo, middle.key.rank() as int, t),
        node_ok(pages, right, h, middle.key.rank() as int, hi, t),
    ensures
        ({
            let all = joined(left, middle, right);
            forall|key: K, data: u64| #[trigger]
                has_in(pages, all, h, key, data) == (has_in(pages, left, h, key, data) || has_in(
                    pages,
                    right,
                    h,
                    key,
                    data,
                ) || (key == middle.key && data == middle.data_lba))
        }),
{
    let all = joined(left, middle, right);
    let n = key_count(left) as int;
    lemma_join_places(pages, left, middle, right, h, lo, hi, t);
    if h > 0 {
        assert(left[n].child_lba is Some);
    }
    assert forall|key: K, data: u64| #[trigger]
        has_in(pages, all, h, key, data) == (has_in(pages, left, h, key, data) || has_in(
            pages,
            right,
            h,
            key,
            data,
        ) || (key == middle.key && data == middle.data_lba)) by {
        let hc = (h - 1) as nat;
        if node_has(all, key, data) {
            let j = choose|j: int|
                0 <= j < all.len() && (#[trigger] all[j]).key == key && all[j].data_lba == data;
            if j < n {
                assert(left[j].key == key);
            } else if j > n {
                assert(right[j - n - 1].key == key);
            }
        } else if has_in(pages, all, h, key, data) {
            let j = choose|j: int|
                0 <= j < all.len() && all[j].child_lba is Some && has_entry(
                    pages,
                    #[trigger] child_at(all, j),
                    hc,
                    key,
                    data,
                );
            if j <= n {
                assert(child_at(all, j) == child_at(left, j));
                assert(left[j].child_lba is Some);
            } else {
                assert(child_at(all, j) == child_at(right, j - n - 1));
                assert(right[j - n - 1].child_lba is Some);
            }
        }
        if node_has(left, key, data) {
            let j = choose|j: int|
                0 <= j < left.len() && (#[trigger] left[j]).key == key && left[j].data_lba == data;
            assert(j < n);
            assert(all[j].key == key);
        } else if has_in(pages, left, h, key, data) {
            let j = choose|j: int|
                0 <= j < left.len() && left[j].child_lba is Some && has_entry(
                    pages,
                    #[trigger] child_at(left, j),
                    hc,
                    key,
                    data,
                );
            assert(child_at(all, j) == child_at(left, j));
            assert(all[j].child_lba is Some);
        }
        if node_has(right, key, data) {
            let j = choose|j: int|
                0 <= j < right.len() && (#[trigger] right[j]).key == key && right[j].data_lba
                    == data;
            assert(all[n + 1 + j].key == key);
        } else if has_in(pages, right, h, key, data) {
            let j = choose|j: int|
                0 <= j < right.len() && right[j].child_lba is Some && has_entry(
                    pages,
                    #[trigger] child_at(right, j),
                    hc,
                    key,
                    data,
                );
            assert(all[n + 1 + j] == right[j]);
            assert(child_at(all, n + 1 + j) == child_at(right, j));
        }
        if key == middle.key && data == middle.data_lba {
            assert(all[n].key == key);
        }
    }
}

/// The pages below two joined nodes are those below the two.
pub proof fn lemma_join_reach<K: BTreeKey>(
    pages: Map<u64, Seq<BTreeRecord<K>>>,
    left: Seq<BTreeRecord<K>>,
    middle: BTreeRecord<K>,
    right: Seq<BTreeRecord<K>>,
    h: nat,
    lo: int,
    hi: int,
    t: nat,
)
    requires
        middle.key != K::sentinel(),
        lo < middle.key.rank() < hi,
        node_ok(pages, left, h, lo, middle.key.rank() as int, t),
        node_ok(pages, right, h, middle.key.rank() as int, hi, t),
    ensures
        ({
            let all = joined(left, middle, right);
            forall|x: u64| #[trigger]
                reach_in(pages, all, h, x) == (reach_in(pages, left, h, x) || reach_in(
                    pages,
                    right,
                    h,
                    x,
                ))
        }),
{
    let all = joined(left, middle, right);
    let n = key_count(left) as int;
    lemma_join_places(pages, left, middle, right, h, lo, hi, t);
    if h > 0 {
        assert(left[n].child_lba is Some);
    }
    assert forall|x: u64| #[trigger]
        reach_in(pages, all, h, x) == (reach_in(pages, left, h, x) || reach_in(
            pages,
            right,
            h,
            x,
        )) by {
        let hc = (h - 1) as nat;
        if reach_in(pages, all, h, x) {
            let j = choose|j: int|
                0 <= j < all.len() && all[j].child_lba is Some && in_subtree(
                    pages,
                    #[trigger] child_at(all, j),
                    hc,
                    x,
                );
            if j <= n {
                assert(child_at(all, j) == child_at(left, j));
                assert(left[j].child_lba is Some);
            } else {
                assert(child_at(all, j) == child_at(right, j - n - 1));
                assert(right[j - n - 1].child_lba is Some);
            }
        }
        if reach_in(pages, left, h, x) {
            let j = choose|j: int|
                0 <= j < left.len() && left[j].child_lba is Some && in_subtree(
                    pages,
                    #[trigger] child_at(left, j),
                    hc,
                    x,
                );
            assert(child_at(all, j) == child_at(left, j));
            assert(all[j].child_lba is Some);
        }
        if reach_in(pages, right, h, x) {
            let j = choose|j: int|
                0 <= j < right.len() && right[j].child_lba is Some && in_subtree(
                    pages,
                    #[trigger] child_at(right, j),
                    hc,
                    x,
                );
            assert(all[n + 1 + j] == right[j]);
            assert(child_at(all, n + 1 + j) == child_at(right, j));
        }
    }
}

/// Two neighbouring nodes joined around the key between them make a node
/// with the keys, the entries and the children of both.
pub proof fn lemma_join_ok<K: BTreeKey>(
    pages: Map<u64, Seq<BTreeRecord<K>>>,
    left: Seq<BTreeRecord<K>>,
    middle: BTreeRecord<K>,
    right: Seq<BTreeRecord<K>>,
    h: nat,
    lo: int,
    hi: int,
    t: nat,
)
    requires
        middle.key != K::sentinel(),
        lo < middle.key.rank() < hi,
        node_ok(pages, left, h, lo, middle.key.rank() as int, t),
        node_ok(pages, right, h, middle.key.rank() as int, hi, t),
    ensures
        ({
            let all = joined(left, middle, right);
            &&& node_ok(pages, all, h, lo, hi, t)
            &&& key_count(all) == key_count(left) + key_count(right) + 1
            &&& all.len() == key_count(left) + 1 + right.len()
            &&& forall|j: int| 0 <= j < key_count(left) ==> #[trigger] all[j] == left[j]
            &&& all[key_count(left) as int].key == middle.key
            &&& all[key_count(left) as int].data_lba == middle.data_lba
            &&& forall|j: int|
                0 <= j < right.len() ==> #[trigger] all[key_count(left) + 1 + j] == right[j]
            &&& forall|key: K, data: u64| #[trigger]
                has_in(pages, all, h, key, data) == (has_in(pages, left, h, key, data) || has_in(
                    pages,
                    right,
                    h,
                    key,
                    data,
                ) || (key == middle.key && data == middle.data_lba))
            &&& forall|x: u64| #[trigger]
                reach_in(pages, all, h, x) == (reach_in(pages, left, h, x) || reach_in(
                    pages,
                    right,
                    h,
                    x,
                ))
        }),
{
    lemma_join_places(pages, left, middle, right, h, lo, hi, t);
    lemma_join_shape(pages, left, middle, right, h, lo, hi, t);
    lemma_join_entries(pages, left, middle, right, h, lo, hi, t);
    lemma_join_reach(pages, left, middle, right, h, lo, hi, t);
}

/// The two parts of a node that is cut at one of its keys are nodes on
/// either side of that key.
pub proof fn lemma_halve_shape<K: BTreeKey>(
    pages: Map<u64, Seq<BTreeRecord<K>>>,
    records: Seq<BTreeRecord<K>>,
    h: nat,
    lo: int,
    hi: int,
    t: nat,
    mid: int,
)
    requires
        node_ok(pages, records, h, lo, hi, t),
        0 <= mid < key_count(records),
    ensures
        ({
            let middle = records[mid];
            let left = split_left(records, mid);
            let right = split_right(records, mid);
            &&& middle.key != K::sentinel()
            &&& lo < middle.key.rank() < hi
            &&& node_ok(pages, left, h, lo, middle.key.rank() as int, t)
            &&& node_ok(pages, right, h, middle.key.rank() as int, hi, t)
            &&& key_count(left) == mid
            &&& key_count(right) == key_count(records) - mid - 1
        }),
{
    let middle = records[mid];
    let left = split_left(records, mid);
    let right = split_right(records, mid);
    let m = middle.key.rank() as int;
    let hc = (h - 1) as nat;
    if h == 0 {
        assert(records[records.len() - 1].child_lba is None);
        assert(middle.child_lba is None);
        assert(left =~= records.take(mid));
    } else {
        assert(records[mid].child_lba is Some);
        assert(middle.key != K::sentinel());
        let g = guard_for::<K>(child_at(records, mid));
        assert(left == records.take(mid).push(g));
        assert(left[mid] == g);
        assert(right.last() == records.last());
    }
    assert(forall|j: int| 0 <= j < mid ==> left[j] == records[j]);
    assert(forall|j: int| 0 <= j < right.len() ==> right[j] == records[j + mid + 1]);
    assert forall|j: int| 0 <= j < mid implies (#[trigger] left[j]).key.rank()
        < K::sentinel().rank() && left[j].key != K::sentinel() by {
        assert(records[j].key.rank() < records[mid].key.rank());
        K::lemma_sentinel_greatest(records[mid].key);
        if records[j].key == K::sentinel() {
        }
    }
    assert(strictly_sorted(left)) by {
        assert forall|a: int, b: int| 0 <= a < b < left.len() implies (#[trigger] left[a]).key.rank()
            < (#[trigger] left[b]).key.rank() by {
            if b < mid {
                assert(records[a].key.rank() < records[b].key.rank());
            }
        }
    }
    assert(strictly_sorted(right)) by {
        assert forall|a: int, b: int| 0 <= a < b < right.len() implies (#[trigger] right[a]).key.rank()
            < (#[trigger] right[b]).key.rank() by {
            assert(records[a + mid + 1].key.rank() < records[b + mid + 1].key.rank());
        }
    }
    assert(keys_within(left, lo, m)) by {
        assert forall|j: int|
            0 <= j < left.len() && (#[trigger] left[j]).key != K::sentinel() implies lo
            < left[j].key.rank() < m by {
            assert(records[j].key.rank() < records[mid].key.rank());
        }
    }
    assert(keys_within(right, m, hi)) by {
        assert forall|j: int|
            0 <= j < right.len() && (#[trigger] right[j]).key != K::sentinel() implies m
            < right[j].key.rank() < hi by {
            assert(records[mid].key.rank() < records[j + mid + 1].key.rank());
            assert(records[j + mid + 1].key != K::sentinel());
        }
    }
    if h == 0 {
        assert(leaf_shape(left));
        assert(leaf_shape(right)) by {
            assert forall|j: int| 0 <= j < right.len() implies (#[trigger] right[j]).child_lba is None
                && right[j].key != K::sentinel() by {
                assert(records[j + mid + 1].child_lba is None);
            }
        }
        if left.len() > 0 {
            assert(left[left.len() - 1].child_lba is None);
        }
        if right.len() > 0 {
            assert(right[right.len() - 1].child_lba is None);
        }
    } else {
        assert(internal_shape(left)) by {
            assert forall|j: int| 0 <= j < left.len() implies (#[trigger] left[j]).child_lba is Some by {
                if j < mid {
                    assert(records[j].child_lba is Some);
                }
            }
        }
        assert(internal_shape(right)) by {
            assert forall|j: int| 0 <= j < right.len() implies (#[trigger] right[j]).child_lba is Some by {
                assert(records[j + mid + 1].child_lba is Some);
            }
            assert forall|j: int| 0 <= j < right.len() - 1 implies (#[trigger] right[j]).key
                != K::sentinel() by {
                assert(records[j + mid + 1].key != K::sentinel());
            }
        }
        assert forall|j: int| 0 <= j < left.len() implies wf_subtree(
            pages,
            #[trigger] child_at(left, j),
            hc,
            child_lo(left, j, lo),
            child_hi(left, j, m),
            t,
            (t - 1) as nat,
        ) by {
            assert(child_at(left, j) == child_at(records, j));
            assert(child_lo(left, j, lo) == child_lo(records, j, lo));
            assert(child_hi(left, j, m) == child_hi(records, j, hi));
        }
        assert forall|j: int| 0 <= j < right.len() implies wf_subtree(
            pages,
            #[trigger] child_at(right, j),
            hc,
            child_lo(right, j, m),
            child_hi(right, j, hi),
            t,
            (t - 1) as nat,
        ) by {
            let k = j + mid + 1;
            assert(child_at(right, j) == child_at(records, k));
            assert(child_lo(right, j, m) == child_lo(records, k, lo));
            assert(child_hi(right, j, hi) == child_hi(records, k, hi));
        }
    }
}

/// The entries of a node that is cut at one of its keys are those of its
/// two parts and the key.
pub proof fn lemma_halve_entries<K: BTreeKey>(
    pages: Map<u64, Seq<BTreeRecord<K>>>,
    records: Seq<BTreeRecord<K>>,
    h: nat,
    lo: int,
    hi: int,
    t: nat,
    mid: int,
)
    requires
        node_ok(pages, records, h, lo, hi, t),
        0 <= mid < key_count(records),
    ensures
        ({
            let middle = records[mid];
            let left = split_left(records, mid);
            let right = split_right(records, mid);
            forall|key: K, data: u64| #[trigger]
                has_in(pages, records, h, key, data) == (has_in(pages, left, h, key, data)
                    || has_in(pages, right, h, key, data) || (key == middle.key && data
                    == middle.data_lba))
        }),
{
    let middle = records[mid];
    let left = split_left(records, mid);
    let right = split_right(records, mid);
    let hc = (h - 1) as nat;
    if h == 0 {
        assert(records[records.len() - 1].child_lba is None);
        assert(middle.child_lba is None);
        assert(left =~= records.take(mid));
    } else {
        assert(records[mid].child_lba is Some);
        let g = guard_for::<K>(child_at(records, mid));
        assert(left == records.take(mid).push(g));
        assert(left[mid] == g);
    }
    assert(forall|j: int| 0 <= j < mid ==> left[j] == records[j]);
    assert(forall|j: int| 0 <= j < right.len() ==> right[j] == records[j + mid + 1]);
    assert forall|key: K, data: u64| #[trigger]
        has_in(pages, records, h, key, data) == (has_in(pages, left, h, key, data) || has_in(
            pages,
            right,
            h,
            key,
            data,
        ) || (key == middle.key && data == middle.data_lba)) by {
        if node_has(records, key, data) {
            let j = choose|j: int|
                0 <= j < records.len() && (#[trigger] records[j]).key == key && records[j].data_lba
                    == data;
            if j < mid {
                assert(left[j].key == key);
            } else if j > mid {
                assert(right[j - mid - 1].key == key);
            }
        } else if has_in(pages, records, h, key, data) {
            let j = choose|j: int|
                0 <= j < records.len() && records[j].child_lba is Some && has_entry(
                    pages,
                    #[trigger] child_at(records, j),
                    hc,
                    key,
                    data,
                );
            if j <= mid {
                assert(child_at(left, j) == child_at(records, j));
                assert(left[j].child_lba is Some);
            } else {
                assert(right[j - mid - 1] == records[j]);
                assert(child_at(right, j - mid - 1) == child_at(records, j));
            }
        }
        if node_has(left, key, data) {
            let j = choose|j: int|
                0 <= j < left.len() && (#[trigger] left[j]).key == key && left[j].data_lba == data;
            assert(records[j].key == key);
        } else if has_in(pages, left, h, key, data) {
            let j = choose|j: int|
                0 <= j < left.len() && left[j].child_lba is Some && has_entry(
                    pages,
                    #[trigger] child_at(left, j),
                    hc,
                    key,
                    data,
                );
            assert(child_at(left, j) == child_at(records, j));
            assert(records[j].child_lba is Some);
        }
        if node_has(right, key, data) {
            let j = choose|j: int|
                0 <= j < right.len() && (#[trigger] right[j]).key == key && right[j].data_lba
                    == data;
            assert(records[j + mid + 1].key == key);
        } else if has_in(pages, right, h, key, data) {
            let j = choose|j: int|
                0 <= j < right.len() && right[j].child_lba is Some && has_entry(
                    pages,
                    #[trigger] child_at(right, j),
                    hc,
                    key,
                    data,
                );
            let k = j + mid + 1;
            assert(child_at(right, j) == child_at(records, k));
            assert(records[k].child_lba is Some);
        }
        if key == middle.key && data == middle.data_lba {
            assert(records[mid].key == key);
        }
    }
}

/// The pages below a node that is cut at one of its keys are those below
/// its two parts.
pub proof fn lemma_halve_reach<K: BTreeKey>(
    pages: Map<u64, Seq<BTreeRecord<K>>>,
    records: Seq<BTreeRecord<K>>,
    h: nat,
    lo: int,
    hi: int,
    t: nat,
    mid: int,
)
    requires
        node_ok(pages, records, h, lo, hi, t),
        0 <= mid < key_count(records),
    ensures
        ({
            let left = split_left(records, mid);
            let right = split_right(records, mid);
            forall|x: u64| #[trigger]
                reach_in(pages, records, h, x) == (reach_in(pages, left, h, x) || reach_in(
                    pages,
                    right,
                    h,
                    x,
                ))
        }),
{
    let middle = records[mid];
    let left = split_left(records, mid);
    let right = split_right(records, mid);
    let hc = (h - 1) as nat;
    if h == 0 {
        assert(records[records.len() - 1].child_lba is None);
        assert(middle.child_lba is None);
        assert(left =~= records.take(mid));
    } else {
        assert(records[mid].child_lba is Some);
        let g = guard_for::<K>(child_at(records, mid));
        assert(left == records.take(mid).push(g));
        assert(left[mid] == g);
    }
    assert(forall|j: int| 0 <= j < mid ==> left[j] == records[j]);
    assert(forall|j: int| 0 <= j < right.len() ==> right[j] == records[j + mid + 1]);
    assert forall|x: u64| #[trigger]
        reach_in(pages, records, h, x) == (reach_in(pages, left, h, x) || reach_in(
            pages,
            right,
            h,
            x,
        )) by {
        if reach_in(pages, records, h, x) {
            let j = choose|j: int|
                0 <= j < records.len() && records[j].child_lba is Some && in_subtree(
                    pages,
                    #[trigger] child_at(records, j),
                    hc,
                    x,
                );
            if j <= mid {
                assert(child_at(left, j) == child_at(records, j));
                assert(left[j].child_lba is Some);
            } else {
                assert(right[j - mid - 1] == records[j]);
                assert(child_at(right, j - mid - 1) == child_at(records, j));
            }
        }
        if reach_in(pages, left, h, x) {
            let j = choose|j: int|
                0 <= j < left.len() && left[j].child_lba is Some && in_subtree(
                    pages,
                    #[trigger] child_at(left, j),
                    hc,
                    x,
                );
            assert(child_at(left, j) == child_at(records, j));
            assert(records[j].child_lba is Some);
        }
        if reach_in(pages, right, h, x) {
            let j = choose|j: int|
                0 <= j < right.len() && right[j].child_lba is Some && in_subtree(
                    pages,
                    #[trigger] child_at(right, j),
                    hc,
                    x,
                );
            let k = j + mid + 1;
            assert(child_at(right, j) == child_at(records, k));
            assert(records[k].child_lba is Some);
        }
    }
}

/// The two parts of a node that is cut at one of its keys are nodes on
/// either side of that key, with the entries and the children of the node
/// but for the key.
pub proof fn lemma_halve_ok<K: BTreeKey>(
    pages: Map<u64, Seq<BTreeRecord<K>>>,
    records: Seq<BTreeRecord<K>>,
    h: nat,
    lo: int,
    hi: int,
    t: nat,
    mid: int,
)
    requires
        node_ok(pages, records, h, lo, hi, t),
        0 <= mid < key_count(records),
    ensures
        ({
            let middle = records[mid];
            let left = split_left(records, mid);
            let right = split_right(records, mid);
            &&& middle.key != K::sentinel()
            &&& lo < middle.key.rank() < hi
            &&& node_ok(pages, left, h, lo, middle.key.rank() as int, t)
            &&& node_ok(pages, right, h, middle.key.rank() as int, hi, t)
            &&& key_count(left) == mid
            &&& key_count(right) == key_count(records) - mid - 1
            &&& forall|key: K, data: u64| #[trigger]
                has_in(pages, records, h, key, data) == (has_in(pages, left, h, key, data)
                    || has_in(pages, right, h, key, data) || (key == middle.key && data
                    == middle.data_lba))
            &&& forall|x: u64| #[trigger]
                reach_in(pages, records, h, x) == (reach_in(pages, left, h, x) || reach_in(
                    pages,
                    right,
                    h,
                    x,
                ))
        }),
{
    lemma_halve_shape(pages, records, h, lo, hi, t, mid);
    lemma_halve_entries(pages, records, h, lo, hi, t, mid);
    lemma_halve_reach(pages, records, h, lo, hi, t, mid);
}

/// Whether two page maps hold the same records on every page but `n`, `l`
/// and `r`.
pub open spec fn same_but<K: BTreeKey>(
    before: Map<u64, Seq<BTreeRecord<K>>>,
    after: Map<u64, Seq<BTreeRecord<K>>>,
    n: u64,
    l: u64,
    r: u64,
) -> bool {
    forall|x: u64| x != n && x != l && x != r ==> #[trigger] after[x] == before[x]
}

/// What holds of two neighbouring children of a node of a B-tree when
/// only the node and the two are changed: the other children keep their
/// subtrees, and the records of the two still make nodes, over the
/// changed pages, with the entries and pages that they had.
pub proof fn lemma_pair_frame<K: BTreeKey>(
    before: Map<u64, Seq<BTreeRecord<K>>>,
    after: Map<u64, Seq<BTreeRecord<K>>>,
    n: u64,
    h: nat,
    lo: int,
    hi: int,
    t: nat,
    least: nat,
    j: int,
)
    requires
        t >= 2,
        h > 0,
        wf_subtree(before, n, h, lo, hi, t, least),
        0 <= j < before[n].len() - 1,
        same_but(before, after, n, child_at(before[n], j), child_at(before[n], j + 1)),
    ensures
        ({
            let records = before[n];
            let l = child_at(records, j);
            let r = child_at(records, j + 1);
            let s = records[j].key.rank() as int;
            let hc = (h - 1) as nat;
            &&& l != n && r != n && l != r
            &&& records[j].key != K::sentinel()
            &&& records[j].child_lba == Some(l)
            &&& records[j + 1].child_lba == Some(r)
            &&& child_lo(records, j, lo) < s < child_hi(records, j + 1, hi)
            &&& lo <= child_lo(records, j, lo)
            &&& child_hi(records, j + 1, hi) <= hi
            &&& t - 1 <= key_count(before[l]) <= 2 * t - 1
            &&& t - 1 <= key_count(before[r]) <= 2 * t - 1
            &&& node_ok(after, before[l], hc, child_lo(records, j, lo), s, t)
            &&& node_ok(after, before[r], hc, s, child_hi(records, j + 1, hi), t)
            &&& forall|key: K, data: u64| #[trigger]
                has_in(after, before[l], hc, key, data) == has_entry(before, l, hc, key, data)
            &&& forall|key: K, data: u64| #[trigger]
                has_in(after, before[r], hc, key, data) == has_entry(before, r, hc, key, data)
            &&& forall|x: u64| #[trigger]
                reach_in(after, before[l], hc, x) ==> in_subtree(before, l, hc, x) && x != l && x
                    != r && x != n
            &&& forall|x: u64| #[trigger]
                reach_in(after, before[r], hc, x) ==> in_subtree(before, r, hc, x) && x != l && x
                    != r && x != n
            &&& forall|k: int|
                0 <= k < records.len() && k != j && k != j + 1 ==> same_subtree(
                    before,
                    after,
                    #[trigger] child_at(records, k),
                    hc,
                )
        }),
{
    let records = before[n];
    let l = child_at(records, j);
    let r = child_at(records, j + 1);
    let s = records[j].key.rank() as int;
    let hc = (h - 1) as nat;
    let llo = child_lo(records, j, lo);
    let rhi = child_hi(records, j + 1, hi);
    assert(records[j].child_lba is Some && records[j + 1].child_lba is Some);
    assert(records[j].key != K::sentinel());
    lemma_child_bounds(records, j, lo, hi);
    lemma_child_bounds(records, j + 1, lo, hi);
    lemma_above(before, n, h, lo, hi, t, least, j);
    lemma_above(before, n, h, lo, hi, t, least, j + 1);
    assert(in_subtree(before, l, hc, l));
    assert(in_subtree(before, r, hc, r));
    lemma_siblings_apart(before, n, h, lo, hi, t, least, j, j + 1, l);
    assert(wf_subtree(before, l, hc, llo, s, t, (t - 1) as nat));
    assert(wf_subtree(before, r, hc, s, rhi, t, (t - 1) as nat));
    lemma_node_view(before, l, hc, llo, s, t, (t - 1) as nat);
    lemma_node_view(before, r, hc, s, rhi, t, (t - 1) as nat);
    assert(llo < s < rhi) by {
        if j + 1 < records.len() - 1 {
            assert(records[j].key.rank() < records[j + 1].key.rank());
        } else {
            lemma_valid_below_top(records[j].key);
            assert(keys_within(records, lo, hi));
        }
        if j > 0 {
            assert(records[j - 1].key.rank() < records[j].key.rank());
        }
    }
    assert forall|x: u64| #[trigger] reach_in(before, before[l], hc, x) implies after[x]
        == before[x] && in_subtree(before, l, hc, x) && x != l && x != r && x != n by {
        assert(in_subtree(before, l, hc, x));
        lemma_siblings_apart(before, n, h, lo, hi, t, least, j, j + 1, x);
        let k = choose|k: int|
            0 <= k < before[l].len() && before[l][k].child_lba is Some && in_subtree(
                before,
                #[trigger] child_at(before[l], k),
                (hc - 1) as nat,
                x,
            );
        lemma_above(before, l, hc, llo, s, t, (t - 1) as nat, k);
    }
    assert forall|x: u64| #[trigger] reach_in(before, before[r], hc, x) implies after[x]
        == before[x] && in_subtree(before, r, hc, x) && x != l && x != r && x != n by {
        assert(in_subtree(before, r, hc, x));
        lemma_siblings_apart(before, n, h, lo, hi, t, least, j, j + 1, x);
        let k = choose|k: int|
            0 <= k < before[r].len() && before[r][k].child_lba is Some && in_subtree(
                before,
                #[trigger] child_at(before[r], k),
                (hc - 1) as nat,
                x,
            );
        lemma_above(before, r, hc, s, rhi, t, (t - 1) as nat, k);
    }
    lemma_node_frame(before, after, before[l], hc, llo, s, t);
    lemma_node_frame(before, after, before[r], hc, s, rhi, t);
    assert forall|k: int| 0 <= k < records.len() && k != j && k != j + 1 implies same_subtree(
        before,
        after,
        #[trigger] child_at(records, k),
        hc,
    ) by {
        let c = child_at(records, k);
        assert(records[k].child_lba is Some);
        lemma_above(before, n, h, lo, hi, t, least, k);
        assert forall|x: u64| #[trigger] in_subtree(before, c, hc, x) implies after[x]
            == before[x] by {
            lemma_siblings_apart(before, n, h, lo, hi, t, least, j, k, x);
            lemma_siblings_apart(before, n, h, lo, hi, t, least, j + 1, k, x);
        }
        lemma_frame(before, after, c, hc);
    }
}

/// Whether `key` with `data` is the entry `entry`, or an entry below one
/// of the pages `l` and `r`.
pub open spec fn around<K: BTreeKey>(
    pages: Map<u64, Seq<BTreeRecord<K>>>,
    l: u64,
    r: u64,
    h: nat,
    entry: BTreeRecord<K>,
    key: K,
    data: u64,
) -> bool {
    ||| has_entry(pages, l, h, key, data)
    ||| has_entry(pages, r, h, key, data)
    ||| (key == entry.key && data == entry.data_lba)
}

/// The page map after the children `j` and `j + 1` of node `n` were
/// joined and cut anew at key `mid` of the joined records.
pub open spec fn after_rebalance<K: BTreeKey>(
    before: Map<u64, Seq<BTreeRecord<K>>>,
    n: u64,
    j: int,
    mid: int,
) -> Map<u64, Seq<BTreeRecord<K>>> {
    let records = before[n];
    let l = child_at(records, j);
    let r = child_at(records, j + 1);
    let all = joined(before[l], records[j], before[r]);
    before.insert(n, records.update(j, with_entry(records[j], all[mid]))).insert(
        l,
        split_left(all, mid),
    ).insert(r, split_right(all, mid))
}

/// Joining two neighbouring children of a node and cutting them anew so
/// that both hold a number of keys in range keeps the B-tree, its pages
/// and its entries.
#[verifier::rlimit(60)]
pub proof fn lemma_rebalanced<K: BTreeKey>(
    before: Map<u64, Seq<BTreeRecord<K>>>,
    n: u64,
    h: nat,
    lo: int,
    hi: int,
    t: nat,
    least: nat,
    j: int,
    mid: int,
)
    requires
        t >= 2,
        h > 0,
        wf_subtree(before, n, h, lo, hi, t, least),
        0 <= j < before[n].len() - 1,
        ({
            let l = child_at(before[n], j);
            let r = child_at(before[n], j + 1);
            let count = key_count(before[l]) + key_count(before[r]) + 1;
            &&& t - 1 <= mid <= 2 * t - 1
            &&& t - 1 <= count - mid - 1 <= 2 * t - 1
        }),
    ensures
        ({
            let after = after_rebalance(before, n, j, mid);
            let records = before[n];
            let l = child_at(records, j);
            let r = child_at(records, j + 1);
            let all = joined(before[l], records[j], before[r]);
            &&& wf_subtree(after, n, h, lo, hi, t, least)
            &&& after[n] == records.update(j, with_entry(records[j], all[mid]))
            &&& after[l] == split_left(all, mid)
            &&& after[r] == split_right(all, mid)
            &&& key_count(after[n]) == key_count(records)
            &&& key_count(after[l]) == mid
            &&& key_count(after[r]) == key_count(before[l]) + key_count(before[r]) - mid
            &&& all[mid].key != K::sentinel()
            &&& mid < key_count(before[l]) ==> all[mid].key.rank() < records[j].key.rank()
            &&& mid > key_count(before[l]) ==> all[mid].key.rank() > records[j].key.rank()
            &&& forall|x: u64| #[trigger] in_subtree(after, n, h, x) ==> in_subtree(before, n, h, x)
            &&& forall|key: K, data: u64| #[trigger]
                has_entry(after, n, h, key, data) == has_entry(before, n, h, key, data)
        }),
{
    let after = after_rebalance(before, n, j, mid);
    let records = before[n];
    let l = child_at(records, j);
    let r = child_at(records, j + 1);
    let all = joined(before[l], records[j], before[r]);
    let hc = (h - 1) as nat;
    let llo = child_lo(records, j, lo);
    let rhi = child_hi(records, j + 1, hi);
    let s = records[j].key.rank() as int;
    let par = records.update(j, with_entry(records[j], all[mid]));
    assert(in_subtree(before, n, h, n));
    assert(same_but(before, after, n, l, r));
    lemma_pair_frame(before, after, n, h, lo, hi, t, least, j);
    assert(after[n] == par);
    assert(after[l] == split_left(all, mid));
    assert(after[r] == split_right(all, mid));
    lemma_join_ok(after, before[l], records[j], before[r], hc, llo, rhi, t);
    lemma_halve_ok(after, all, hc, llo, rhi, t, mid);
    let m = all[mid].key.rank() as int;
    if mid < key_count(before[l]) {
        assert(all[mid] == before[l][mid]);
        assert(before[l][mid].key != K::sentinel());
        assert(keys_within(before[l], llo, s));
    }
    if mid > key_count(before[l]) {
        let k = mid - key_count(before[l]) - 1;
        assert(all[mid] == before[r][k]);
        assert(keys_within(before[r], s, rhi));
    }
    lemma_node_view(after, l, hc, llo, m, t, (t - 1) as nat);
    lemma_node_view(after, r, hc, m, rhi, t, (t - 1) as nat);
    lemma_node_view(before, l, hc, llo, s, t, (t - 1) as nat);
    lemma_node_view(before, r, hc, s, rhi, t, (t - 1) as nat);
    assert(wf_subtree(after, l, hc, llo, m, t, (t - 1) as nat));
    assert(wf_subtree(after, r, hc, m, rhi, t, (t - 1) as nat));
    assert forall|x: u64| #[trigger] in_subtree(after, l, hc, x) implies in_subtree(
        before,
        l,
        hc,
        x,
    ) || in_subtree(before, r, hc, x) by {
        if x != l {
            assert(reach_in(after, after[l], hc, x));
            assert(reach_in(after, all, hc, x));
            assert(reach_in(after, before[l], hc, x) || reach_in(after, before[r], hc, x));
        }
    }
    assert forall|x: u64| #[trigger] in_subtree(after, r, hc, x) implies in_subtree(
        before,
        l,
        hc,
        x,
    ) || in_subtree(before, r, hc, x) by {
        if x != r {
            assert(reach_in(after, after[r], hc, x));
            assert(reach_in(after, all, hc, x));
            assert(reach_in(after, before[l], hc, x) || reach_in(after, before[r], hc, x));
        }
    }
    assert forall|key: K, data: u64| #[trigger]
        around(after, l, r, hc, all[mid], key, data) == around(
            before,
            l,
            r,
            hc,
            records[j],
            key,
            data,
        ) by {
        assert(has_entry(after, l, hc, key, data) == has_in(after, after[l], hc, key, data));
        assert(has_entry(after, r, hc, key, data) == has_in(after, after[r], hc, key, data));
        assert(has_in(after, all, hc, key, data) == (has_in(after, after[l], hc, key, data)
            || has_in(after, after[r], hc, key, data) || (key == all[mid].key && data
            == all[mid].data_lba)));
        assert(has_in(after, all, hc, key, data) == (has_in(after, before[l], hc, key, data)
            || has_in(after, before[r], hc, key, data) || (key == records[j].key && data
            == records[j].data_lba)));
        assert(has_in(after, before[l], hc, key, data) == has_entry(before, l, hc, key, data));
        assert(has_in(after, before[r], hc, key, data) == has_entry(before, r, hc, key, data));
    }
    lemma_rebalanced_parent(before, after, n, h, lo, hi, t, least, j, all[mid]);
}

/// What `lemma_rebalanced` concludes of the parent.
#[verifier::rlimit(60)]
proof fn lemma_rebalanced_parent<K: BTreeKey>(
    before: Map<u64, Seq<BTreeRecord<K>>>,
    after: Map<u64, Seq<BTreeRecord<K>>>,
    n: u64,
    h: nat,
    lo: int,
    hi: int,
    t: nat,
    least: nat,
    j: int,
    entry: BTreeRecord<K>,
)
    requires
        t >= 2,
        h > 0,
        wf_subtree(before, n, h, lo, hi, t, least),
        0 <= j < before[n].len() - 1,
        entry.key != K::sentinel(),
        ({
            let records = before[n];
            let l = child_at(records, j);
            let r = child_at(records, j + 1);
            let hc = (h - 1) as nat;
            let m = entry.key.rank() as int;
            &&& after[n] == records.update(j, with_entry(records[j], entry))
            &&& records[j].child_lba == Some(l)
            &&& records[j + 1].child_lba == Some(r)
            &&& l != n && r != n
            &&& child_lo(records, j, lo) < m < child_hi(records, j + 1, hi)
            &&& wf_subtree(after, l, hc, child_lo(records, j, lo), m, t, (t - 1) as nat)
            &&& wf_subtree(after, r, hc, m, child_hi(records, j + 1, hi), t, (t - 1) as nat)
            &&& forall|x: u64| #[trigger]
                in_subtree(after, l, hc, x) ==> in_subtree(before, l, hc, x) || in_subtree(
                    before,
                    r,
                    hc,
                    x,
                )
            &&& forall|x: u64| #[trigger]
                in_subtree(after, r, hc, x) ==> in_subtree(before, l, hc, x) || in_subtree(
                    before,
                    r,
                    hc,
                    x,
                )
            &&& forall|key: K, data: u64| #[trigger]
                around(after, l, r, hc, entry, key, data) == around(
                    before,
                    l,
                    r,
                    hc,
                    records[j],
                    key,
                    data,
                )
            &&& forall|k: int|
                0 <= k < records.len() && k != j && k != j + 1 ==> same_subtree(
                    before,
                    after,
                    #[trigger] child_at(records, k),
                    hc,
                )
        }),
    ensures
        wf_subtree(after, n, h, lo, hi, t, least),
        key_count(after[n]) == key_count(before[n]),
        forall|x: u64| #[trigger] in_subtree(after, n, h, x) ==> in_subtree(before, n, h, x),
        forall|key: K, data: u64| #[trigger]
            has_entry(after, n, h, key, data) == has_entry(before, n, h, key, data),
{
    let records = before[n];
    let l = child_at(records, j);
    let r = child_at(records, j + 1);
    let hc = (h - 1) as nat;
    let m = entry.key.rank() as int;
    let par = after[n];
    lemma_child_bounds(records, j, lo, hi);
    lemma_child_bounds(records, j + 1, lo, hi);
    lemma_valid_below_top(entry.key);
    assert(par.len() == records.len());
    assert(forall|k: int| 0 <= k < par.len() && k != j ==> par[k] == records[k]);
    assert(par[j] == with_entry(records[j], entry));
    assert(par.last() == records.last());
    assert(strictly_sorted(par)) by {
        assert forall|a: int, b: int| 0 <= a < b < par.len() implies (#[trigger] par[a]).key.rank()
            < (#[trigger] par[b]).key.rank() by {
            if a != j && b != j {
                assert(records[a].key.rank() < records[b].key.rank());
            } else if a == j {
                if b > j + 1 {
                    assert(records[j + 1].key.rank() < records[b].key.rank());
                }
                if j + 1 == records.len() - 1 {
                    assert(records[j + 1].key == K::sentinel());
                }
            } else {
                if a < j - 1 {
                    assert(records[a].key.rank() < records[j - 1].key.rank());
                }
            }
        }
    }
    assert(keys_within(par, lo, hi)) by {
        assert forall|k: int|
            0 <= k < par.len() && (#[trigger] par[k]).key != K::sentinel() implies lo
            < par[k].key.rank() < hi by {
            if k != j {
                assert(records[k].key != K::sentinel());
            }
        }
    }
    assert(internal_shape(par)) by {
        assert forall|k: int| 0 <= k < par.len() implies (#[trigger] par[k]).child_lba is Some by {
            assert(records[k].child_lba is Some);
        }
        assert forall|k: int| 0 <= k < par.len() - 1 implies (#[trigger] par[k]).key
            != K::sentinel() by {
            if k != j {
                assert(records[k].key != K::sentinel());
            }
        }
    }
    assert forall|k: int| 0 <= k < par.len() implies wf_subtree(
        after,
        #[trigger] child_at(par, k),
        hc,
        child_lo(par, k, lo),
        child_hi(par, k, hi),
        t,
        (t - 1) as nat,
    ) by {
        assert(child_at(par, k) == child_at(records, k));
        if k == j {
            assert(child_lo(par, k, lo) == child_lo(records, k, lo));
            assert(child_hi(par, k, hi) == m);
        } else if k == j + 1 {
            assert(child_lo(par, k, lo) == m);
            assert(child_hi(par, k, hi) == child_hi(records, k, hi));
        } else {
            assert(same_subtree(before, after, child_at(records, k), hc));
            assert(child_lo(par, k, lo) == child_lo(records, k, lo));
            assert(child_hi(par, k, hi) == child_hi(records, k, hi));
        }
    }
    assert forall|x: u64| #[trigger] in_subtree(after, n, h, x) implies in_subtree(
        before,
        n,
        h,
        x,
    ) by {
        if x != n {
            let k = choose|k: int|
                0 <= k < par.len() && par[k].child_lba is Some && in_subtree(
                    after,
                    #[trigger] child_at(par, k),
                    hc,
                    x,
                );
            assert(child_at(par, k) == child_at(records, k));
            lemma_child_subtree(before, n, h, j);
            lemma_child_subtree(before, n, h, j + 1);
            if k != j && k != j + 1 {
                assert(same_subtree(before, after, child_at(records, k), hc));
                lemma_child_subtree(before, n, h, k);
            }
        }
    }
    assert(child_at(records, j) == l && child_at(records, j + 1) == r);
    assert(child_at(par, j) == l && child_at(par, j + 1) == r);
    assert forall|key: K, data: u64| #[trigger]
        has_entry(after, n, h, key, data) implies has_entry(before, n, h, key, data) by {
        let around_after = around(after, l, r, hc, entry, key, data);
        let around_before = around(before, l, r, hc, records[j], key, data);
        assert(around_after == around_before);
        if node_has(par, key, data) {
            let k = choose|k: int|
                0 <= k < par.len() && (#[trigger] par[k]).key == key && par[k].data_lba == data;
            if k != j {
                assert(records[k].key == key && records[k].data_lba == data);
                assert(node_has(records, key, data));
            } else {
                assert(around_after);
                if key == records[j].key && data == records[j].data_lba {
                    lemma_entries_key(after, n, h, lo, hi, t, least, key, data);
                    assert(node_has(records, key, data));
                } else if has_entry(before, l, hc, key, data) {
                    assert(has_entry(before, child_at(records, j), hc, key, data));
                } else {
                    assert(has_entry(before, child_at(records, j + 1), hc, key, data));
                }
            }
        } else {
            let k = choose|k: int|
                0 <= k < par.len() && par[k].child_lba is Some && has_entry(
                    after,
                    #[trigger] child_at(par, k),
                    hc,
                    key,
                    data,
                );
            assert(child_at(par, k) == child_at(records, k));
            if k != j && k != j + 1 {
                assert(same_subtree(before, after, child_at(records, k), hc));
                assert(records[k].child_lba is Some);
                assert(has_entry(before, child_at(records, k), hc, key, data));
            } else {
                assert(around_after);
                if key == records[j].key && data == records[j].data_lba {
                    lemma_entries_key(after, n, h, lo, hi, t, least, key, data);
                    assert(node_has(records, key, data));
                } else if has_entry(before, l, hc, key, data) {
                    assert(has_entry(before, child_at(records, j), hc, key, data));
                } else {
                    assert(has_entry(before, child_at(records, j + 1), hc, key, data));
                }
            }
        }
    }
    assert forall|key: K, data: u64| #[trigger]
        has_entry(before, n, h, key, data) implies has_entry(after, n, h, key, data) by {
        let around_after = around(after, l, r, hc, entry, key, data);
        let around_before = around(before, l, r, hc, records[j], key, data);
        assert(around_after == around_before);
        if node_has(records, key, data) {
            let k = choose|k: int|
                0 <= k < records.len() && (#[trigger] records[k]).key == key && records[k].data_lba
                    == data;
            if k != j {
                assert(par[k].key == key && par[k].data_lba == data);
                assert(node_has(par, key, data));
            } else {
                assert(around_before);
                lemma_entries_key(before, n, h, lo, hi, t, least, key, data);
                if key == entry.key && data == entry.data_lba {
                    assert(par[j].key == key && par[j].data_lba == data);
                    assert(node_has(par, key, data));
                } else if has_entry(after, l, hc, key, data) {
                    assert(par[j].child_lba is Some);
                    assert(has_entry(after, child_at(par, j), hc, key, data));
                } else {
                    assert(par[j + 1].child_lba is Some);
                    assert(has_entry(after, child_at(par, j + 1), hc, key, data));
                }
            }
        } else {
            let k = choose|k: int|
                0 <= k < records.len() && records[k].child_lba is Some && has_entry(
                    before,
                    #[trigger] child_at(records, k),
                    hc,
                    key,
                    data,
                );
            if k != j && k != j + 1 {
                assert(same_subtree(before, after, child_at(records, k), hc));
                assert(child_at(par, k) == child_at(records, k));
                assert(par[k].child_lba is Some);
                assert(has_entry(after, child_at(par, k), hc, key, data));
            } else {
                assert(around_before);
                lemma_entries_key(before, n, h, lo, hi, t, least, key, data);
                if key == entry.key && data == entry.data_lba {
                    assert(par[j].key == key && par[j].data_lba == data);
                    assert(node_has(par, key, data));
                } else if has_entry(after, l, hc, key, data) {
                    assert(par[j].child_lba is Some);
                    assert(has_entry(after, child_at(par, j), hc, key, data));
                } else {
                    assert(par[j + 1].child_lba is Some);
                    assert(has_entry(after, child_at(par, j + 1), hc, key, data));
                }
            }
        }
    }
}

/// The key of an entry of a B-tree is not the sentinel.
pub proof fn lemma_entries_key<K: BTreeKey>(
    pages: Map<u64, Seq<BTreeRecord<K>>>,
    lba: u64,
    h: nat,
    lo: int,
    hi: int,
    t: nat,
    least: nat,
    key: K,
    data: u64,
)
    requires
        has_entry(pages, lba, h, key, data),
    ensures
        key != K::sentinel(),
    decreases h,
{
    if !node_has(pages[lba], key, data) {
        let records = pages[lba];
        let i = choose|i: int|
            0 <= i < records.len() && records[i].child_lba is Some && has_entry(
                pages,
                #[trigger] child_at(records, i),
                (h - 1) as nat,
                key,
                data,
            );
        lemma_entries_key(pages, child_at(records, i), (h - 1) as nat, lo, hi, t, least, key, data);
    }
}

/// The records of a parent after its children `j` and `j + 1` were
/// joined into child `j`: the key between the two is gone, and the record
/// that pointed to the right one points to the left one.
pub open spec fn merge_parent<K: BTreeKey>(records: Seq<BTreeRecord<K>>, j: int) -> Seq<
    BTreeRecord<K>,
> {
    records.remove(j).update(j, with_child(records[j + 1], child_at(records, j)))
}

/// The page map after the children `j` and `j + 1` of node `n` were
/// joined into child `j`. The page of child `j + 1` is left empty.
pub open spec fn after_merge<K: BTreeKey>(
    before: Map<u64, Seq<BTreeRecord<K>>>,
    n: u64,
    j: int,
) -> Map<u64, Seq<BTreeRecord<K>>> {
    let records = before[n];
    let l = child_at(records, j);
    let r = child_at(records, j + 1);
    before.insert(n, merge_parent(records, j)).insert(
        l,
        joined(before[l], records[j], before[r]),
    ).insert(r, Seq::empty())
}

/// The records of a parent after two of its children were joined are
/// those of an internal node with one key less, sorted and within the
/// bounds, with the bounds of the children kept.
pub proof fn lemma_merge_parent<K: BTreeKey>(
    records: Seq<BTreeRecord<K>>,
    j: int,
    lo: int,
    hi: int,
)
    requires
        internal_shape(records),
        strictly_sorted(records),
        keys_within(records, lo, hi),
        0 <= j < records.len() - 1,
    ensures
        ({
            let par = merge_parent(records, j);
            &&& par.len() == records.len() - 1
            &&& internal_shape(par)
            &&& strictly_sorted(par)
            &&& keys_within(par, lo, hi)
            &&& key_count(par) == key_count(records) - 1
            &&& par[j] == with_child(records[j + 1], child_at(records, j))
            &&& forall|k: int| 0 <= k < j ==> #[trigger] par[k] == records[k]
            &&& forall|k: int| j < k < par.len() ==> #[trigger] par[k] == records[k + 1]
            &&& forall|k: int|
                0 <= k < j ==> child_lo(par, k, lo) == child_lo(records, k, lo) && #[trigger] child_hi(
                    par,
                    k,
                    hi,
                ) == child_hi(records, k, hi)
            &&& forall|k: int|
                j < k < par.len() ==> child_lo(par, k, lo) == child_lo(records, k + 1, lo)
                    && #[trigger] child_hi(par, k, hi) == child_hi(records, k + 1, hi)
            &&& child_lo(par, j, lo) == child_lo(records, j, lo)
            &&& child_hi(par, j, hi) == child_hi(records, j + 1, hi)
        }),
{
    let par = merge_parent(records, j);
    let w = with_child(records[j + 1], child_at(records, j));
    assert(par.len() == records.len() - 1);
    assert(forall|k: int| 0 <= k < j ==> par[k] == records[k]);
    assert(par[j] == w);
    assert(forall|k: int| j < k < par.len() ==> par[k] == records[k + 1]);
    assert(par.last().key == K::sentinel() && par.last().data_lba == 0) by {
        if j == par.len() - 1 {
            assert(par.last() == w);
        } else {
            assert(par.last() == records.last());
        }
    }
    assert(strictly_sorted(par)) by {
        assert forall|a: int, b: int| 0 <= a < b < par.len() implies (#[trigger] par[a]).key.rank()
            < (#[trigger] par[b]).key.rank() by {
            let ka = if a < j {
                a
            } else {
                a + 1
            };
            let kb = if b < j {
                b
            } else {
                b + 1
            };
            assert(records[ka].key.rank() < records[kb].key.rank());
        }
    }
    assert(keys_within(par, lo, hi)) by {
        assert forall|k: int|
            0 <= k < par.len() && (#[trigger] par[k]).key != K::sentinel() implies lo
            < par[k].key.rank() < hi by {
            if k < j {
                assert(records[k].key != K::sentinel());
            } else {
                assert(records[k + 1].key != K::sentinel());
            }
        }
    }
    assert(internal_shape(par)) by {
        assert forall|k: int| 0 <= k < par.len() implies (#[trigger] par[k]).child_lba is Some by {
            if k < j {
                assert(records[k].child_lba is Some);
            } else if k > j {
                assert(records[k + 1].child_lba is Some);
            }
        }
        assert forall|k: int| 0 <= k < par.len() - 1 implies (#[trigger] par[k]).key
            != K::sentinel() by {
            if k < j {
                assert(records[k].key != K::sentinel());
            } else {
                assert(records[k + 1].key != K::sentinel());
            }
        }
    }
    assert forall|k: int| j < k < par.len() implies child_lo(par, k, lo) == child_lo(
        records,
        k + 1,
        lo,
    ) && #[trigger] child_hi(par, k, hi) == child_hi(records, k + 1, hi) by {
        assert(par[k - 1].key == records[k].key);
    }
}

/// Joining two neighbouring children that hold no more than `2t - 1` keys
/// with the key between them keeps the B-tree and its entries, but for the
/// key that the node gives up and the page that the tree gives up.
#[verifier::rlimit(60)]
pub proof fn lemma_merged_pair<K: BTreeKey>(
    before: Map<u64, Seq<BTreeRecord<K>>>,
    n: u64,
    h: nat,
    lo: int,
    hi: int,
    t: nat,
    least: nat,
    j: int,
)
    requires
        t >= 2,
        h > 0,
        wf_subtree(before, n, h, lo, hi, t, least),
        0 <= j < before[n].len() - 1,
        key_count(before[child_at(before[n], j)]) + key_count(
            before[child_at(before[n], j + 1)],
        ) + 1 <= 2 * t - 1,
    ensures
        ({
            let after = after_merge(before, n, j);
            let records = before[n];
            let l = child_at(records, j);
            let r = child_at(records, j + 1);
            &&& wf_subtree(after, n, h, lo, hi, t, (key_count(records) - 1) as nat)
            &&& after[n] == merge_parent(records, j)
            &&& after[l] == joined(before[l], records[j], before[r])
            &&& after[n].len() == records.len() - 1
            &&& key_count(after[n]) == key_count(records) - 1
            &&& key_count(after[l]) == key_count(before[l]) + key_count(before[r]) + 1
            &&& child_at(after[n], j) == l
            &&& l != n && r != n && l != r
            &&& records[j].key != K::sentinel()
            &&& child_lo(after[n], j, lo) == child_lo(records, j, lo)
            &&& child_hi(after[n], j, hi) == child_hi(records, j + 1, hi)
            &&& child_lo(records, j, lo) < records[j].key.rank() < child_hi(records, j + 1, hi)
            &&& forall|k: int| 0 <= k < j ==> #[trigger] after[n][k] == records[k]
            &&& forall|k: int| j < k < after[n].len() ==> #[trigger] after[n][k] == records[k + 1]
            &&& after[n][j].key == records[j + 1].key
            &&& after[n][j].data_lba == records[j + 1].data_lba
            &&& forall|x: u64| #[trigger]
                in_subtree(after, n, h, x) ==> in_subtree(before, n, h, x) && x != r
            &&& forall|key: K, data: u64| #[trigger]
                has_entry(after, n, h, key, data) == has_entry(before, n, h, key, data)
        }),
{
    let after = after_merge(before, n, j);
    let records = before[n];
    let l = child_at(records, j);
    let r = child_at(records, j + 1);
    let all = joined(before[l], records[j], before[r]);
    let hc = (h - 1) as nat;
    let llo = child_lo(records, j, lo);
    let rhi = child_hi(records, j + 1, hi);
    let s = records[j].key.rank() as int;
    let par = merge_parent(records, j);
    assert(in_subtree(before, n, h, n));
    assert(same_but(before, after, n, l, r));
    lemma_pair_frame(before, after, n, h, lo, hi, t, least, j);
    assert(after[n] == par);
    assert(after[l] == all);
    lemma_join_ok(after, before[l], records[j], before[r], hc, llo, rhi, t);
    lemma_node_view(after, l, hc, llo, rhi, t, (t - 1) as nat);
    lemma_node_view(before, l, hc, llo, s, t, (t - 1) as nat);
    lemma_node_view(before, r, hc, s, rhi, t, (t - 1) as nat);
    lemma_merge_parent(records, j, lo, hi);
    assert(wf_subtree(after, l, hc, llo, rhi, t, (t - 1) as nat));
    assert forall|x: u64| #[trigger] in_subtree(after, l, hc, x) implies (in_subtree(
        before,
        l,
        hc,
        x,
    ) || in_subtree(before, r, hc, x)) && x != r by {
        if x != l {
            assert(reach_in(after, all, hc, x));
            assert(reach_in(after, before[l], hc, x) || reach_in(after, before[r], hc, x));
        }
    }
    assert forall|key: K, data: u64| #[trigger]
        has_entry(after, l, hc, key, data) == around(before, l, r, hc, records[j], key, data) by {
        assert(has_entry(after, l, hc, key, data) == has_in(after, all, hc, key, data));
        assert(has_in(after, before[l], hc, key, data) == has_entry(before, l, hc, key, data));
        assert(has_in(after, before[r], hc, key, data) == has_entry(before, r, hc, key, data));
    }
    lemma_merged_assemble(before, after, n, h, lo, hi, t, least, j);
}

/// What `lemma_merged_pair` concludes of the parent.
#[verifier::rlimit(60)]
proof fn lemma_merged_assemble<K: BTreeKey>(
    before: Map<u64, Seq<BTreeRecord<K>>>,
    after: Map<u64, Seq<BTreeRecord<K>>>,
    n: u64,
    h: nat,
    lo: int,
    hi: int,
    t: nat,
    least: nat,
    j: int,
)
    requires
        t >= 2,
        h > 0,
        wf_subtree(before, n, h, lo, hi, t, least),
        0 <= j < before[n].len() - 1,
        ({
            let records = before[n];
            let par = merge_parent(records, j);
            let l = child_at(records, j);
            let r = child_at(records, j + 1);
            let hc = (h - 1) as nat;
            &&& after[n] == par
            &&& records[j].child_lba == Some(l)
            &&& records[j + 1].child_lba == Some(r)
            &&& l != n && r != n && l != r
            &&& records[j].key != K::sentinel()
            &&& par.len() == records.len() - 1
            &&& internal_shape(par)
            &&& strictly_sorted(par)
            &&& keys_within(par, lo, hi)
            &&& key_count(par) == key_count(records) - 1
            &&& par[j] == with_child(records[j + 1], l)
            &&& forall|k: int| 0 <= k < j ==> #[trigger] par[k] == records[k]
            &&& forall|k: int| j < k < par.len() ==> #[trigger] par[k] == records[k + 1]
            &&& forall|k: int|
                0 <= k < j ==> child_lo(par, k, lo) == child_lo(records, k, lo) && #[trigger] child_hi(
                    par,
                    k,
                    hi,
                ) == child_hi(records, k, hi)
            &&& forall|k: int|
                j < k < par.len() ==> child_lo(par, k, lo) == child_lo(records, k + 1, lo)
                    && #[trigger] child_hi(par, k, hi) == child_hi(records, k + 1, hi)
            &&& child_lo(par, j, lo) == child_lo(records, j, lo)
            &&& child_hi(par, j, hi) == child_hi(records, j + 1, hi)
            &&& wf_subtree(
                after,
                l,
                hc,
                child_lo(records, j, lo),
                child_hi(records, j + 1, hi),
                t,
                (t - 1) as nat,
            )
            &&& forall|x: u64| #[trigger]
                in_subtree(after, l, hc, x) ==> (in_subtree(before, l, hc, x) || in_subtree(
                    before,
                    r,
                    hc,
                    x,
                )) && x != r
            &&& forall|key: K, data: u64| #[trigger]
                has_entry(after, l, hc, key, data) == around(
                    before,
                    l,
                    r,
                    hc,
                    records[j],
                    key,
                    data,
                )
            &&& forall|k: int|
                0 <= k < records.len() && k != j && k != j + 1 ==> same_subtree(
                    before,
                    after,
                    #[trigger] child_at(records, k),
                    hc,
                )
        }),
    ensures
        wf_subtree(after, n, h, lo, hi, t, (key_count(before[n]) - 1) as nat),
        forall|x: u64| #[trigger]
            in_subtree(after, n, h, x) ==> in_subtree(before, n, h, x) && x != child_at(
                before[n],
                j + 1,
            ),
        forall|key: K, data: u64| #[trigger]
            has_entry(after, n, h, key, data) == has_entry(before, n, h, key, data),
{
    let records = before[n];
    let par = merge_parent(records, j);
    let l = child_at(records, j);
    let r = child_at(records, j + 1);
    let hc = (h - 1) as nat;
    assert(in_subtree(before, r, hc, r));
    assert forall|k: int| 0 <= k < par.len() implies wf_subtree(
        after,
        #[trigger] child_at(par, k),
        hc,
        child_lo(par, k, lo),
        child_hi(par, k, hi),
        t,
        (t - 1) as nat,
    ) by {
        if k < j {
            assert(par[k] == records[k]);
            assert(child_at(par, k) == child_at(records, k));
            assert(same_subtree(before, after, child_at(records, k), hc));
            assert(child_hi(par, k, hi) == child_hi(records, k, hi));
        } else if k == j {
            assert(child_at(par, k) == l);
        } else {
            assert(par[k] == records[k + 1]);
            assert(child_at(par, k) == child_at(records, k + 1));
            assert(same_subtree(before, after, child_at(records, k + 1), hc));
            assert(child_hi(par, k, hi) == child_hi(records, k + 1, hi));
        }
    }
    assert forall|x: u64| #[trigger] in_subtree(after, n, h, x) implies in_subtree(
        before,
        n,
        h,
        x,
    ) && x != r by {
        if x != n {
            let k = choose|k: int|
                0 <= k < par.len() && par[k].child_lba is Some && in_subtree(
                    after,
                    #[trigger] child_at(par, k),
                    hc,
                    x,
                );
            lemma_child_subtree(before, n, h, j);
            lemma_child_subtree(before, n, h, j + 1);
            if k < j {
                assert(par[k] == records[k]);
                assert(child_at(par, k) == child_at(records, k));
                assert(same_subtree(before, after, child_at(records, k), hc));
                lemma_child_subtree(before, n, h, k);
                lemma_siblings_apart(before, n, h, lo, hi, t, least, j + 1, k, x);
            } else if k == j {
                assert(child_at(par, k) == l);
            } else {
                assert(par[k] == records[k + 1]);
                assert(child_at(par, k) == child_at(records, k + 1));
                assert(same_subtree(before, after, child_at(records, k + 1), hc));
                lemma_child_subtree(before, n, h, k + 1);
                lemma_siblings_apart(before, n, h, lo, hi, t, least, j + 1, k + 1, x);
            }
        }
    }
    assert(child_at(par, j) == l);
    assert forall|key: K, data: u64| #[trigger]
        has_entry(after, n, h, key, data) implies has_entry(before, n, h, key, data) by {
        if node_has(par, key, data) {
            let k = choose|k: int|
                0 <= k < par.len() && (#[trigger] par[k]).key == key && par[k].data_lba == data;
            if k < j {
                assert(par[k] == records[k]);
                assert(records[k].key == key && records[k].data_lba == data);
            } else if k == j {
                assert(records[j + 1].key == key && records[j + 1].data_lba == data);
            } else {
                assert(par[k] == records[k + 1]);
                assert(records[k + 1].key == key && records[k + 1].data_lba == data);
            }
            assert(node_has(records, key, data));
        } else {
            let k = choose|k: int|
                0 <= k < par.len() && par[k].child_lba is Some && has_entry(
                    after,
                    #[trigger] child_at(par, k),
                    hc,
                    key,
                    data,
                );
            if k < j {
                assert(par[k] == records[k]);
                assert(child_at(par, k) == child_at(records, k));
                assert(same_subtree(before, after, child_at(records, k), hc));
                assert(has_entry(before, child_at(records, k), hc, key, data));
            } else if k == j {
                assert(around(before, l, r, hc, records[j], key, data));
                if key == records[j].key && data == records[j].data_lba {
                    assert(node_has(records, key, data));
                } else if has_entry(before, l, hc, key, data) {
                    assert(has_entry(before, child_at(records, j), hc, key, data));
                } else {
                    assert(has_entry(before, child_at(records, j + 1), hc, key, data));
                }
            } else {
                assert(par[k] == records[k + 1]);
                assert(child_at(par, k) == child_at(records, k + 1));
                assert(same_subtree(before, after, child_at(records, k + 1), hc));
                assert(records[k + 1].child_lba is Some);
                assert(has_entry(before, child_at(records, k + 1), hc, key, data));
            }
        }
    }
    assert forall|key: K, data: u64| #[trigger]
        has_entry(before, n, h, key, data) implies has_entry(after, n, h, key, data) by {
        lemma_entries_key(before, n, h, lo, hi, t, least, key, data);
        if node_has(records, key, data) {
            let k = choose|k: int|
                0 <= k < records.len() && (#[trigger] records[k]).key == key && records[k].data_lba
                    == data;
            if k < j {
                assert(par[k] == records[k]);
                assert(par[k].key == key && par[k].data_lba == data);
                assert(node_has(par, key, data));
            } else if k == j {
                assert(around(before, l, r, hc, records[j], key, data));
                assert(par[j].child_lba is Some);
                assert(has_entry(after, child_at(par, j), hc, key, data));
            } else {
                assert(par[k - 1].key == key && par[k - 1].data_lba == data);
                assert(node_has(par, key, data));
            }
        } else {
            let k = choose|k: int|
                0 <= k < records.len() && records[k].child_lba is Some && has_entry(
                    before,
                    #[trigger] child_at(records, k),
                    hc,
                    key,
                    data,
                );
            if k < j {
                assert(par[k] == records[k]);
                assert(same_subtree(before, after, child_at(records, k), hc));
                assert(child_at(par, k) == child_at(records, k));
                assert(par[k].child_lba is Some);
                assert(has_entry(after, child_at(par, k), hc, key, data));
            } else if k > j + 1 {
                assert(par[k - 1] == records[k]);
                assert(same_subtree(before, after, child_at(records, k), hc));
                assert(child_at(par, k - 1) == child_at(records, k));
                assert(par[k - 1].child_lba is Some);
                assert(has_entry(after, child_at(par, k - 1), hc, key, data));
            } else {
                assert(around(before, l, r, hc, records[j], key, data));
                assert(par[j].child_lba is Some);
                assert(has_entry(after, child_at(par, j), hc, key, data));
            }
        }
    }
}

/// Pulling the records of the only child of a root without keys into the
/// root makes a B-tree one level lower with the same entries, without the
/// page of the child.
pub proof fn lemma_collapsed<K: BTreeKey>(
    before: Map<u64, Seq<BTreeRecord<K>>>,
    root: u64,
    h: nat,
    lo: int,
    hi: int,
    t: nat,
)
    requires
        t >= 2,
        h > 0,
        wf_subtree(before, root, h, lo, hi, t, 0),
        key_count(before[root]) == 0,
    ensures
        ({
            let c = child_at(before[root], 0);
            let after = before.insert(root, before[c]).insert(c, Seq::empty());
            &&& c != root
            &&& before[root].len() == 1
            &&& before[root][0].child_lba is Some
            &&& wf_subtree(after, root, (h - 1) as nat, lo, hi, t, (t - 1) as nat)
            &&& after[root] == before[c]
            &&& forall|x: u64| #[trigger]
                in_subtree(after, root, (h - 1) as nat, x) ==> in_subtree(before, root, h, x) && x
                    != c
            &&& forall|key: K, data: u64| #[trigger]
                has_entry(after, root, (h - 1) as nat, key, data) == has_entry(
                    before,
                    root,
                    h,
                    key,
                    data,
                )
        }),
{
    let top = before[root];
    let c = child_at(top, 0);
    let records = before[c];
    let after = before.insert(root, records).insert(c, Seq::empty());
    let hc = (h - 1) as nat;
    assert(top.len() == 1);
    assert(top[0].child_lba is Some);
    assert(child_lo(top, 0, lo) == lo && child_hi(top, 0, hi) == hi);
    assert(wf_subtree(before, c, hc, lo, hi, t, (t - 1) as nat));
    lemma_above(before, root, h, lo, hi, t, 0, 0);
    assert(in_subtree(before, c, hc, c));
    assert(c != root);
    assert(after[root] == records);
    lemma_node_view(before, c, hc, lo, hi, t, (t - 1) as nat);
    lemma_node_view(after, root, hc, lo, hi, t, (t - 1) as nat);
    assert forall|x: u64| #[trigger] reach_in(before, records, hc, x) implies after[x]
        == before[x] && x != c && in_subtree(before, root, h, x) by {
        assert(in_subtree(before, c, hc, x));
        lemma_child_subtree(before, root, h, 0);
        let k = choose|k: int|
            0 <= k < records.len() && records[k].child_lba is Some && in_subtree(
                before,
                #[trigger] child_at(records, k),
                (hc - 1) as nat,
                x,
            );
        lemma_above(before, c, hc, lo, hi, t, (t - 1) as nat, k);
    }
    lemma_node_frame(before, after, records, hc, lo, hi, t);
    assert forall|key: K, data: u64| #[trigger]
        has_entry(after, root, hc, key, data) == has_entry(before, root, h, key, data) by {
        assert(has_entry(after, root, hc, key, data) == has_in(after, records, hc, key, data));
        assert(has_entry(before, c, hc, key, data) == has_in(before, records, hc, key, data));
        if has_entry(before, root, h, key, data) {
            if node_has(top, key, data) {
                let k = choose|k: int|
                    0 <= k < top.len() && (#[trigger] top[k]).key == key && top[k].data_lba == data;
            } else {
                let k = choose|k: int|
                    0 <= k < top.len() && top[k].child_lba is Some && has_entry(
                        before,
                        #[trigger] child_at(top, k),
                        hc,
                        key,
                        data,
                    );
            }
        }
        if has_entry(before, c, hc, key, data) {
            assert(has_entry(before, child_at(top, 0), hc, key, data));
        }
    }
}

/// A leaf without one of its records is a leaf with one key less, without
/// the entry of that record.
pub proof fn lemma_leaf_remove<K: BTreeKey>(
    before: Map<u64, Seq<BTreeRecord<K>>>,
    lba: u64,
    lo: int,
    hi: int,
    t: nat,
    least: nat,
    i: int,
)
    requires
        wf_subtree(before, lba, 0, lo, hi, t, least),
        0 <= i < before[lba].len(),
    ensures
        ({
            let after = before.insert(lba, before[lba].remove(i));
            &&& wf_subtree(after, lba, 0, lo, hi, t, (key_count(before[lba]) - 1) as nat)
            &&& key_count(after[lba]) == key_count(before[lba]) - 1
            &&& forall|key: K, data: u64| #[trigger]
                has_entry(after, lba, 0, key, data) == (has_entry(before, lba, 0, key, data) && key
                    != before[lba][i].key)
        }),
{
    let old_records = before[lba];
    let records = old_records.remove(i);
    let after = before.insert(lba, records);
    assert(forall|j: int| 0 <= j < i ==> records[j] == old_records[j]);
    assert(forall|j: int| i <= j < records.len() ==> records[j] == old_records[j + 1]);
    assert(old_records[old_records.len() - 1].child_lba is None);
    if records.len() > 0 {
        let last = records.len() - 1;
        assert(records[last].child_lba is None) by {
            if last < i {
                assert(old_records[last].child_lba is None);
            } else {
                assert(old_records[last + 1].child_lba is None);
            }
        }
        assert(records.last().key != K::sentinel()) by {
            if last < i {
                assert(old_records[last].key != K::sentinel());
            } else {
                assert(old_records[last + 1].key != K::sentinel());
            }
        }
    }
    assert(strictly_sorted(records)) by {
        assert forall|a: int, b: int| 0 <= a < b < records.len() implies (#[trigger] records[a]).key.rank()
            < (#[trigger] records[b]).key.rank() by {
            let ka = if a < i {
                a
            } else {
                a + 1
            };
            let kb = if b < i {
                b
            } else {
                b + 1
            };
            assert(old_records[ka].key.rank() < old_records[kb].key.rank());
        }
    }
    assert(leaf_shape(records)) by {
        assert forall|j: int| 0 <= j < records.len() implies (#[trigger] records[j]).child_lba is None
            && records[j].key != K::sentinel() by {
            if j < i {
                assert(old_records[j].child_lba is None);
            } else {
                assert(old_records[j + 1].child_lba is None);
            }
        }
    }
    assert(keys_within(records, lo, hi)) by {
        assert forall|j: int|
            0 <= j < records.len() && (#[trigger] records[j]).key != K::sentinel() implies lo
            < records[j].key.rank() < hi by {
            if j < i {
                assert(old_records[j].key != K::sentinel());
            } else {
                assert(old_records[j + 1].key != K::sentinel());
            }
        }
    }
    assert forall|key: K, data: u64| #[trigger]
        has_entry(after, lba, 0, key, data) == (has_entry(before, lba, 0, key, data) && key
            != old_records[i].key) by {
        if node_has(records, key, data) {
            let j = choose|j: int|
                0 <= j < records.len() && (#[trigger] records[j]).key == key && records[j].data_lba
                    == data;
            let k = if j < i {
                j
            } else {
                j + 1
            };
            assert(old_records[k].key == key && old_records[k].data_lba == data);
            if k < i {
                assert(old_records[k].key.rank() < old_records[i].key.rank());
            } else {
                assert(old_records[i].key.rank() < old_records[k].key.rank());
            }
        }
        if node_has(old_records, key, data) && key != old_records[i].key {
            let j = choose|j: int|
                0 <= j < old_records.len() && (#[trigger] old_records[j]).key == key
                    && old_records[j].data_lba == data;
            if j < i {
                assert(records[j].key == key);
            } else {
                assert(records[j - 1].key == key && records[j - 1].data_lba == data);
            }
        }
    }
}

/// Putting another key in the place of key `i` of an internal node keeps
/// the B-tree where the new key lies between the keys below the children
/// on its two sides. The entry of the old key gives way to that of the new
/// one.
pub proof fn lemma_replaced<K: BTreeKey>(
    before: Map<u64, Seq<BTreeRecord<K>>>,
    n: u64,
    h: nat,
    lo: int,
    hi: int,
    t: nat,
    least: nat,
    i: int,
    entry: BTreeRecord<K>,
)
    requires
        t >= 2,
        h > 0,
        wf_subtree(before, n, h, lo, hi, t, least),
        0 <= i < before[n].len() - 1,
        entry.key != K::sentinel(),
        child_lo(before[n], i, lo) < entry.key.rank() < child_hi(before[n], i + 1, hi),
        wf_subtree(
            before,
            child_at(before[n], i),
            (h - 1) as nat,
            child_lo(before[n], i, lo),
            entry.key.rank() as int,
            t,
            (t - 1) as nat,
        ),
        wf_subtree(
            before,
            child_at(before[n], i + 1),
            (h - 1) as nat,
            entry.key.rank() as int,
            child_hi(before[n], i + 1, hi),
            t,
            (t - 1) as nat,
        ),
    ensures
        ({
            let after = before.insert(n, before[n].update(i, with_entry(before[n][i], entry)));
            &&& wf_subtree(after, n, h, lo, hi, t, least)
            &&& key_count(after[n]) == key_count(before[n])
            &&& forall|x: u64| #[trigger] in_subtree(after, n, h, x) ==> in_subtree(before, n, h, x)
            &&& forall|x: u64| #[trigger] in_subtree(before, n, h, x) ==> in_subtree(after, n, h, x)
            &&& forall|key: K, data: u64| #[trigger]
                has_entry(after, n, h, key, data) == ((has_entry(before, n, h, key, data) && key
                    != before[n][i].key) || (key == entry.key && data == entry.data_lba))
        }),
{
    let records = before[n];
    let par = records.update(i, with_entry(records[i], entry));
    let after = before.insert(n, par);
    let hc = (h - 1) as nat;
    let m = entry.key.rank() as int;
    assert(records[i].key != K::sentinel());
    lemma_child_bounds(records, i, lo, hi);
    lemma_child_bounds(records, i + 1, lo, hi);
    lemma_valid_below_top(entry.key);
    assert forall|k: int| 0 <= k < records.len() implies same_subtree(
        before,
        after,
        #[trigger] child_at(records, k),
        hc,
    ) by {
        let c = child_at(records, k);
        assert(records[k].child_lba is Some);
        lemma_above(before, n, h, lo, hi, t, least, k);
        assert forall|x: u64| #[trigger] in_subtree(before, c, hc, x) implies after[x]
            == before[x] by {}
        lemma_frame(before, after, c, hc);
    }
    assert(par.len() == records.len());
    assert(forall|k: int| 0 <= k < par.len() && k != i ==> par[k] == records[k]);
    assert(par[i] == with_entry(records[i], entry));
    assert(par.last() == records.last());
    assert(strictly_sorted(par)) by {
        assert forall|a: int, b: int| 0 <= a < b < par.len() implies (#[trigger] par[a]).key.rank()
            < (#[trigger] par[b]).key.rank() by {
            if a != i && b != i {
                assert(records[a].key.rank() < records[b].key.rank());
            } else if a == i {
                if b > i + 1 {
                    assert(records[i + 1].key.rank() < records[b].key.rank());
                }
                if i + 1 == records.len() - 1 {
                    assert(records[i + 1].key == K::sentinel());
                }
            } else {
                if a < i - 1 {
                    assert(records[a].key.rank() < records[i - 1].key.rank());
                }
            }
        }
    }
    assert(keys_within(par, lo, hi)) by {
        assert forall|k: int|
            0 <= k < par.len() && (#[trigger] par[k]).key != K::sentinel() implies lo
            < par[k].key.rank() < hi by {
            if k != i {
                assert(records[k].key != K::sentinel());
            }
        }
    }
    assert(internal_shape(par)) by {
        assert forall|k: int| 0 <= k < par.len() implies (#[trigger] par[k]).child_lba is Some by {
            assert(records[k].child_lba is Some);
        }
        assert forall|k: int| 0 <= k < par.len() - 1 implies (#[trigger] par[k]).key
            != K::sentinel() by {
            if k != i {
                assert(records[k].key != K::sentinel());
            }
        }
    }
    assert forall|k: int| 0 <= k < par.len() implies wf_subtree(
        after,
        #[trigger] child_at(par, k),
        hc,
        child_lo(par, k, lo),
        child_hi(par, k, hi),
        t,
        (t - 1) as nat,
    ) by {
        assert(child_at(par, k) == child_at(records, k));
        assert(same_subtree(before, after, child_at(records, k), hc));
        if k == i {
            assert(child_lo(par, k, lo) == child_lo(records, k, lo));
            assert(child_hi(par, k, hi) == m);
        } else if k == i + 1 {
            assert(child_lo(par, k, lo) == m);
            assert(child_hi(par, k, hi) == child_hi(records, k, hi));
        } else {
            assert(child_lo(par, k, lo) == child_lo(records, k, lo));
            assert(child_hi(par, k, hi) == child_hi(records, k, hi));
        }
    }
    assert(after[n] == par);
    assert forall|x: u64| #[trigger] in_subtree(after, n, h, x) implies in_subtree(
        before,
        n,
        h,
        x,
    ) by {
        if x != n {
            let k = choose|k: int|
                0 <= k < par.len() && par[k].child_lba is Some && in_subtree(
                    after,
                    #[trigger] child_at(par, k),
                    hc,
                    x,
                );
            assert(child_at(par, k) == child_at(records, k));
            assert(same_subtree(before, after, child_at(records, k), hc));
            assert(records[k].child_lba is Some);
            assert(in_subtree(before, child_at(records, k), hc, x));
        }
    }
    assert forall|x: u64| #[trigger] in_subtree(before, n, h, x) implies in_subtree(
        after,
        n,
        h,
        x,
    ) by {
        if x != n {
            let k = choose|k: int|
                0 <= k < records.len() && records[k].child_lba is Some && in_subtree(
                    before,
                    #[trigger] child_at(records, k),
                    hc,
                    x,
                );
            assert(child_at(par, k) == child_at(records, k));
            assert(same_subtree(before, after, child_at(records, k), hc));
            assert(par[k].child_lba is Some);
            assert(in_subtree(after, child_at(par, k), hc, x));
        }
    }
    assert forall|key: K, data: u64| #[trigger]
        has_entry(after, n, h, key, data) == ((has_entry(before, n, h, key, data) && key
            != records[i].key) || (key == entry.key && data == entry.data_lba)) by {
        if has_entry(after, n, h, key, data) {
            if node_has(par, key, data) {
                let k = choose|k: int|
                    0 <= k < par.len() && (#[trigger] par[k]).key == key && par[k].data_lba == data;
                if k != i {
                    assert(records[k].key == key && records[k].data_lba == data);
                    assert(node_has(records, key, data));
                    if k < i {
                        assert(records[k].key.rank() < records[i].key.rank());
                    } else {
                        assert(records[i].key.rank() < records[k].key.rank());
                    }
                }
            } else {
                let k = choose|k: int|
                    0 <= k < par.len() && par[k].child_lba is Some && has_entry(
                        after,
                        #[trigger] child_at(par, k),
                        hc,
                        key,
                        data,
                    );
                assert(child_at(par, k) == child_at(records, k));
                assert(same_subtree(before, after, child_at(records, k), hc));
                assert(records[k].child_lba is Some);
                assert(has_entry(before, child_at(records, k), hc, key, data));
                if key == records[i].key {
                    assert(has_entry(before, n, h, key, data));
                    lemma_entries_within(
                        before,
                        child_at(records, k),
                        hc,
                        child_lo(records, k, lo),
                        child_hi(records, k, hi),
                        t,
                        (t - 1) as nat,
                        key,
                        data,
                    );
                    if k <= i {
                        if k < i {
                            assert(records[k].key.rank() < records[i].key.rank());
                        }
                    } else {
                        if k - 1 > i {
                            assert(records[i].key.rank() < records[k - 1].key.rank());
                        }
                    }
                }
            }
        }
        if has_entry(before, n, h, key, data) && key != records[i].key {
            if node_has(records, key, data) {
                let k = choose|k: int|
                    0 <= k < records.len() && (#[trigger] records[k]).key == key
                        && records[k].data_lba == data;
                assert(par[k].key == key && par[k].data_lba == data);
                assert(node_has(par, key, data));
            } else {
                let k = choose|k: int|
                    0 <= k < records.len() && records[k].child_lba is Some && has_entry(
                        before,
                        #[trigger] child_at(records, k),
                        hc,
                        key,
                        data,
                    );
                assert(child_at(par, k) == child_at(records, k));
                assert(same_subtree(before, after, child_at(records, k), hc));
                assert(par[k].child_lba is Some);
                assert(has_entry(after, child_at(par, k), hc, key, data));
            }
        }
        if key == entry.key && data == entry.data_lba {
            assert(par[i].key == key && par[i].data_lba == data);
            assert(node_has(par, key, data));
        }
    }
}

/// A B-tree holds a key with one data block only.
pub proof fn lemma_unique_data<K: BTreeKey>(
    pages: Map<u64, Seq<BTreeRecord<K>>>,
    lba: u64,
    h: nat,
    lo: int,
    hi: int,
    t: nat,
    least: nat,
    key: K,
    first: u64,
    second: u64,
)
    requires
        wf_subtree(pages, lba, h, lo, hi, t, least),
        has_entry(pages, lba, h, key, first),
        has_entry(pages, lba, h, key, second),
    ensures
        first == second,
    decreases h,
{
    let records = pages[lba];
    let hc = (h - 1) as nat;
    if node_has(records, key, first) {
        let a = choose|a: int|
            0 <= a < records.len() && (#[trigger] records[a]).key == key && records[a].data_lba
                == first;
        if node_has(records, key, second) {
            let b = choose|b: int|
                0 <= b < records.len() && (#[trigger] records[b]).key == key && records[b].data_lba
                    == second;
            if a < b {
                assert(records[a].key.rank() < records[b].key.rank());
            } else if b < a {
                assert(records[b].key.rank() < records[a].key.rank());
            }
        } else {
            let j = choose|j: int|
                0 <= j < records.len() && records[j].child_lba is Some && has_entry(
                    pages,
                    #[trigger] child_at(records, j),
                    hc,
                    key,
                    second,
                );
            lemma_outside_child(pages, lba, h, lo, hi, t, least, a, j, second);
        }
    } else {
        let i = choose|i: int|
            0 <= i < records.len() && records[i].child_lba is Some && has_entry(
                pages,
                #[trigger] child_at(records, i),
                hc,
                key,
                first,
            );
        if node_has(records, key, second) {
            let b = choose|b: int|
                0 <= b < records.len() && (#[trigger] records[b]).key == key && records[b].data_lba
                    == second;
            lemma_outside_child(pages, lba, h, lo, hi, t, least, b, i, first);
        } else {
            let j = choose|j: int|
                0 <= j < records.len() && records[j].child_lba is Some && has_entry(
                    pages,
                    #[trigger] child_at(records, j),
                    hc,
                    key,
                    second,
                );
            lemma_entries_within(
                pages,
                child_at(records, i),
                hc,
                child_lo(records, i, lo),
                child_hi(records, i, hi),
                t,
                (t - 1) as nat,
                key,
                first,
            );
            lemma_entries_within(
                pages,
                child_at(records, j),
                hc,
                child_lo(records, j, lo),
                child_hi(records, j, hi),
                t,
                (t - 1) as nat,
                key,
                second,
            );
            if i < j {
                if i < j - 1 {
                    assert(records[i].key.rank() < records[j - 1].key.rank());
                }
            } else if j < i {
                if j < i - 1 {
                    assert(records[j].key.rank() < records[i - 1].key.rank());
                }
            } else {
                lemma_unique_data(
                    pages,
                    child_at(records, i),
                    hc,
                    child_lo(records, i, lo),
                    child_hi(records, i, hi),
                    t,
                    (t - 1) as nat,
                    key,
                    first,
                    second,
                );
            }
        }
    }
}

/// A key of a node is no key below a child of the node.
pub proof fn lemma_outside_child<K: BTreeKey>(
    pages: Map<u64, Seq<BTreeRecord<K>>>,
    lba: u64,
    h: nat,
    lo: int,
    hi: int,
    t: nat,
    least: nat,
    a: int,
    j: int,
    data: u64,
)
    requires
        h > 0,
        wf_subtree(pages, lba, h, lo, hi, t, least),
        0 <= a < pages[lba].len(),
        0 <= j < pages[lba].len(),
        pages[lba][a].key != K::sentinel(),
    ensures
        !has_entry(pages, child_at(pages[lba], j), (h - 1) as nat, pages[lba][a].key, data),
{
    let records = pages[lba];
    let key = records[a].key;
    if has_entry(pages, child_at(records, j), (h - 1) as nat, key, data) {
        lemma_entries_within(
            pages,
            child_at(records, j),
            (h - 1) as nat,
            child_lo(records, j, lo),
            child_hi(records, j, hi),
            t,
            (t - 1) as nat,
            key,
            data,
        );
        if a < j {
            if a < j - 1 {
                assert(records[a].key.rank() < records[j - 1].key.rank());
            }
        } else if a > j {
            assert(records[j].key.rank() < records[a].key.rank());
        }
    }
}

/// The joined records are one more than the keys of the left node and the
/// records of the right node.
pub proof fn lemma_join_len<K: BTreeKey>(
    left: Seq<BTreeRecord<K>>,
    middle: BTreeRecord<K>,
    right: Seq<BTreeRecord<K>>,
)
    ensures
        joined(left, middle, right).len() == key_count(left) + 1 + right.len(),
        key_count(left) + key_count(right) + 1 <= joined(left, middle, right).len(),
{
}

} // verus!
