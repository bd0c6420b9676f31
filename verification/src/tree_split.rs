//! Splitting a full node in two around its middle key, and what the split
//! keeps of a B-tree.

use vstd::prelude::*;
use crate::btree_key::BTreeKey;
use crate::btree_record::BTreeRecord;
use crate::tree::{
    below_child, child_at, child_has, child_hi, child_lo, guard_for, has_entry, in_subtree,
    internal_shape, key_count, keys_within, leaf_shape, lemma_above, lemma_child_bounds,
    lemma_child_subtree, lemma_frame, lemma_siblings_apart, lemma_valid_below_top, node_has,
    same_subtree, strictly_sorted, wf_subtree,
};

verus! {

/// `record` with the child `child`.
pub open spec fn with_child<K: BTreeKey>(record: BTreeRecord<K>, child: u64) -> BTreeRecord<K> {
    BTreeRecord { child_lba: Some(child), data_lba: record.data_lba, key: record.key }
}

/// What stays in a node that is split at `mid`: the records before the
/// middle, and in an internal node a guard with the child of the middle.
pub open spec fn split_left<K: BTreeKey>(records: Seq<BTreeRecord<K>>, mid: int) -> Seq<
    BTreeRecord<K>,
> {
    if records[mid].child_lba is Some {
        records.take(mid).push(guard_for(child_at(records, mid)))
    } else {
        records.take(mid)
    }
}

/// What moves to the new node when a node is split at `mid`: the records
/// behind the middle.
pub open spec fn split_right<K: BTreeKey>(records: Seq<BTreeRecord<K>>, mid: int) -> Seq<
    BTreeRecord<K>,
> {
    records.skip(mid + 1)
}

/// The parent after its child at `at` was split: the middle record stands
/// before the record at `at` and points to the node that was split; the
/// record at `at` points to the new node.
pub open spec fn split_parent<K: BTreeKey>(
    parent: Seq<BTreeRecord<K>>,
    at: int,
    middle: BTreeRecord<K>,
    left: u64,
    right: u64,
) -> Seq<BTreeRecord<K>> {
    parent.update(at, with_child(parent[at], right)).insert(at, with_child(middle, left))
}

/// The two halves of a full node of a B-tree are B-trees on either side of
/// the middle key, made of the pages of the node and the new page, with
/// the entries of the node but for the middle record.
pub proof fn lemma_split_halves<K: BTreeKey>(
    before: Map<u64, Seq<BTreeRecord<K>>>,
    after: Map<u64, Seq<BTreeRecord<K>>>,
    c: u64,
    r: u64,
    h: nat,
    lo: int,
    hi: int,
    t: nat,
)
    requires
        t >= 2,
        wf_subtree(before, c, h, lo, hi, t, (t - 1) as nat),
        key_count(before[c]) == 2 * t - 1,
        after[c] == split_left(before[c], t - 1),
        after[r] == split_right(before[c], t - 1),
        h > 0 ==> forall|k: int|
            0 <= k < before[c].len() ==> same_subtree(
                before,
                after,
                #[trigger] child_at(before[c], k),
                (h - 1) as nat,
            ),
    ensures
        ({
            let middle = before[c][t - 1];
            &&& middle.key != K::sentinel()
            &&& lo < middle.key.rank() < hi
            &&& wf_subtree(after, c, h, lo, middle.key.rank() as int, t, (t - 1) as nat)
            &&& wf_subtree(after, r, h, middle.key.rank() as int, hi, t, (t - 1) as nat)
            &&& key_count(after[c]) == t - 1
            &&& key_count(after[r]) == t - 1
            &&& forall|x: u64| #[trigger] in_subtree(after, c, h, x) ==> in_subtree(before, c, h, x)
            &&& forall|x: u64| #[trigger]
                in_subtree(after, r, h, x) ==> x == r || in_subtree(before, c, h, x)
            &&& forall|key: K, data: u64| #[trigger]
                has_entry(before, c, h, key, data) == (has_entry(after, c, h, key, data)
                    || has_entry(after, r, h, key, data) || (key == middle.key && data
                    == middle.data_lba))
        }),
{
    let records = before[c];
    let mid = t - 1;
    let middle = records[mid];
    let left = split_left(records, mid);
    let right = split_right(records, mid);
    let m = middle.key.rank() as int;
    if h == 0 {
        assert(records[records.len() - 1].child_lba is None);
        assert(records.len() == 2 * t - 1);
        assert(middle.child_lba is None);
        assert(left =~= records.take(mid));
        assert(forall|j: int| 0 <= j < left.len() ==> left[j] == records[j]);
        assert(forall|j: int| 0 <= j < right.len() ==> right[j] == records[j + mid + 1]);
        assert(strictly_sorted(left));
        assert(strictly_sorted(right)) by {
            assert forall|a: int, b: int| 0 <= a < b < right.len() implies (#[trigger] right[a]).key.rank()
                < (#[trigger] right[b]).key.rank() by {
                assert(records[a + mid + 1].key.rank() < records[b + mid + 1].key.rank());
            }
        }
        assert(keys_within(left, lo, m)) by {
            assert forall|j: int|
                0 <= j < left.len() && (#[trigger] left[j]).key != K::sentinel() implies lo
                < left[j].key.rank() < m by {
                assert(records[j].key.rank() < records[mid].key.rank());
            }
        }
        assert(keys_within(right, m, hi)) by {
            assert forall|j: int|
                0 <= j < right.len() && (#[trigger] right[j]).key != K::sentinel() implies m
                < right[j].key.rank() < hi by {
                assert(records[mid].key.rank() < records[j + mid + 1].key.rank());
                assert(records[j + mid + 1].key != K::sentinel());
            }
        }
        assert(leaf_shape(left));
        assert(leaf_shape(right)) by {
            assert forall|j: int| 0 <= j < right.len() implies (#[trigger] right[j]).child_lba is None
                && right[j].key != K::sentinel() by {
                assert(records[j + mid + 1].child_lba is None);
            }
        }
        if left.len() > 0 {
            assert(left[left.len() - 1].child_lba is None);
        }
        if right.len() > 0 {
            assert(right[right.len() - 1].child_lba is None);
        }
        assert forall|key: K, data: u64| #[trigger]
            has_entry(before, c, h, key, data) == (has_entry(after, c, h, key, data) || has_entry(
                after,
                r,
                h,
                key,
                data,
            ) || (key == middle.key && data == middle.data_lba)) by {
            if node_has(records, key, data) {
                let j = choose|j: int|
                    0 <= j < records.len() && (#[trigger] records[j]).key == key
                        && records[j].data_lba == data;
                if j < mid {
                    assert(left[j].key == key);
                } else if j > mid {
                    assert(right[j - mid - 1].key == key);
                }
            }
            if node_has(left, key, data) {
                let j = choose|j: int|
                    0 <= j < left.len() && (#[trigger] left[j]).key == key && left[j].data_lba
                        == data;
                assert(records[j].key == key);
            }
            if node_has(right, key, data) {
                let j = choose|j: int|
                    0 <= j < right.len() && (#[trigger] right[j]).key == key && right[j].data_lba
                        == data;
                assert(records[j + mid + 1].key == key);
            }
            if key == middle.key && data == middle.data_lba {
                assert(records[mid].key == key);
            }
        }
    } else {
        assert(records.len() == 2 * t);
        assert(records[mid].child_lba is Some);
        assert(middle.key != K::sentinel());
        let g = guard_for::<K>(child_at(records, mid));
        assert(left == records.take(mid).push(g));
        assert(left.len() == mid + 1);
        assert(forall|j: int| 0 <= j < mid ==> left[j] == records[j]);
        assert(left[mid] == g);
        assert(forall|j: int| 0 <= j < right.len() ==> right[j] == records[j + mid + 1]);
        assert(right.len() == t);
        assert forall|j: int| 0 <= j < mid implies (#[trigger] left[j]).key.rank()
            < K::sentinel().rank() by {
            assert(records[j].key != K::sentinel());
            lemma_valid_below_top(records[j].key);
        }
        assert(strictly_sorted(left)) by {
            assert forall|a: int, b: int| 0 <= a < b < left.len() implies (#[trigger] left[a]).key.rank()
                < (#[trigger] left[b]).key.rank() by {
                if b < mid {
                    assert(records[a].key.rank() < records[b].key.rank());
                }
            }
        }
        assert(strictly_sorted(right)) by {
            assert forall|a: int, b: int| 0 <= a < b < right.len() implies (#[trigger] right[a]).key.rank()
                < (#[trigger] right[b]).key.rank() by {
                assert(records[a + mid + 1].key.rank() < records[b + mid + 1].key.rank());
            }
        }
        assert(keys_within(left, lo, m)) by {
            assert forall|j: int|
                0 <= j < left.len() && (#[trigger] left[j]).key != K::sentinel() implies lo
                < left[j].key.rank() < m by {
                assert(records[j].key.rank() < records[mid].key.rank());
            }
        }
        assert(keys_within(right, m, hi)) by {
            assert forall|j: int|
                0 <= j < right.len() && (#[trigger] right[j]).key != K::sentinel() implies m
                < right[j].key.rank() < hi by {
                assert(records[mid].key.rank() < records[j + mid + 1].key.rank());
                assert(records[j + mid + 1].key != K::sentinel());
            }
        }
        assert(internal_shape(left)) by {
            assert forall|j: int| 0 <= j < left.len() implies (#[trigger] left[j]).child_lba is Some by {
                if j < mid {
                    assert(records[j].child_lba is Some);
                }
            }
            assert forall|j: int| 0 <= j < left.len() - 1 implies (#[trigger] left[j]).key
                != K::sentinel() by {
                assert(records[j].key != K::sentinel());
            }
        }
        assert(internal_shape(right)) by {
            assert(right.last() == records.last());
            assert forall|j: int| 0 <= j < right.len() implies (#[trigger] right[j]).child_lba is Some by {
                assert(records[j + mid + 1].child_lba is Some);
            }
            assert forall|j: int| 0 <= j < right.len() - 1 implies (#[trigger] right[j]).key
                != K::sentinel() by {
                assert(records[j + mid + 1].key != K::sentinel());
            }
        }
        assert forall|j: int| 0 <= j < left.len() implies wf_subtree(
            after,
            #[trigger] child_at(left, j),
            (h - 1) as nat,
            child_lo(left, j, lo),
            child_hi(left, j, m),
            t,
            (t - 1) as nat,
        ) by {
            assert(child_at(left, j) == child_at(records, j));
            assert(same_subtree(before, after, child_at(records, j), (h - 1) as nat));
            assert(child_lo(left, j, lo) == child_lo(records, j, lo));
            assert(child_hi(left, j, m) == child_hi(records, j, hi));
        }
        assert forall|j: int| 0 <= j < right.len() implies wf_subtree(
            after,
            #[trigger] child_at(right, j),
            (h - 1) as nat,
            child_lo(right, j, m),
            child_hi(right, j, hi),
            t,
            (t - 1) as nat,
        ) by {
            let k = j + mid + 1;
            assert(child_at(right, j) == child_at(records, k));
            assert(same_subtree(before, after, child_at(records, k), (h - 1) as nat));
            assert(child_lo(right, j, m) == child_lo(records, k, lo));
            assert(child_hi(right, j, hi) == child_hi(records, k, hi));
        }
        assert forall|x: u64| #[trigger] in_subtree(after, c, h, x) implies in_subtree(
            before,
            c,
            h,
            x,
        ) by {
            if x != c {
                let j = choose|j: int|
                    0 <= j < left.len() && left[j].child_lba is Some && in_subtree(
                        after,
                        #[trigger] child_at(left, j),
                        (h - 1) as nat,
                        x,
                    );
                assert(child_at(left, j) == child_at(records, j));
                assert(same_subtree(before, after, child_at(records, j), (h - 1) as nat));
                assert(below_child(before, c, h, j, x));
            }
        }
        assert forall|x: u64| #[trigger] in_subtree(after, r, h, x) implies x == r || in_subtree(
            before,
            c,
            h,
            x,
        ) by {
            if x != r {
                let j = choose|j: int|
                    0 <= j < right.len() && right[j].child_lba is Some && in_subtree(
                        after,
                        #[trigger] child_at(right, j),
                        (h - 1) as nat,
                        x,
                    );
                let k = j + mid + 1;
                assert(child_at(right, j) == child_at(records, k));
                assert(same_subtree(before, after, child_at(records, k), (h - 1) as nat));
                assert(below_child(before, c, h, k, x));
            }
        }
        assert forall|key: K, data: u64| #[trigger]
            has_entry(before, c, h, key, data) == (has_entry(after, c, h, key, data) || has_entry(
                after,
                r,
                h,
                key,
                data,
            ) || (key == middle.key && data == middle.data_lba)) by {
            if node_has(records, key, data) {
                let j = choose|j: int|
                    0 <= j < records.len() && (#[trigger] records[j]).key == key
                        && records[j].data_lba == data;
                if j < mid {
                    assert(left[j].key == key);
                } else if j > mid {
                    assert(right[j - mid - 1].key == key);
                }
            } else if has_entry(before, c, h, key, data) {
                let j = choose|j: int|
                    0 <= j < records.len() && records[j].child_lba is Some && has_entry(
                        before,
                        #[trigger] child_at(records, j),
                        (h - 1) as nat,
                        key,
                        data,
                    );
                assert(same_subtree(before, after, child_at(records, j), (h - 1) as nat));
                if j <= mid {
                    assert(child_at(left, j) == child_at(records, j));
                    assert(child_has(after, c, h, j, key, data));
                } else {
                    assert(child_at(right, j - mid - 1) == child_at(records, j));
                    assert(child_has(after, r, h, j - mid - 1, key, data));
                }
            }
            if node_has(left, key, data) {
                let j = choose|j: int|
                    0 <= j < left.len() && (#[trigger] left[j]).key == key && left[j].data_lba
                        == data;
                assert(records[j].key == key);
            } else if has_entry(after, c, h, key, data) {
                let j = choose|j: int|
                    0 <= j < left.len() && left[j].child_lba is Some && has_entry(
                        after,
                        #[trigger] child_at(left, j),
                        (h - 1) as nat,
                        key,
                        data,
                    );
                assert(child_at(left, j) == child_at(records, j));
                assert(same_subtree(before, after, child_at(records, j), (h - 1) as nat));
                assert(child_has(before, c, h, j, key, data));
            }
            if node_has(right, key, data) {
                let j = choose|j: int|
                    0 <= j < right.len() && (#[trigger] right[j]).key == key && right[j].data_lba
                        == data;
                assert(records[j + mid + 1].key == key);
            } else if has_entry(after, r, h, key, data) {
                let j = choose|j: int|
                    0 <= j < right.len() && right[j].child_lba is Some && has_entry(
                        after,
                        #[trigger] child_at(right, j),
                        (h - 1) as nat,
                        key,
                        data,
                    );
                let k = j + mid + 1;
                assert(child_at(right, j) == child_at(records, k));
                assert(same_subtree(before, after, child_at(records, k), (h - 1) as nat));
                assert(child_has(before, c, h, k, key, data));
            }
            if key == middle.key && data == middle.data_lba {
                assert(records[mid].key == key);
            }
        }
    }
}

/// The page map after the full child `i` of node `n` was split, with the
/// new page `r`.
pub open spec fn after_split<K: BTreeKey>(
    before: Map<u64, Seq<BTreeRecord<K>>>,
    n: u64,
    i: int,
    r: u64,
    t: nat,
) -> Map<u64, Seq<BTreeRecord<K>>> {
    let c = child_at(before[n], i);
    before.insert(n, split_parent(before[n], i, before[c][t - 1], c, r)).insert(
        c,
        split_left(before[c], t - 1),
    ).insert(r, split_right(before[c], t - 1))
}

/// The records of a parent after a split are those of an internal node,
/// sorted and within the bounds, with the bounds of the children kept.
pub proof fn lemma_split_parent<K: BTreeKey>(
    records: Seq<BTreeRecord<K>>,
    i: int,
    middle: BTreeRecord<K>,
    c: u64,
    r: u64,
    lo: int,
    hi: int,
)
    requires
        internal_shape(records),
        strictly_sorted(records),
        keys_within(records, lo, hi),
        0 <= i < records.len(),
        middle.key != K::sentinel(),
        child_lo(records, i, lo) < middle.key.rank() < child_hi(records, i, hi),
    ensures
        ({
            let par = split_parent(records, i, middle, c, r);
            &&& par.len() == records.len() + 1
            &&& internal_shape(par)
            &&& strictly_sorted(par)
            &&& keys_within(par, lo, hi)
            &&& key_count(par) == key_count(records) + 1
            &&& par[i] == with_child(middle, c)
            &&& par[i + 1] == with_child(records[i], r)
            &&& forall|j: int| 0 <= j < i ==> #[trigger] par[j] == records[j]
            &&& forall|j: int| i + 1 < j < par.len() ==> #[trigger] par[j] == records[j - 1]
            &&& forall|j: int|
                0 <= j < i ==> child_lo(par, j, lo) == child_lo(records, j, lo) && #[trigger] child_hi(
                    par,
                    j,
                    hi,
                ) == child_hi(records, j, hi)
            &&& forall|j: int|
                i + 1 < j < par.len() ==> child_lo(par, j, lo) == child_lo(records, j - 1, lo)
                    && #[trigger] child_hi(par, j, hi) == child_hi(records, j - 1, hi)
            &&& child_lo(par, i, lo) == child_lo(records, i, lo)
            &&& child_hi(par, i, hi) == middle.key.rank()
            &&& child_lo(par, i + 1, lo) == middle.key.rank()
            &&& child_hi(par, i + 1, hi) == child_hi(records, i, hi)
        }),
{
    let par = split_parent(records, i, middle, c, r);
    let w = with_child(records[i], r);
    let s = with_child(middle, c);
    lemma_child_bounds(records, i, lo, hi);
    assert(par.len() == records.len() + 1);
    assert(forall|j: int| 0 <= j < i ==> par[j] == records[j]);
    assert(par[i] == s);
    assert(par[i + 1] == w);
    assert(forall|j: int| i + 1 < j < par.len() ==> par[j] == records[j - 1]);
    assert(par.last().key == K::sentinel() && par.last().data_lba == 0) by {
        if i == records.len() - 1 {
            assert(par.last() == w);
        } else {
            assert(par.last() == records.last());
        }
    }
    lemma_valid_below_top(middle.key);
    assert(strictly_sorted(par)) by {
        assert forall|a: int, b: int| 0 <= a < b < par.len() implies (#[trigger] par[a]).key.rank()
            < (#[trigger] par[b]).key.rank() by {
            let ka = if a <= i {
                a
            } else {
                a - 1
            };
            let kb = if b <= i {
                b
            } else {
                b - 1
            };
            if a != i && b != i {
                assert(records[ka].key.rank() < records[kb].key.rank());
            } else if a == i {
                if kb > i {
                    assert(records[i].key.rank() < records[kb].key.rank());
                }
                if i == records.len() - 1 {
                    assert(records[i].key == K::sentinel());
                }
            } else {
                if ka < i - 1 {
                    assert(records[ka].key.rank() < records[i - 1].key.rank());
                }
            }
        }
    }
    assert(keys_within(par, lo, hi)) by {
        assert forall|j: int|
            0 <= j < par.len() && (#[trigger] par[j]).key != K::sentinel() implies lo
            < par[j].key.rank() < hi by {
            if j < i {
                assert(records[j].key != K::sentinel());
            } else if j > i {
                assert(records[j - 1].key != K::sentinel());
            }
        }
    }
    assert(internal_shape(par)) by {
        assert forall|j: int| 0 <= j < par.len() implies (#[trigger] par[j]).child_lba is Some by {
            if j < i {
                assert(records[j].child_lba is Some);
            } else if j > i + 1 {
                assert(records[j - 1].child_lba is Some);
            }
        }
        assert forall|j: int| 0 <= j < par.len() - 1 implies (#[trigger] par[j]).key
            != K::sentinel() by {
            if j < i {
                assert(records[j].key != K::sentinel());
            } else if j > i {
                assert(records[j - 1].key != K::sentinel());
            }
        }
    }
}

/// Splitting a full child of a node that is not full keeps the B-tree and
/// its entries, and adds the new page to it.
#[verifier::rlimit(40)]
pub proof fn lemma_split<K: BTreeKey>(
    before: Map<u64, Seq<BTreeRecord<K>>>,
    n: u64,
    h: nat,
    lo: int,
    hi: int,
    t: nat,
    least: nat,
    i: int,
    r: u64,
)
    requires
        t >= 2,
        h > 0,
        wf_subtree(before, n, h, lo, hi, t, least),
        key_count(before[n]) < 2 * t - 1,
        0 <= i < before[n].len(),
        key_count(before[child_at(before[n], i)]) == 2 * t - 1,
        !in_subtree(before, n, h, r),
    ensures
        ({
            let after = after_split(before, n, i, r, t);
            let c = child_at(before[n], i);
            &&& wf_subtree(after, n, h, lo, hi, t, least)
            &&& key_count(after[n]) == key_count(before[n]) + 1
            &&& after[n] == split_parent(before[n], i, before[c][t - 1], c, r)
            &&& after[n].len() == before[n].len() + 1
            &&& after[n][i].key == before[c][t - 1].key
            &&& after[n][i].key != K::sentinel()
            &&& child_at(after[n], i) == c
            &&& child_at(after[n], i + 1) == r
            &&& key_count(after[c]) == t - 1
            &&& key_count(after[r]) == t - 1
            &&& forall|x: u64| #[trigger]
                in_subtree(after, n, h, x) ==> in_subtree(before, n, h, x) || x == r
            &&& forall|key: K, data: u64| #[trigger]
                has_entry(after, n, h, key, data) == has_entry(before, n, h, key, data)
        }),
{
    let after = after_split(before, n, i, r, t);
    let records = before[n];
    let c = child_at(records, i);
    let crecs = before[c];
    let mid = t - 1;
    let middle = crecs[mid];
    let m = middle.key.rank() as int;
    let clo = child_lo(records, i, lo);
    let chi = child_hi(records, i, hi);
    let hc = (h - 1) as nat;
    let par = split_parent(records, i, middle, c, r);
    lemma_above(before, n, h, lo, hi, t, least, i);
    lemma_child_subtree(before, n, h, i);
    assert(in_subtree(before, c, hc, c));
    assert(in_subtree(before, n, h, n));
    assert(c != n && r != n && r != c);
    assert(after[n] == par);
    assert(after[c] == split_left(crecs, mid));
    assert(after[r] == split_right(crecs, mid));
    assert(records[i].child_lba is Some);
    assert(wf_subtree(before, c, hc, clo, chi, t, (t - 1) as nat));
    if hc > 0 {
        assert forall|k: int| 0 <= k < crecs.len() implies same_subtree(
            before,
            after,
            #[trigger] child_at(crecs, k),
            (hc - 1) as nat,
        ) by {
            let g = child_at(crecs, k);
            assert(crecs[k].child_lba is Some);
            lemma_child_subtree(before, c, hc, k);
            lemma_above(before, c, hc, clo, chi, t, (t - 1) as nat, k);
            assert forall|x: u64| #[trigger]
                in_subtree(before, g, (hc - 1) as nat, x) implies after[x] == before[x] by {
                assert(in_subtree(before, c, hc, x));
                assert(in_subtree(before, n, h, x));
            }
            lemma_frame(before, after, g, (hc - 1) as nat);
        }
    }
    lemma_split_halves(before, after, c, r, hc, clo, chi, t);
    assert forall|j: int| 0 <= j < records.len() && j != i implies same_subtree(
        before,
        after,
        #[trigger] child_at(records, j),
        hc,
    ) by {
        let s = child_at(records, j);
        assert(records[j].child_lba is Some);
        lemma_above(before, n, h, lo, hi, t, least, j);
        lemma_child_subtree(before, n, h, j);
        assert forall|x: u64| #[trigger] in_subtree(before, s, hc, x) implies after[x]
            == before[x] by {
            lemma_siblings_apart(before, n, h, lo, hi, t, least, i, j, x);
            assert(in_subtree(before, n, h, x));
        }
        lemma_frame(before, after, s, hc);
    }
    lemma_split_parent(records, i, middle, c, r, lo, hi);
    lemma_split_assemble(before, after, n, h, lo, hi, t, least, i, r);
}

/// What `lemma_split` concludes, from what it has found of the halves, of
/// the other children, and of the parent.
#[verifier::rlimit(40)]
proof fn lemma_split_assemble<K: BTreeKey>(
    before: Map<u64, Seq<BTreeRecord<K>>>,
    after: Map<u64, Seq<BTreeRecord<K>>>,
    n: u64,
    h: nat,
    lo: int,
    hi: int,
    t: nat,
    least: nat,
    i: int,
    r: u64,
)
    requires
        t >= 2,
        h > 0,
        0 <= i < before[n].len(),
        internal_shape(before[n]),
        least <= key_count(before[n]) < 2 * t - 1,
        ({
            let records = before[n];
            let c = child_at(records, i);
            let middle = before[c][t - 1];
            let par = split_parent(records, i, middle, c, r);
            let m = middle.key.rank() as int;
            let hc = (h - 1) as nat;
            &&& after[n] == par
            &&& par.len() == records.len() + 1
            &&& internal_shape(par)
            &&& strictly_sorted(par)
            &&& keys_within(par, lo, hi)
            &&& key_count(par) == key_count(records) + 1
            &&& par[i] == with_child(middle, c)
            &&& par[i + 1] == with_child(records[i], r)
            &&& forall|j: int| 0 <= j < i ==> #[trigger] par[j] == records[j]
            &&& forall|j: int| i + 1 < j < par.len() ==> #[trigger] par[j] == records[j - 1]
            &&& forall|j: int|
                0 <= j < i ==> child_lo(par, j, lo) == child_lo(records, j, lo) && #[trigger] child_hi(
                    par,
                    j,
                    hi,
                ) == child_hi(records, j, hi)
            &&& forall|j: int|
                i + 1 < j < par.len() ==> child_lo(par, j, lo) == child_lo(records, j - 1, lo)
                    && #[trigger] child_hi(par, j, hi) == child_hi(records, j - 1, hi)
            &&& child_lo(par, i, lo) == child_lo(records, i, lo)
            &&& child_hi(par, i, hi) == m
            &&& child_lo(par, i + 1, lo) == m
            &&& child_hi(par, i + 1, hi) == child_hi(records, i, hi)
            &&& forall|j: int|
                0 <= j < records.len() && j != i ==> same_subtree(
                    before,
                    after,
                    #[trigger] child_at(records, j),
                    hc,
                )
            &&& forall|j: int|
                0 <= j < records.len() && j != i ==> wf_subtree(
                    before,
                    #[trigger] child_at(records, j),
                    hc,
                    child_lo(records, j, lo),
                    child_hi(records, j, hi),
                    t,
                    (t - 1) as nat,
                )
            &&& wf_subtree(after, c, hc, child_lo(records, i, lo), m, t, (t - 1) as nat)
            &&& wf_subtree(after, r, hc, m, child_hi(records, i, hi), t, (t - 1) as nat)
            &&& forall|x: u64| #[trigger] in_subtree(after, c, hc, x) ==> in_subtree(before, c, hc, x)
            &&& forall|x: u64| #[trigger]
                in_subtree(after, r, hc, x) ==> x == r || in_subtree(before, c, hc, x)
            &&& forall|key: K, data: u64| #[trigger]
                has_entry(before, c, hc, key, data) == (has_entry(after, c, hc, key, data)
                    || has_entry(after, r, hc, key, data) || (key == middle.key && data
                    == middle.data_lba))
            &&& middle.key != K::sentinel()
        }),
    ensures
        ({
            let c = child_at(before[n], i);
            &&& wf_subtree(after, n, h, lo, hi, t, least)
            &&& after[n][i].key == before[c][t - 1].key
            &&& child_at(after[n], i) == c
            &&& child_at(after[n], i + 1) == r
            &&& forall|x: u64| #[trigger]
                in_subtree(after, n, h, x) ==> in_subtree(before, n, h, x) || x == r
            &&& forall|key: K, data: u64| #[trigger]
                has_entry(after, n, h, key, data) == has_entry(before, n, h, key, data)
        }),
{
    let records = before[n];
    let c = child_at(records, i);
    let crecs = before[c];
    let middle = crecs[t - 1];
    let m = middle.key.rank() as int;
    let hc = (h - 1) as nat;
    let par = split_parent(records, i, middle, c, r);
    assert(records[i].child_lba is Some);
    assert forall|j: int| 0 <= j < par.len() implies wf_subtree(
        after,
        #[trigger] child_at(par, j),
        hc,
        child_lo(par, j, lo),
        child_hi(par, j, hi),
        t,
        (t - 1) as nat,
    ) by {
        if j < i {
            assert(par[j] == records[j]);
            assert(child_at(par, j) == child_at(records, j));
            assert(same_subtree(before, after, child_at(records, j), hc));
            assert(child_hi(par, j, hi) == child_hi(records, j, hi));
        } else if j == i {
            assert(child_at(par, j) == c);
        } else if j == i + 1 {
            assert(child_at(par, j) == r);
        } else {
            assert(par[j] == records[j - 1]);
            assert(child_at(par, j) == child_at(records, j - 1));
            assert(same_subtree(before, after, child_at(records, j - 1), hc));
            assert(child_hi(par, j, hi) == child_hi(records, j - 1, hi));
        }
    }
    assert forall|x: u64| #[trigger] in_subtree(after, n, h, x) implies in_subtree(
        before,
        n,
        h,
        x,
    ) || x == r by {
        if x != n {
            let j = choose|j: int|
                0 <= j < par.len() && par[j].child_lba is Some && in_subtree(
                    after,
                    #[trigger] child_at(par, j),
                    hc,
                    x,
                );
            if j < i {
                assert(par[j] == records[j]);
                assert(child_at(par, j) == child_at(records, j));
                assert(same_subtree(before, after, child_at(records, j), hc));
                assert(below_child(before, n, h, j, x));
            } else if j == i {
                assert(child_at(par, j) == c);
                assert(below_child(before, n, h, i, x));
            } else if j == i + 1 {
                assert(child_at(par, j) == r);
                if x != r {
                    assert(below_child(before, n, h, i, x));
                }
            } else {
                assert(par[j] == records[j - 1]);
                assert(child_at(par, j) == child_at(records, j - 1));
                assert(same_subtree(before, after, child_at(records, j - 1), hc));
                assert(below_child(before, n, h, j - 1, x));
            }
        }
    }
    assert forall|key: K, data: u64| #[trigger]
        has_entry(after, n, h, key, data) == has_entry(before, n, h, key, data) by {
        if node_has(par, key, data) {
            let j = choose|j: int|
                0 <= j < par.len() && (#[trigger] par[j]).key == key && par[j].data_lba == data;
            if j < i {
                assert(par[j] == records[j]);
                assert(records[j].key == key);
            } else if j == i {
                assert(has_entry(before, c, hc, key, data));
                assert(child_has(before, n, h, i, key, data));
            } else if j == i + 1 {
                assert(records[i].key == key);
            } else {
                assert(par[j] == records[j - 1]);
                assert(records[j - 1].key == key);
            }
        } else if has_entry(after, n, h, key, data) {
            let j = choose|j: int|
                0 <= j < par.len() && par[j].child_lba is Some && has_entry(
                    after,
                    #[trigger] child_at(par, j),
                    hc,
                    key,
                    data,
                );
            if j < i {
                assert(par[j] == records[j]);
                assert(child_at(par, j) == child_at(records, j));
                assert(same_subtree(before, after, child_at(records, j), hc));
                assert(child_has(before, n, h, j, key, data));
            } else if j == i {
                assert(child_at(par, j) == c);
                assert(has_entry(before, c, hc, key, data));
                assert(child_has(before, n, h, i, key, data));
            } else if j == i + 1 {
                assert(child_at(par, j) == r);
                assert(has_entry(before, c, hc, key, data));
                assert(child_has(before, n, h, i, key, data));
            } else {
                assert(par[j] == records[j - 1]);
                assert(child_at(par, j) == child_at(records, j - 1));
                assert(same_subtree(before, after, child_at(records, j - 1), hc));
                assert(child_has(before, n, h, j - 1, key, data));
            }
        }
        if node_has(records, key, data) {
            let j = choose|j: int|
                0 <= j < records.len() && (#[trigger] records[j]).key == key && records[j].data_lba
                    == data;
            if j < i {
                assert(par[j] == records[j]);
                assert(par[j].key == key);
            } else if j == i {
                assert(par[i + 1].key == key && par[i + 1].data_lba == data);
            } else {
                assert(par[j + 1] == records[j]);
                assert(par[j + 1].key == key && par[j + 1].data_lba == data);
            }
        } else if has_entry(before, n, h, key, data) {
            let j = choose|j: int|
                0 <= j < records.len() && records[j].child_lba is Some && has_entry(
                    before,
                    #[trigger] child_at(records, j),
                    hc,
                    key,
                    data,
                );
            if j < i {
                assert(par[j] == records[j]);
                assert(child_at(par, j) == child_at(records, j));
                assert(same_subtree(before, after, child_at(records, j), hc));
                assert(child_has(after, n, h, j, key, data));
            } else if j > i {
                assert(par[j + 1] == records[j]);
                assert(child_at(par, j + 1) == child_at(records, j));
                assert(same_subtree(before, after, child_at(records, j), hc));
                assert(child_has(after, n, h, j + 1, key, data));
            } else {
                if has_entry(after, c, hc, key, data) {
                    assert(child_at(par, i) == c);
                    assert(child_has(after, n, h, i, key, data));
                } else if has_entry(after, r, hc, key, data) {
                    assert(child_at(par, i + 1) == r);
                    assert(child_has(after, n, h, i + 1, key, data));
                } else {
                    assert(par[i].key == key && par[i].data_lba == data);
                }
            }
        }
    }
}

/// Moving the records of a full root to a new page, and leaving in the
/// root a guard that points to it, makes a B-tree one level higher with
/// the same entries.
pub proof fn lemma_root_moved<K: BTreeKey>(
    before: Map<u64, Seq<BTreeRecord<K>>>,
    root: u64,
    h: nat,
    lo: int,
    hi: int,
    t: nat,
    least: nat,
    l: u64,
)
    requires
        t >= 2,
        wf_subtree(before, root, h, lo, hi, t, least),
        key_count(before[root]) >= t - 1,
        !in_subtree(before, root, h, l),
    ensures
        ({
            let after = before.insert(l, before[root]).insert(root, seq![guard_for::<K>(l)]);
            &&& wf_subtree(after, root, h + 1, lo, hi, t, 0)
            &&& key_count(after[root]) == 0
            &&& after[l] == before[root]
            &&& child_at(after[root], 0) == l
            &&& forall|x: u64| #[trigger]
                in_subtree(after, root, h + 1, x) ==> in_subtree(before, root, h, x) || x == l
            &&& forall|key: K, data: u64| #[trigger]
                has_entry(after, root, h + 1, key, data) == has_entry(before, root, h, key, data)
        }),
{
    let after = before.insert(l, before[root]).insert(root, seq![guard_for::<K>(l)]);
    let records = before[root];
    let top = seq![guard_for::<K>(l)];
    assert(in_subtree(before, root, h, root));
    assert(l != root);
    assert(after[root] == top);
    assert(after[l] == records);
    assert(top[0] == guard_for::<K>(l));
    if h > 0 {
        assert forall|k: int| 0 <= k < records.len() implies same_subtree(
            before,
            after,
            #[trigger] child_at(records, k),
            (h - 1) as nat,
        ) by {
            let g = child_at(records, k);
            assert(records[k].child_lba is Some);
            lemma_child_subtree(before, root, h, k);
            lemma_above(before, root, h, lo, hi, t, least, k);
            assert forall|x: u64| #[trigger]
                in_subtree(before, g, (h - 1) as nat, x) implies after[x] == before[x] by {
                assert(in_subtree(before, root, h, x));
            }
            lemma_frame(before, after, g, (h - 1) as nat);
        }
        assert forall|k: int| 0 <= k < records.len() implies wf_subtree(
            after,
            #[trigger] child_at(records, k),
            (h - 1) as nat,
            child_lo(records, k, lo),
            child_hi(records, k, hi),
            t,
            (t - 1) as nat,
        ) by {
            assert(same_subtree(before, after, child_at(records, k), (h - 1) as nat));
        }
    }
    assert(wf_subtree(after, l, h, lo, hi, t, (t - 1) as nat));
    assert(strictly_sorted(top));
    assert(keys_within(top, lo, hi));
    assert(internal_shape(top));
    assert forall|j: int| 0 <= j < top.len() implies wf_subtree(
        after,
        #[trigger] child_at(top, j),
        h,
        child_lo(top, j, lo),
        child_hi(top, j, hi),
        t,
        (t - 1) as nat,
    ) by {
        assert(child_at(top, j) == l);
    }
    assert forall|x: u64| #[trigger] in_subtree(after, l, h, x) implies x == l || in_subtree(
        before,
        root,
        h,
        x,
    ) by {
        if x != l {
            let k = choose|k: int|
                0 <= k < records.len() && records[k].child_lba is Some && in_subtree(
                    after,
                    #[trigger] child_at(records, k),
                    (h - 1) as nat,
                    x,
                );
            assert(same_subtree(before, after, child_at(records, k), (h - 1) as nat));
            assert(below_child(before, root, h, k, x));
        }
    }
    assert forall|x: u64| #[trigger] in_subtree(after, root, h + 1, x) implies in_subtree(
        before,
        root,
        h,
        x,
    ) || x == l by {
        if x != root {
            let j = choose|j: int|
                0 <= j < top.len() && top[j].child_lba is Some && in_subtree(
                    after,
                    #[trigger] child_at(top, j),
                    h,
                    x,
                );
            assert(child_at(top, j) == l);
        }
    }
    assert forall|key: K, data: u64| #[trigger]
        has_entry(after, l, h, key, data) == has_entry(before, root, h, key, data) by {
        if has_entry(after, l, h, key, data) && !node_has(records, key, data) {
            let k = choose|k: int|
                0 <= k < records.len() && records[k].child_lba is Some && has_entry(
                    after,
                    #[trigger] child_at(records, k),
                    (h - 1) as nat,
                    key,
                    data,
                );
            assert(same_subtree(before, after, child_at(records, k), (h - 1) as nat));
            assert(child_has(before, root, h, k, key, data));
        }
        if has_entry(before, root, h, key, data) && !node_has(records, key, data) {
            let k = choose|k: int|
                0 <= k < records.len() && records[k].child_lba is Some && has_entry(
                    before,
                    #[trigger] child_at(records, k),
                    (h - 1) as nat,
                    key,
                    data,
                );
            assert(same_subtree(before, after, child_at(records, k), (h - 1) as nat));
            assert(child_has(after, l, h, k, key, data));
        }
    }
    assert forall|key: K, data: u64| #[trigger]
        has_entry(after, root, h + 1, key, data) == has_entry(before, root, h, key, data) by {
        if has_entry(after, root, h + 1, key, data) {
            if node_has(top, key, data) {
                let j = choose|j: int|
                    0 <= j < top.len() && (#[trigger] top[j]).key == key && top[j].data_lba == data;
            } else {
                let j = choose|j: int|
                    0 <= j < top.len() && top[j].child_lba is Some && has_entry(
                        after,
                        #[trigger] child_at(top, j),
                        h,
                        key,
                        data,
                    );
                assert(child_at(top, j) == l);
            }
        }
        if has_entry(before, root, h, key, data) {
            assert(has_entry(after, l, h, key, data));
            assert(child_at(top, 0) == l);
            assert(child_has(after, root, h + 1, 0, key, data));
        }
    }
}

} // verus!
