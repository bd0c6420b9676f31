//! The keys of a B-tree in order, and how many they are at the least.

use vstd::prelude::*;
use crate::btree_key::BTreeKey;
use crate::btree_record::BTreeRecord;
use crate::tree::{
    child_at, child_hi, child_lo, has_entry, in_subtree, key_count, keys_within,
    lemma_child_bounds, node_has, wf_subtree,
};

verus! {

/// The keys of the first `n` records of page `lba` and of the subtrees
/// below them, from left to right: for each record the keys below its
/// child, then its own key.
pub open spec fn keys_upto<K: BTreeKey>(
    pages: Map<u64, Seq<BTreeRecord<K>>>,
    lba: u64,
    h: nat,
    n: nat,
) -> Seq<K>
    decreases h, n,
{
    if n == 0 {
        Seq::empty()
    } else {
        let i = (n - 1) as int;
        let record = pages[lba][i];
        let below = if h > 0 && record.child_lba is Some {
            keys_upto(
                pages,
                child_at(pages[lba], i),
                (h - 1) as nat,
                pages[child_at(pages[lba], i)].len(),
            )
        } else {
            Seq::empty()
        };
        let own = if record.key != K::sentinel() {
            seq![record.key]
        } else {
            Seq::empty()
        };
        keys_upto(pages, lba, h, (n - 1) as nat) + below + own
    }
}

/// The keys of the subtree of height `h` below page `lba`, from left to
/// right.
pub open spec fn keys_in_order<K: BTreeKey>(
    pages: Map<u64, Seq<BTreeRecord<K>>>,
    lba: u64,
    h: nat,
) -> Seq<K> {
    keys_upto(pages, lba, h, pages[lba].len())
}

/// Keys grow from place to place.
pub open spec fn increasing<K: BTreeKey>(keys: Seq<K>) -> bool {
    forall|a: int, b: int|
        0 <= a < b < keys.len() ==> (#[trigger] keys[a]).rank() < (#[trigger] keys[b]).rank()
}

/// Every key lies strictly between `lo` and `hi`.
pub open spec fn all_within<K: BTreeKey>(keys: Seq<K>, lo: int, hi: int) -> bool {
    forall|a: int| 0 <= a < keys.len() ==> lo < (#[trigger] keys[a]).rank() < hi
}

/// `t` to the power of `h`.
pub open spec fn power(t: nat, h: nat) -> nat
    decreases h,
{
    if h == 0 {
        1
    } else {
        t * power(t, (h - 1) as nat)
    }
}

/// A power of a positive number is positive.
pub proof fn lemma_power_positive(t: nat, h: nat)
    requires
        t >= 1,
    ensures
        power(t, h) >= 1,
    decreases h,
{
    if h > 0 {
        lemma_power_positive(t, (h - 1) as nat);
        assert(t * power(t, (h - 1) as nat) >= 1) by (nonlinear_arith)
            requires
                t >= 1,
                power(t, (h - 1) as nat) >= 1,
        ;
    }
}

/// The keys of the first `n` records of a node of a B-tree and of the
/// subtrees below them grow from left to right, lie within the bounds of
/// the tree, and are not above the key of record `n - 1`.
pub proof fn lemma_keys_upto<K: BTreeKey>(
    pages: Map<u64, Seq<BTreeRecord<K>>>,
    lba: u64,
    h: nat,
    lo: int,
    hi: int,
    t: nat,
    least: nat,
    n: nat,
)
    requires
        wf_subtree(pages, lba, h, lo, hi, t, least),
        n <= pages[lba].len(),
    ensures
        increasing(keys_upto(pages, lba, h, n)),
        all_within(keys_upto(pages, lba, h, n), lo, hi),
        n >= 1 && pages[lba][n - 1].key != K::sentinel() ==> all_within(
            keys_upto(pages, lba, h, n),
            lo,
            (pages[lba][n - 1].key.rank() + 1) as int,
        ),
    decreases h, n,
{
    let records = pages[lba];
    let all = keys_upto(pages, lba, h, n);
    if n > 0 {
        let i = (n - 1) as int;
        let record = records[i];
        let before = keys_upto(pages, lba, h, (n - 1) as nat);
        let below = if h > 0 && record.child_lba is Some {
            keys_upto(pages, child_at(records, i), (h - 1) as nat, pages[child_at(records, i)].len())
        } else {
            Seq::<K>::empty()
        };
        let own = if record.key != K::sentinel() {
            seq![record.key]
        } else {
            Seq::<K>::empty()
        };
        assert(all == before + below + own);
        lemma_keys_upto(pages, lba, h, lo, hi, t, least, (n - 1) as nat);
        let clo = child_lo(records, i, lo);
        let chi = child_hi(records, i, hi);
        if h > 0 {
            lemma_child_bounds(records, i, lo, hi);
            assert(record.child_lba is Some);
            assert(wf_subtree(
                pages,
                child_at(records, i),
                (h - 1) as nat,
                clo,
                chi,
                t,
                (t - 1) as nat,
            ));
            lemma_keys_upto(
                pages,
                child_at(records, i),
                (h - 1) as nat,
                clo,
                chi,
                t,
                (t - 1) as nat,
                pages[child_at(records, i)].len(),
            );
        } else {
            assert(record.key != K::sentinel());
            assert(keys_within(records, lo, hi));
        }
        if i > 0 {
            if h > 0 {
                assert(records[i - 1].key != K::sentinel());
            } else {
                assert(records[i - 1].key != K::sentinel());
                assert(records[i - 1].key.rank() < records[i].key.rank());
            }
        }
        assert(all_within(before, lo, clo + 1)) by {
            if i > 0 {
            } else {
                assert(before =~= Seq::<K>::empty());
            }
        }
        assert(all_within(below, clo, chi));
        assert forall|a: int| 0 <= a < all.len() implies lo < (#[trigger] all[a]).rank() < hi && (
        record.key != K::sentinel() ==> all[a].rank() <= record.key.rank()) by {
            if a < before.len() {
                assert(all[a] == before[a]);
                if record.key != K::sentinel() && i > 0 {
                    assert(records[i - 1].key.rank() < records[i].key.rank());
                }
                if h == 0 && record.key != K::sentinel() && i == 0 {
                }
            } else if a < before.len() + below.len() {
                assert(all[a] == below[a - before.len()]);
            } else {
                assert(all[a] == record.key);
            }
        }
        assert forall|a: int, b: int| 0 <= a < b < all.len() implies (#[trigger] all[a]).rank() < (
        #[trigger] all[b]).rank() by {
            let n1 = before.len() as int;
            let n2 = n1 + below.len();
            if b < n1 {
                assert(all[a] == before[a] && all[b] == before[b]);
            } else if b < n2 {
                assert(all[b] == below[b - n1]);
                if a < n1 {
                    assert(all[a] == before[a]);
                } else {
                    assert(all[a] == below[a - n1]);
                }
            } else {
                assert(all[b] == record.key);
                if a < n1 {
                    assert(all[a] == before[a]);
                    if i > 0 {
                        assert(records[i - 1].key.rank() < records[i].key.rank());
                    }
                } else {
                    assert(all[a] == below[a - n1]);
                }
            }
        }
    }
}

/// B-trees yield their keys in growing order: the keys of a B-tree, read
/// from left to right, grow from one to the next.
pub proof fn lemma_keys_in_order<K: BTreeKey>(
    pages: Map<u64, Seq<BTreeRecord<K>>>,
    lba: u64,
    h: nat,
    lo: int,
    hi: int,
    t: nat,
    least: nat,
)
    requires
        wf_subtree(pages, lba, h, lo, hi, t, least),
    ensures
        increasing(keys_in_order(pages, lba, h)),
        all_within(keys_in_order(pages, lba, h), lo, hi),
{
    lemma_keys_upto(pages, lba, h, lo, hi, t, least, pages[lba].len());
}

/// How many keys the first `n` records of a node of a B-tree and the
/// subtrees below them hold at the least.
pub proof fn lemma_keys_upto_count<K: BTreeKey>(
    pages: Map<u64, Seq<BTreeRecord<K>>>,
    lba: u64,
    h: nat,
    lo: int,
    hi: int,
    t: nat,
    least: nat,
    n: nat,
)
    requires
        t >= 2,
        wf_subtree(pages, lba, h, lo, hi, t, least),
        n <= pages[lba].len(),
    ensures
        h == 0 ==> keys_upto(pages, lba, h, n).len() == n,
        h > 0 && n < pages[lba].len() ==> keys_upto(pages, lba, h, n).len() >= n * power(t, h),
        h > 0 && n == pages[lba].len() ==> keys_upto(pages, lba, h, n).len() + 1 >= n * power(
            t,
            h,
        ),
    decreases h, n,
{
    let records = pages[lba];
    if n > 0 {
        let i = (n - 1) as int;
        let record = records[i];
        lemma_keys_upto_count(pages, lba, h, lo, hi, t, least, (n - 1) as nat);
        if h > 0 {
            let c = child_at(records, i);
            let hc = (h - 1) as nat;
            assert(record.child_lba is Some);
            assert(wf_subtree(
                pages,
                c,
                hc,
                child_lo(records, i, lo),
                child_hi(records, i, hi),
                t,
                (t - 1) as nat,
            ));
            lemma_keys_upto_count(
                pages,
                c,
                hc,
                child_lo(records, i, lo),
                child_hi(records, i, hi),
                t,
                (t - 1) as nat,
                pages[c].len(),
            );
            let below = keys_upto(pages, c, hc, pages[c].len());
            let p = power(t, hc);
            lemma_power_positive(t, hc);
            assert(power(t, h) == t * p);
            assert(below.len() + 1 >= t * p) by {
                if hc == 0 {
                    if pages[c].len() > 0 {
                        assert(pages[c][pages[c].len() - 1].child_lba is None);
                        assert(pages[c].last().key != K::sentinel());
                    }
                    assert(key_count(pages[c]) == pages[c].len());
                    assert(p == 1);
                    assert(t * p == t) by (nonlinear_arith)
                        requires
                            p == 1,
                    ;
                } else {
                    assert(pages[c].len() >= t);
                    assert(pages[c].len() * p >= t * p) by (nonlinear_arith)
                        requires
                            pages[c].len() >= t,
                            p >= 1,
                    ;
                }
            }
            let before = keys_upto(pages, lba, h, (n - 1) as nat);
            assert(before.len() >= (n - 1) * (t * p));
            assert(n * (t * p) == (n - 1) * (t * p) + t * p) by (nonlinear_arith);
            if n < records.len() {
                assert(record.key != K::sentinel());
            }
        } else {
            assert(record.key != K::sentinel());
        }
    } else {
        assert(0 * power(t, h) == 0) by (nonlinear_arith);
    }
}

/// A B-tree of height `h` whose root holds a key holds at least
/// `2 * t^h - 1` keys.
pub proof fn lemma_height_bound<K: BTreeKey>(
    pages: Map<u64, Seq<BTreeRecord<K>>>,
    lba: u64,
    h: nat,
    lo: int,
    hi: int,
    t: nat,
    least: nat,
)
    requires
        t >= 2,
        wf_subtree(pages, lba, h, lo, hi, t, least),
        key_count(pages[lba]) >= 1,
    ensures
        2 * power(t, h) <= keys_in_order(pages, lba, h).len() + 1,
{
    let records = pages[lba];
    lemma_keys_upto_count(pages, lba, h, lo, hi, t, least, records.len());
    if h == 0 {
        assert(records[records.len() - 1].child_lba is None);
        assert(records.last().key != K::sentinel());
    } else {
        let p = power(t, h);
        lemma_power_positive(t, h);
        assert(records.len() >= 2);
        assert(records.len() * p >= 2 * p) by (nonlinear_arith)
            requires
                records.len() >= 2,
                p >= 1,
        ;
    }
}

/// Every page of a B-tree holds no more than `2t - 1` keys, and every
/// page but the top holds `t - 1` keys at the least.
pub proof fn lemma_member_counts<K: BTreeKey>(
    pages: Map<u64, Seq<BTreeRecord<K>>>,
    lba: u64,
    h: nat,
    lo: int,
    hi: int,
    t: nat,
    least: nat,
    x: u64,
)
    requires
        wf_subtree(pages, lba, h, lo, hi, t, least),
        in_subtree(pages, lba, h, x),
    ensures
        key_count(pages[x]) <= 2 * t - 1,
        x != lba ==> t - 1 <= key_count(pages[x]),
        x == lba ==> least <= key_count(pages[x]),
    decreases h,
{
    let records = pages[lba];
    if x != lba {
        let i = choose|i: int|
            0 <= i < records.len() && records[i].child_lba is Some && in_subtree(
                pages,
                #[trigger] child_at(records, i),
                (h - 1) as nat,
                x,
            );
        lemma_member_counts(
            pages,
            child_at(records, i),
            (h - 1) as nat,
            child_lo(records, i, lo),
            child_hi(records, i, hi),
            t,
            (t - 1) as nat,
            x,
        );
    }
}

/// Whether the subtree below `lba` holds `key`, with whatever data block.
pub open spec fn holds_key<K: BTreeKey>(
    pages: Map<u64, Seq<BTreeRecord<K>>>,
    lba: u64,
    h: nat,
    key: K,
) -> bool {
    exists|data: u64| has_entry(pages, lba, h, key, data)
}

/// Whether `key` is a key of one of the first `n` records of page `lba`,
/// or of the subtree below one of them.
pub open spec fn held_upto<K: BTreeKey>(
    pages: Map<u64, Seq<BTreeRecord<K>>>,
    lba: u64,
    h: nat,
    n: nat,
    key: K,
) -> bool {
    ||| key != K::sentinel() && exists|i: int| 0 <= i < n && (#[trigger] pages[lba][i]).key == key
    ||| h > 0 && exists|i: int|
        0 <= i < n && pages[lba][i].child_lba is Some && holds_key(
            pages,
            #[trigger] child_at(pages[lba], i),
            (h - 1) as nat,
            key,
        )
}

/// The keys of a subtree in order are the keys that it holds.
pub proof fn lemma_keys_upto_held<K: BTreeKey>(
    pages: Map<u64, Seq<BTreeRecord<K>>>,
    lba: u64,
    h: nat,
    n: nat,
    key: K,
)
    requires
        n <= pages[lba].len(),
    ensures
        keys_upto(pages, lba, h, n).contains(key) == held_upto(pages, lba, h, n, key),
        n == pages[lba].len() ==> held_upto(pages, lba, h, n, key) == holds_key(pages, lba, h, key),
    decreases h, n,
{
    let records = pages[lba];
    let all = keys_upto(pages, lba, h, n);
    if n > 0 {
        let i = (n - 1) as int;
        let record = records[i];
        let before = keys_upto(pages, lba, h, (n - 1) as nat);
        let below = if h > 0 && record.child_lba is Some {
            keys_upto(pages, child_at(records, i), (h - 1) as nat, pages[child_at(records, i)].len())
        } else {
            Seq::<K>::empty()
        };
        let own = if record.key != K::sentinel() {
            seq![record.key]
        } else {
            Seq::<K>::empty()
        };
        assert(all == before + below + own);
        lemma_keys_upto_held(pages, lba, h, (n - 1) as nat, key);
        if h > 0 && record.child_lba is Some {
            lemma_keys_upto_held(
                pages,
                child_at(records, i),
                (h - 1) as nat,
                pages[child_at(records, i)].len(),
                key,
            );
        }
        let n1 = before.len() as int;
        let n2 = n1 + below.len();
        if all.contains(key) {
            let a = choose|a: int| 0 <= a < all.len() && all[a] == key;
            if a < n1 {
                assert(before[a] == key);
                assert(before.contains(key));
                assert(held_upto(pages, lba, h, (n - 1) as nat, key));
                if key != K::sentinel() && exists|j: int|
                    0 <= j < n - 1 && (#[trigger] records[j]).key == key {
                    let j = choose|j: int| 0 <= j < n - 1 && (#[trigger] records[j]).key == key;
                    assert(0 <= j < n && records[j].key == key);
                } else {
                    let j = choose|j: int|
                        0 <= j < n - 1 && records[j].child_lba is Some && holds_key(
                            pages,
                            #[trigger] child_at(records, j),
                            (h - 1) as nat,
                            key,
                        );
                    assert(0 <= j < n);
                }
            } else if a < n2 {
                assert(below[a - n1] == key);
                assert(below.contains(key));
                assert(holds_key(pages, child_at(records, i), (h - 1) as nat, key));
            } else {
                assert(record.key == key);
                assert(records[i].key == key);
            }
        }
        if held_upto(pages, lba, h, n, key) {
            if key != K::sentinel() && exists|j: int|
                0 <= j < n && (#[trigger] records[j]).key == key {
                let j = choose|j: int| 0 <= j < n && (#[trigger] records[j]).key == key;
                if j < n - 1 {
                    assert(held_upto(pages, lba, h, (n - 1) as nat, key));
                    let a = choose|a: int| 0 <= a < before.len() && before[a] == key;
                    assert(all[a] == key);
                } else {
                    assert(own[0] == key);
                    assert(all[n2] == key);
                }
            } else {
                let j = choose|j: int|
                    0 <= j < n && records[j].child_lba is Some && holds_key(
                        pages,
                        #[trigger] child_at(records, j),
                        (h - 1) as nat,
                        key,
                    );
                if j < n - 1 {
                    assert(held_upto(pages, lba, h, (n - 1) as nat, key));
                    let a = choose|a: int| 0 <= a < before.len() && before[a] == key;
                    assert(all[a] == key);
                } else {
                    assert(below.contains(key));
                    let a = choose|a: int| 0 <= a < below.len() && below[a] == key;
                    assert(all[n1 + a] == key);
                }
            }
        }
    }
    if n == records.len() {
        if holds_key(pages, lba, h, key) {
            let data = choose|data: u64| has_entry(pages, lba, h, key, data);
            if node_has(records, key, data) {
                let j = choose|j: int|
                    0 <= j < records.len() && (#[trigger] records[j]).key == key
                        && records[j].data_lba == data;
            } else {
                let j = choose|j: int|
                    0 <= j < records.len() && records[j].child_lba is Some && has_entry(
                        pages,
                        #[trigger] child_at(records, j),
                        (h - 1) as nat,
                        key,
                        data,
                    );
                assert(holds_key(pages, child_at(records, j), (h - 1) as nat, key));
            }
        }
        if held_upto(pages, lba, h, n, key) {
            if key != K::sentinel() && exists|j: int|
                0 <= j < n && (#[trigger] records[j]).key == key {
                let j = choose|j: int| 0 <= j < n && (#[trigger] records[j]).key == key;
                assert(node_has(records, key, records[j].data_lba));
                assert(has_entry(pages, lba, h, key, records[j].data_lba));
            } else {
                let j = choose|j: int|
                    0 <= j < n && records[j].child_lba is Some && holds_key(
                        pages,
                        #[trigger] child_at(records, j),
                        (h - 1) as nat,
                        key,
                    );
                let hc = (h - 1) as nat;
                let data = choose|data: u64| has_entry(pages, child_at(records, j), hc, key, data);
                assert(has_entry(pages, lba, h, key, data));
            }
        }
    }
}

} // verus!
