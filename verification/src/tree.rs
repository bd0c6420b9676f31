//! What makes the pages of an index a B-tree: the shape of a node, the
//! pages of a subtree, the keys it holds, and how these change when a page
//! is changed.

use vstd::prelude::*;
use crate::btree_key::BTreeKey;
use crate::btree_record::BTreeRecord;
use crate::bytes::Bytes;

verus! {

/// The child that a record of an internal node points to.
pub open spec fn child_at<K: BTreeKey>(records: Seq<BTreeRecord<K>>, i: int) -> u64 {
    records[i].child_lba->Some_0
}

/// The guard of an internal node: no key, and the rightmost child.
pub open spec fn guard_for<K: BTreeKey>(child: u64) -> BTreeRecord<K> {
    BTreeRecord { child_lba: Some(child), data_lba: 0, key: K::sentinel() }
}

/// Keys grow from record to record.
pub open spec fn strictly_sorted<K: BTreeKey>(records: Seq<BTreeRecord<K>>) -> bool {
    forall|i: int, j: int|
        0 <= i < j < records.len() ==> (#[trigger] records[i]).key.rank() < (
        #[trigger] records[j]).key.rank()
}

/// The records of a leaf: each with a key and without a child.
pub open spec fn leaf_shape<K: BTreeKey>(records: Seq<BTreeRecord<K>>) -> bool {
    forall|i: int|
        0 <= i < records.len() ==> (#[trigger] records[i]).child_lba is None && records[i].key
            != K::sentinel()
}

/// The records of an internal node: each with a child, the last of them
/// the guard, the others with a key.
pub open spec fn internal_shape<K: BTreeKey>(records: Seq<BTreeRecord<K>>) -> bool {
    &&& records.len() >= 1
    &&& records.last().key == K::sentinel()
    &&& records.last().data_lba == 0
    &&& forall|i: int| 0 <= i < records.len() ==> (#[trigger] records[i]).child_lba is Some
    &&& forall|i: int| 0 <= i < records.len() - 1 ==> (#[trigger] records[i]).key != K::sentinel()
}

/// Every key lies strictly between `lo` and `hi`.
pub open spec fn keys_within<K: BTreeKey>(records: Seq<BTreeRecord<K>>, lo: int, hi: int) -> bool {
    forall|i: int|
        0 <= i < records.len() && (#[trigger] records[i]).key != K::sentinel() ==> lo
            < records[i].key.rank() < hi
}

/// How many keys a node holds: its records, but for the guard.
pub open spec fn key_count<K: BTreeKey>(records: Seq<BTreeRecord<K>>) -> nat {
    if records.len() > 0 && records.last().key == K::sentinel() {
        (records.len() - 1) as nat
    } else {
        records.len()
    }
}

/// The lower bound of the keys below child `i`.
pub open spec fn child_lo<K: BTreeKey>(records: Seq<BTreeRecord<K>>, i: int, lo: int) -> int {
    if i == 0 {
        lo
    } else {
        records[i - 1].key.rank() as int
    }
}

/// The upper bound of the keys below child `i`.
pub open spec fn child_hi<K: BTreeKey>(records: Seq<BTreeRecord<K>>, i: int, hi: int) -> int {
    if i == records.len() - 1 {
        hi
    } else {
        records[i].key.rank() as int
    }
}

/// Whether page `x` belongs to the subtree of height `h` below page `lba`.
pub open spec fn in_subtree<K: BTreeKey>(
    pages: Map<u64, Seq<BTreeRecord<K>>>,
    lba: u64,
    h: nat,
    x: u64,
) -> bool
    decreases h,
{
    x == lba || (h > 0 && exists|i: int|
        0 <= i < pages[lba].len() && pages[lba][i].child_lba is Some && in_subtree(
            pages,
            #[trigger] child_at(pages[lba], i),
            (h - 1) as nat,
            x,
        ))
}

/// Whether page `x` belongs to the subtree below child `i` of page `lba`.
pub open spec fn below_child<K: BTreeKey>(
    pages: Map<u64, Seq<BTreeRecord<K>>>,
    lba: u64,
    h: nat,
    i: int,
    x: u64,
) -> bool {
    &&& h > 0
    &&& 0 <= i < pages[lba].len()
    &&& pages[lba][i].child_lba is Some
    &&& in_subtree(pages, child_at(pages[lba], i), (h - 1) as nat, x)
}

/// Whether a node itself holds `key` with the data block `data`.
pub open spec fn node_has<K: BTreeKey>(records: Seq<BTreeRecord<K>>, key: K, data: u64) -> bool {
    key != K::sentinel() && exists|i: int|
        0 <= i < records.len() && (#[trigger] records[i]).key == key && records[i].data_lba == data
}

/// Whether the subtree of height `h` below page `lba` holds `key` with
/// the data block `data`.
pub open spec fn has_entry<K: BTreeKey>(
    pages: Map<u64, Seq<BTreeRecord<K>>>,
    lba: u64,
    h: nat,
    key: K,
    data: u64,
) -> bool
    decreases h,
{
    ||| node_has(pages[lba], key, data)
    ||| (h > 0 && exists|i: int|
        0 <= i < pages[lba].len() && pages[lba][i].child_lba is Some && has_entry(
            pages,
            #[trigger] child_at(pages[lba], i),
            (h - 1) as nat,
            key,
            data,
        ))
}

/// Whether the subtree below child `i` of page `lba` holds `key` with the
/// data block `data`.
pub open spec fn child_has<K: BTreeKey>(
    pages: Map<u64, Seq<BTreeRecord<K>>>,
    lba: u64,
    h: nat,
    i: int,
    key: K,
    data: u64,
) -> bool {
    &&& h > 0
    &&& 0 <= i < pages[lba].len()
    &&& pages[lba][i].child_lba is Some
    &&& has_entry(pages, child_at(pages[lba], i), (h - 1) as nat, key, data)
}

/// Whether the subtree of height `h` below page `lba` is a B-tree of
/// minimum degree `t` with keys between `lo` and `hi`, whose top node holds
/// at least `least` keys: nodes are sorted and shaped, every node below the
/// top holds between `t - 1` and `2t - 1` keys, and the keys below a child
/// lie between the keys beside it.
pub open spec fn wf_subtree<K: BTreeKey>(
    pages: Map<u64, Seq<BTreeRecord<K>>>,
    lba: u64,
    h: nat,
    lo: int,
    hi: int,
    t: nat,
    least: nat,
) -> bool
    decreases h,
{
    let records = pages[lba];
    &&& strictly_sorted(records)
    &&& keys_within(records, lo, hi)
    &&& least <= key_count(records) <= 2 * t - 1
    &&& if h == 0 {
        leaf_shape(records)
    } else {
        &&& internal_shape(records)
        &&& forall|i: int|
            0 <= i < records.len() ==> wf_subtree(
                pages,
                #[trigger] child_at(records, i),
                (h - 1) as nat,
                child_lo(records, i, lo),
                child_hi(records, i, hi),
                t,
                (t - 1) as nat,
            )
    }
}

/// Whether the subtree below child `i` of page `lba` is a B-tree between
/// the keys beside the child.
pub open spec fn wf_child<K: BTreeKey>(
    pages: Map<u64, Seq<BTreeRecord<K>>>,
    lba: u64,
    h: nat,
    lo: int,
    hi: int,
    t: nat,
    i: int,
) -> bool {
    &&& h > 0
    &&& 0 <= i < pages[lba].len()
    &&& wf_subtree(
        pages,
        child_at(pages[lba], i),
        (h - 1) as nat,
        child_lo(pages[lba], i, lo),
        child_hi(pages[lba], i, hi),
        t,
        (t - 1) as nat,
    )
}

/// Whether two page maps hold the same records on the subtree of height
/// `h` below `lba`, as the first map has it.
pub open spec fn same_on_subtree<K: BTreeKey>(
    pages: Map<u64, Seq<BTreeRecord<K>>>,
    other: Map<u64, Seq<BTreeRecord<K>>>,
    lba: u64,
    h: nat,
) -> bool {
    forall|x: u64| #[trigger] in_subtree(pages, lba, h, x) ==> other[x] == pages[x]
}

/// Whether the subtree of height `h` below `lba` is the same in two page
/// maps: the same pages, the same entries, and a B-tree in one if it is in
/// the other.
pub open spec fn same_subtree<K: BTreeKey>(
    pages: Map<u64, Seq<BTreeRecord<K>>>,
    other: Map<u64, Seq<BTreeRecord<K>>>,
    lba: u64,
    h: nat,
) -> bool {
    &&& forall|x: u64| #[trigger] in_subtree(other, lba, h, x) == in_subtree(pages, lba, h, x)
    &&& forall|key: K, data: u64| #[trigger]
        has_entry(other, lba, h, key, data) == has_entry(pages, lba, h, key, data)
    &&& forall|lo: int, hi: int, t: nat, least: nat| #[trigger]
        wf_subtree(other, lba, h, lo, hi, t, least) == wf_subtree(pages, lba, h, lo, hi, t, least)
}

/// A subtree whose pages hold the same records in two maps is the same
/// subtree in both.
pub proof fn lemma_frame<K: BTreeKey>(
    pages: Map<u64, Seq<BTreeRecord<K>>>,
    other: Map<u64, Seq<BTreeRecord<K>>>,
    lba: u64,
    h: nat,
)
    requires
        same_on_subtree(pages, other, lba, h),
    ensures
        same_subtree(pages, other, lba, h),
    decreases h,
{
    assert(in_subtree(pages, lba, h, lba));
    let records = pages[lba];
    assert(other[lba] == records);
    if h > 0 {
        assert forall|i: int|
            0 <= i < records.len() && (#[trigger] records[i]).child_lba is Some implies same_subtree(
            pages,
            other,
            child_at(records, i),
            (h - 1) as nat,
        ) by {
            let c = child_at(records, i);
            assert forall|x: u64| #[trigger]
                in_subtree(pages, c, (h - 1) as nat, x) implies other[x] == pages[x] by {
                assert(below_child(pages, lba, h, i, x));
                assert(in_subtree(pages, lba, h, x));
            }
            lemma_frame(pages, other, c, (h - 1) as nat);
        }
        assert forall|i: int, x: u64|
            #![trigger below_child(other, lba, h, i, x)]
            #![trigger below_child(pages, lba, h, i, x)]
            below_child(other, lba, h, i, x) == below_child(pages, lba, h, i, x) by {
            if 0 <= i < records.len() && records[i].child_lba is Some {
                assert(same_subtree(pages, other, child_at(records, i), (h - 1) as nat));
            }
        }
        assert forall|i: int, key: K, data: u64|
            #![trigger child_has(other, lba, h, i, key, data)]
            #![trigger child_has(pages, lba, h, i, key, data)]
            child_has(other, lba, h, i, key, data) == child_has(pages, lba, h, i, key, data) by {
            if 0 <= i < records.len() && records[i].child_lba is Some {
                assert(same_subtree(pages, other, child_at(records, i), (h - 1) as nat));
            }
        }
    }
    assert forall|x: u64| #[trigger]
        in_subtree(other, lba, h, x) == in_subtree(pages, lba, h, x) by {
        if h > 0 {
            if in_subtree(other, lba, h, x) && x != lba {
                let i = choose|i: int|
                    0 <= i < records.len() && records[i].child_lba is Some && in_subtree(
                        other,
                        #[trigger] child_at(records, i),
                        (h - 1) as nat,
                        x,
                    );
                assert(below_child(other, lba, h, i, x));
                assert(below_child(pages, lba, h, i, x));
            }
            if in_subtree(pages, lba, h, x) && x != lba {
                let i = choose|i: int|
                    0 <= i < records.len() && records[i].child_lba is Some && in_subtree(
                        pages,
                        #[trigger] child_at(records, i),
                        (h - 1) as nat,
                        x,
                    );
                assert(below_child(pages, lba, h, i, x));
                assert(below_child(other, lba, h, i, x));
            }
        }
    }
    assert forall|key: K, data: u64| #[trigger]
        has_entry(other, lba, h, key, data) == has_entry(pages, lba, h, key, data) by {
        if h > 0 {
            if has_entry(other, lba, h, key, data) && !node_has(records, key, data) {
                let i = choose|i: int|
                    0 <= i < records.len() && records[i].child_lba is Some && has_entry(
                        other,
                        #[trigger] child_at(records, i),
                        (h - 1) as nat,
                        key,
                        data,
                    );
                assert(child_has(other, lba, h, i, key, data));
                assert(child_has(pages, lba, h, i, key, data));
            }
            if has_entry(pages, lba, h, key, data) && !node_has(records, key, data) {
                let i = choose|i: int|
                    0 <= i < records.len() && records[i].child_lba is Some && has_entry(
                        pages,
                        #[trigger] child_at(records, i),
                        (h - 1) as nat,
                        key,
                        data,
                    );
                assert(child_has(pages, lba, h, i, key, data));
                assert(child_has(other, lba, h, i, key, data));
            }
        }
    }
    assert forall|lo: int, hi: int, t: nat, least: nat| #[trigger]
        wf_subtree(other, lba, h, lo, hi, t, least) == wf_subtree(
            pages,
            lba,
            h,
            lo,
            hi,
            t,
            least,
        ) by {
        if h > 0 && internal_shape(records) {
            assert forall|i: int| 0 <= i < records.len() implies wf_subtree(
                other,
                #[trigger] child_at(records, i),
                (h - 1) as nat,
                child_lo(records, i, lo),
                child_hi(records, i, hi),
                t,
                (t - 1) as nat,
            ) == wf_subtree(
                pages,
                child_at(records, i),
                (h - 1) as nat,
                child_lo(records, i, lo),
                child_hi(records, i, hi),
                t,
                (t - 1) as nat,
            ) by {
                assert(records[i].child_lba is Some);
                assert(same_subtree(pages, other, child_at(records, i), (h - 1) as nat));
            }
        }
    }
}

/// The keys of a B-tree lie within its bounds.
pub proof fn lemma_entries_within<K: BTreeKey>(
    pages: Map<u64, Seq<BTreeRecord<K>>>,
    lba: u64,
    h: nat,
    lo: int,
    hi: int,
    t: nat,
    least: nat,
    key: K,
    data: u64,
)
    requires
        wf_subtree(pages, lba, h, lo, hi, t, least),
        has_entry(pages, lba, h, key, data),
    ensures
        lo < key.rank() < hi,
        key != K::sentinel(),
    decreases h,
{
    let records = pages[lba];
    if node_has(records, key, data) {
    } else {
        let i = choose|i: int|
            0 <= i < records.len() && records[i].child_lba is Some && has_entry(
                pages,
                #[trigger] child_at(records, i),
                (h - 1) as nat,
                key,
                data,
            );
        assert(wf_child(pages, lba, h, lo, hi, t, i));
        lemma_entries_within(
            pages,
            child_at(records, i),
            (h - 1) as nat,
            child_lo(records, i, lo),
            child_hi(records, i, hi),
            t,
            (t - 1) as nat,
            key,
            data,
        );
        K::lemma_sentinel_greatest(key);
        if i > 0 {
            assert(records[i - 1].key != K::sentinel());
        }
        if i < records.len() - 1 {
            assert(records[i].key != K::sentinel());
        }
    }
}

/// Whether `i` is the place of `key` in a sorted node: the first record
/// that is not below `key`, or the end where all are below it.
pub open spec fn is_slot<K: BTreeKey>(records: Seq<BTreeRecord<K>>, key: K, i: int) -> bool {
    &&& 0 <= i <= records.len()
    &&& forall|j: int| 0 <= j < i ==> (#[trigger] records[j]).key.rank() < key.rank()
    &&& i < records.len() ==> records[i].key.rank() >= key.rank()
}

/// In a leaf, `key` is found at its place or nowhere.
pub proof fn lemma_leaf_lookup<K: BTreeKey>(
    pages: Map<u64, Seq<BTreeRecord<K>>>,
    lba: u64,
    lo: int,
    hi: int,
    t: nat,
    least: nat,
    key: K,
    i: int,
)
    requires
        wf_subtree(pages, lba, 0, lo, hi, t, least),
        key != K::sentinel(),
        is_slot(pages[lba], key, i),
    ensures
        forall|data: u64|
            has_entry(pages, lba, 0, key, data) <==> i < pages[lba].len() && pages[lba][i].key
                == key && pages[lba][i].data_lba == data,
{
    let records = pages[lba];
    assert forall|data: u64| has_entry(pages, lba, 0, key, data) implies i < records.len()
        && records[i].key == key && records[i].data_lba == data by {
        let j = choose|j: int|
            0 <= j < records.len() && (#[trigger] records[j]).key == key && records[j].data_lba
                == data;
        if j < i {
            assert(records[j].key.rank() < key.rank());
        } else if j > i {
            assert(records[i].key.rank() < records[j].key.rank());
        }
    }
}

/// In an internal node, `key` is found at its place, or below the child at
/// its place, or nowhere.
pub proof fn lemma_descend<K: BTreeKey>(
    pages: Map<u64, Seq<BTreeRecord<K>>>,
    lba: u64,
    h: nat,
    lo: int,
    hi: int,
    t: nat,
    least: nat,
    key: K,
    i: int,
)
    requires
        h > 0,
        wf_subtree(pages, lba, h, lo, hi, t, least),
        key != K::sentinel(),
        lo < key.rank() < hi,
        is_slot(pages[lba], key, i),
    ensures
        i < pages[lba].len(),
        pages[lba][i].key == key ==> forall|data: u64|
            has_entry(pages, lba, h, key, data) <==> pages[lba][i].data_lba == data,
        pages[lba][i].key != key ==> {
            &&& child_lo(pages[lba], i, lo) < key.rank() < child_hi(pages[lba], i, hi)
            &&& !(exists|data: u64| node_has(pages[lba], key, data))
            &&& forall|j: int, data: u64|
                j != i ==> !#[trigger] child_has(pages, lba, h, j, key, data)
            &&& forall|data: u64|
                has_entry(pages, lba, h, key, data) <==> has_entry(
                    pages,
                    child_at(pages[lba], i),
                    (h - 1) as nat,
                    key,
                    data,
                )
        },
{
    let records = pages[lba];
    let last = records.len() - 1;
    K::lemma_sentinel_greatest(key);
    if i == records.len() {
        assert(records[last].key.rank() < key.rank());
    }
    if K::sentinel().rank() == key.rank() {
        K::lemma_rank_injective(K::sentinel(), key);
    }
    assert forall|j: int, data: u64| j != i implies !#[trigger] child_has(
        pages,
        lba,
        h,
        j,
        key,
        data,
    ) by {
        if child_has(pages, lba, h, j, key, data) {
            lemma_entries_within(
                pages,
                child_at(records, j),
                (h - 1) as nat,
                child_lo(records, j, lo),
                child_hi(records, j, hi),
                t,
                (t - 1) as nat,
                key,
                data,
            );
            if j < i {
                assert(records[j].key.rank() < key.rank());
            } else {
                assert(records[j - 1].key.rank() >= key.rank()) by {
                    if j - 1 > i {
                        assert(records[i].key.rank() < records[j - 1].key.rank());
                    }
                }
            }
        }
    }
    assert forall|j: int| 0 <= j < records.len() && (#[trigger] records[j]).key == key implies j
        == i by {
        if j < i {
            assert(records[j].key.rank() < key.rank());
        } else if j > i {
            assert(records[i].key.rank() < records[j].key.rank());
        }
    }
    if records[i].key == key {
        assert forall|data: u64| has_entry(pages, lba, h, key, data) implies records[i].data_lba
            == data by {
            if node_has(records, key, data) {
                let j = choose|j: int|
                    0 <= j < records.len() && (#[trigger] records[j]).key == key
                        && records[j].data_lba == data;
                assert(j == i);
            } else {
                let j = choose|j: int|
                    0 <= j < records.len() && records[j].child_lba is Some && has_entry(
                        pages,
                        #[trigger] child_at(records, j),
                        (h - 1) as nat,
                        key,
                        data,
                    );
                assert(child_has(pages, lba, h, j, key, data));
                if j == i {
                    lemma_entries_within(
                        pages,
                        child_at(records, j),
                        (h - 1) as nat,
                        child_lo(records, j, lo),
                        child_hi(records, j, hi),
                        t,
                        (t - 1) as nat,
                        key,
                        data,
                    );
                }
            }
        }
        assert forall|data: u64| records[i].data_lba == data implies has_entry(
            pages,
            lba,
            h,
            key,
            data,
        ) by {
            assert(node_has(records, key, data));
        }
    } else {
        if records[i].key.rank() == key.rank() {
            K::lemma_rank_injective(records[i].key, key);
        }
        if i > 0 {
            assert(records[i - 1].key.rank() < key.rank());
        }
        assert forall|data: u64| has_entry(pages, lba, h, key, data) implies has_entry(
            pages,
            child_at(records, i),
            (h - 1) as nat,
            key,
            data,
        ) by {
            if node_has(records, key, data) {
            } else {
                let j = choose|j: int|
                    0 <= j < records.len() && records[j].child_lba is Some && has_entry(
                        pages,
                        #[trigger] child_at(records, j),
                        (h - 1) as nat,
                        key,
                        data,
                    );
                assert(child_has(pages, lba, h, j, key, data));
            }
        }
        assert forall|data: u64|
            has_entry(pages, child_at(records, i), (h - 1) as nat, key, data) implies has_entry(
            pages,
            lba,
            h,
            key,
            data,
        ) by {
            assert(records[i].child_lba is Some);
        }
    }
}

/// The pages of the subtree below a child belong to the subtree.
pub proof fn lemma_child_subtree<K: BTreeKey>(
    pages: Map<u64, Seq<BTreeRecord<K>>>,
    lba: u64,
    h: nat,
    i: int,
)
    requires
        h > 0,
        0 <= i < pages[lba].len(),
        pages[lba][i].child_lba is Some,
    ensures
        forall|x: u64| #[trigger]
            in_subtree(pages, child_at(pages[lba], i), (h - 1) as nat, x) ==> in_subtree(
                pages,
                lba,
                h,
                x,
            ),
{
    assert forall|x: u64| #[trigger]
        in_subtree(pages, child_at(pages[lba], i), (h - 1) as nat, x) implies in_subtree(
        pages,
        lba,
        h,
        x,
    ) by {
        assert(below_child(pages, lba, h, i, x));
    }
}

/// Whether a page of the subtree of height `h` below page `lba` holds
/// `record`.
pub open spec fn holds_record<K: BTreeKey>(
    pages: Map<u64, Seq<BTreeRecord<K>>>,
    lba: u64,
    h: nat,
    record: BTreeRecord<K>,
) -> bool {
    exists|x: u64, i: int|
        in_subtree(pages, lba, h, x) && 0 <= i < pages[x].len() && #[trigger] pages[x][i]
            == record
}

/// A record of the top node is a record of the subtree.
pub proof fn lemma_holds_here<K: BTreeKey>(
    pages: Map<u64, Seq<BTreeRecord<K>>>,
    lba: u64,
    h: nat,
    i: int,
)
    requires
        0 <= i < pages[lba].len(),
    ensures
        holds_record(pages, lba, h, pages[lba][i]),
{
    assert(in_subtree(pages, lba, h, lba));
    assert(pages[lba][i] == pages[lba][i]);
}

/// A record of the subtree below a child is a record of the subtree.
pub proof fn lemma_holds_below<K: BTreeKey>(
    pages: Map<u64, Seq<BTreeRecord<K>>>,
    lba: u64,
    h: nat,
    i: int,
    record: BTreeRecord<K>,
)
    requires
        h > 0,
        0 <= i < pages[lba].len(),
        pages[lba][i].child_lba is Some,
        holds_record(pages, child_at(pages[lba], i), (h - 1) as nat, record),
    ensures
        holds_record(pages, lba, h, record),
{
    let hc = (h - 1) as nat;
    let child = child_at(pages[lba], i);
    let (x, at) = choose|x: u64, at: int|
        in_subtree(pages, child, hc, x) && 0 <= at < pages[x].len() && #[trigger] pages[x][at]
            == record;
    lemma_child_subtree(pages, lba, h, i);
    assert(in_subtree(pages, lba, h, x));
    assert(pages[x][at] == record);
}

/// A key that is not the sentinel is below the sentinel.
pub proof fn lemma_valid_below_top<K: BTreeKey>(key: K)
    requires
        key != K::sentinel(),
    ensures
        key.rank() < K::sentinel().rank(),
{
    K::lemma_sentinel_greatest(key);
    if key.rank() == K::sentinel().rank() {
        K::lemma_rank_injective(key, K::sentinel());
    }
}

/// The bounds of a child lie within the bounds of its node.
pub proof fn lemma_child_bounds<K: BTreeKey>(records: Seq<BTreeRecord<K>>, i: int, lo: int, hi: int)
    requires
        internal_shape(records),
        strictly_sorted(records),
        keys_within(records, lo, hi),
        0 <= i < records.len(),
    ensures
        lo <= child_lo(records, i, lo),
        child_hi(records, i, hi) <= hi,
        i > 0 ==> records[i - 1].key != K::sentinel(),
        i < records.len() - 1 ==> records[i].key != K::sentinel(),
{
    if i > 0 {
        assert(records[i - 1].key != K::sentinel());
    }
    if i < records.len() - 1 {
        assert(records[i].key != K::sentinel());
    }
}

/// Every page of a B-tree holds keys within the bounds of the tree only,
/// and every page but the top holds a key.
pub proof fn lemma_member<K: BTreeKey>(
    pages: Map<u64, Seq<BTreeRecord<K>>>,
    lba: u64,
    h: nat,
    lo: int,
    hi: int,
    t: nat,
    least: nat,
    x: u64,
)
    requires
        t >= 2,
        wf_subtree(pages, lba, h, lo, hi, t, least),
        in_subtree(pages, lba, h, x),
    ensures
        keys_within(pages[x], lo, hi),
        x != lba || least >= 1 ==> key_count(pages[x]) >= 1,
        key_count(pages[x]) >= 1 ==> pages[x].len() >= 1 && pages[x][0].key != K::sentinel(),
    decreases h,
{
    let records = pages[lba];
    if x == lba {
        if key_count(records) >= 1 {
            if h > 0 {
                assert(records[0].key != K::sentinel());
            } else {
                assert(records[0].key != K::sentinel());
            }
        }
    } else {
        let i = choose|i: int|
            0 <= i < records.len() && records[i].child_lba is Some && in_subtree(
                pages,
                #[trigger] child_at(records, i),
                (h - 1) as nat,
                x,
            );
        lemma_child_bounds(records, i, lo, hi);
        lemma_member(
            pages,
            child_at(records, i),
            (h - 1) as nat,
            child_lo(records, i, lo),
            child_hi(records, i, hi),
            t,
            (t - 1) as nat,
            x,
        );
        assert(keys_within(pages[x], lo, hi)) by {
            assert forall|j: int|
                0 <= j < pages[x].len() && (#[trigger] pages[x][j]).key != K::sentinel() implies lo
                < pages[x][j].key.rank() < hi by {}
        }
    }
}

/// Two B-trees with keys in ranges that do not meet share no page.
pub proof fn lemma_apart<K: BTreeKey>(
    pages: Map<u64, Seq<BTreeRecord<K>>>,
    a: u64,
    ha: nat,
    alo: int,
    ahi: int,
    b: u64,
    hb: nat,
    blo: int,
    bhi: int,
    t: nat,
    x: u64,
)
    requires
        t >= 2,
        wf_subtree(pages, a, ha, alo, ahi, t, (t - 1) as nat),
        wf_subtree(pages, b, hb, blo, bhi, t, (t - 1) as nat),
        ahi <= blo || bhi <= alo,
    ensures
        !(in_subtree(pages, a, ha, x) && in_subtree(pages, b, hb, x)),
{
    if in_subtree(pages, a, ha, x) && in_subtree(pages, b, hb, x) {
        lemma_member(pages, a, ha, alo, ahi, t, (t - 1) as nat, x);
        lemma_member(pages, b, hb, blo, bhi, t, (t - 1) as nat, x);
        assert(pages[x][0].key != K::sentinel());
    }
}

/// A node is no page of the subtrees below its children.
pub proof fn lemma_above<K: BTreeKey>(
    pages: Map<u64, Seq<BTreeRecord<K>>>,
    lba: u64,
    h: nat,
    lo: int,
    hi: int,
    t: nat,
    least: nat,
    i: int,
)
    requires
        t >= 2,
        h > 0,
        wf_subtree(pages, lba, h, lo, hi, t, least),
        0 <= i < pages[lba].len(),
    ensures
        !in_subtree(pages, child_at(pages[lba], i), (h - 1) as nat, lba),
{
    let records = pages[lba];
    let c = child_at(records, i);
    if in_subtree(pages, c, (h - 1) as nat, lba) {
        lemma_member(
            pages,
            c,
            (h - 1) as nat,
            child_lo(records, i, lo),
            child_hi(records, i, hi),
            t,
            (t - 1) as nat,
            lba,
        );
        assert(key_count(records) >= 1);
        if i < records.len() - 1 {
            assert(records[i].key != K::sentinel());
        } else {
            assert(records[i - 1].key != K::sentinel());
        }
    }
}

/// The subtrees below two children of a node share no page.
pub proof fn lemma_siblings_apart<K: BTreeKey>(
    pages: Map<u64, Seq<BTreeRecord<K>>>,
    lba: u64,
    h: nat,
    lo: int,
    hi: int,
    t: nat,
    least: nat,
    i: int,
    j: int,
    x: u64,
)
    requires
        t >= 2,
        h > 0,
        wf_subtree(pages, lba, h, lo, hi, t, least),
        0 <= i < pages[lba].len(),
        0 <= j < pages[lba].len(),
        i != j,
    ensures
        !(in_subtree(pages, child_at(pages[lba], i), (h - 1) as nat, x) && in_subtree(
            pages,
            child_at(pages[lba], j),
            (h - 1) as nat,
            x,
        )),
{
    let records = pages[lba];
    let (a, b) = if i < j {
        (i, j)
    } else {
        (j, i)
    };
    assert(child_hi(records, a, hi) <= child_lo(records, b, lo)) by {
        if a < b - 1 {
            assert(records[a].key.rank() < records[b - 1].key.rank());
        }
    }
    lemma_apart(
        pages,
        child_at(records, a),
        (h - 1) as nat,
        child_lo(records, a, lo),
        child_hi(records, a, hi),
        child_at(records, b),
        (h - 1) as nat,
        child_lo(records, b, lo),
        child_hi(records, b, hi),
        t,
        x,
    );
}

/// Whether every page in `used` that is no page of the subtree below
/// `lba` holds in `after` what it holds in `before`.
pub open spec fn changed_within<K: BTreeKey>(
    before: Map<u64, Seq<BTreeRecord<K>>>,
    after: Map<u64, Seq<BTreeRecord<K>>>,
    lba: u64,
    h: nat,
    used: Set<u64>,
) -> bool {
    forall|x: u64| used.contains(x) && !in_subtree(before, lba, h, x) ==> #[trigger] after[x] == before[x]
}

/// Whether every page of the subtree below `lba` in `after` is a page of
/// it in `before` or was not in `used`.
pub open spec fn grown_within<K: BTreeKey>(
    before: Map<u64, Seq<BTreeRecord<K>>>,
    after: Map<u64, Seq<BTreeRecord<K>>>,
    lba: u64,
    h: nat,
    used: Set<u64>,
) -> bool {
    forall|x: u64| #[trigger]
        in_subtree(after, lba, h, x) ==> in_subtree(before, lba, h, x) || !used.contains(x)
}

/// Whether the subtree below `lba` holds `key` with `data` in its top
/// node or below a child other than child `i`.
pub open spec fn has_beside<K: BTreeKey>(
    pages: Map<u64, Seq<BTreeRecord<K>>>,
    lba: u64,
    h: nat,
    i: int,
    key: K,
    data: u64,
) -> bool {
    ||| node_has(pages[lba], key, data)
    ||| exists|j: int| j != i && #[trigger] child_has(pages, lba, h, j, key, data)
}

/// An entry of a subtree is beside child `i` or below it.
pub proof fn lemma_beside<K: BTreeKey>(
    pages: Map<u64, Seq<BTreeRecord<K>>>,
    lba: u64,
    h: nat,
    i: int,
    key: K,
    data: u64,
)
    ensures
        has_entry(pages, lba, h, key, data) == (has_beside(pages, lba, h, i, key, data)
            || child_has(pages, lba, h, i, key, data)),
{
    let records = pages[lba];
    if has_entry(pages, lba, h, key, data) && !node_has(records, key, data) {
        let j = choose|j: int|
            0 <= j < records.len() && records[j].child_lba is Some && has_entry(
                pages,
                #[trigger] child_at(records, j),
                (h - 1) as nat,
                key,
                data,
            );
        assert(child_has(pages, lba, h, j, key, data));
    }
    if has_beside(pages, lba, h, i, key, data) && !node_has(records, key, data) {
        let j = choose|j: int| j != i && #[trigger] child_has(pages, lba, h, j, key, data);
        assert(has_entry(pages, child_at(records, j), (h - 1) as nat, key, data));
    }
}

/// A B-tree whose subtree below child `i` was changed into a B-tree with
/// the same bounds, while the pages in use outside that subtree stayed, is
/// a B-tree with the same entries beside the child.
pub proof fn lemma_child_changed<K: BTreeKey>(
    before: Map<u64, Seq<BTreeRecord<K>>>,
    after: Map<u64, Seq<BTreeRecord<K>>>,
    lba: u64,
    h: nat,
    lo: int,
    hi: int,
    t: nat,
    least: nat,
    i: int,
    used: Set<u64>,
)
    requires
        t >= 2,
        h > 0,
        wf_subtree(before, lba, h, lo, hi, t, least),
        0 <= i < before[lba].len(),
        after[lba] == before[lba],
        wf_subtree(
            after,
            child_at(before[lba], i),
            (h - 1) as nat,
            child_lo(before[lba], i, lo),
            child_hi(before[lba], i, hi),
            t,
            (t - 1) as nat,
        ),
        changed_within(before, after, child_at(before[lba], i), (h - 1) as nat, used),
        grown_within(before, after, child_at(before[lba], i), (h - 1) as nat, used),
        forall|x: u64| #[trigger] in_subtree(before, lba, h, x) ==> used.contains(x),
    ensures
        wf_subtree(after, lba, h, lo, hi, t, least),
        changed_within(before, after, lba, h, used),
        grown_within(before, after, lba, h, used),
        forall|key: K, data: u64| #[trigger]
            has_beside(after, lba, h, i, key, data) == has_beside(before, lba, h, i, key, data),
        forall|j: int|
            0 <= j < before[lba].len() && j != i ==> same_subtree(
                before,
                after,
                #[trigger] child_at(before[lba], j),
                (h - 1) as nat,
            ),
{
    let records = before[lba];
    let c = child_at(records, i);
    assert forall|j: int| 0 <= j < records.len() && j != i implies same_subtree(
        before,
        after,
        #[trigger] child_at(records, j),
        (h - 1) as nat,
    ) by {
        let s = child_at(records, j);
        assert forall|x: u64| #[trigger] in_subtree(before, s, (h - 1) as nat, x) implies after[x]
            == before[x] by {
            lemma_siblings_apart(before, lba, h, lo, hi, t, least, i, j, x);
            lemma_child_subtree(before, lba, h, j);
            assert(in_subtree(before, lba, h, x));
        }
        lemma_frame(before, after, s, (h - 1) as nat);
    }
    assert forall|j: int| 0 <= j < records.len() implies wf_subtree(
        after,
        #[trigger] child_at(records, j),
        (h - 1) as nat,
        child_lo(records, j, lo),
        child_hi(records, j, hi),
        t,
        (t - 1) as nat,
    ) by {
        if j != i {
            assert(same_subtree(before, after, child_at(records, j), (h - 1) as nat));
        }
    }
    assert forall|x: u64| used.contains(x) && !in_subtree(before, lba, h, x) implies #[trigger] after[x]
        == before[x] by {
        lemma_child_subtree(before, lba, h, i);
    }
    assert forall|x: u64| #[trigger] in_subtree(after, lba, h, x) implies in_subtree(
        before,
        lba,
        h,
        x,
    ) || !used.contains(x) by {
        if x != lba {
            let j = choose|j: int|
                0 <= j < records.len() && records[j].child_lba is Some && in_subtree(
                    after,
                    #[trigger] child_at(records, j),
                    (h - 1) as nat,
                    x,
                );
            if j != i {
                assert(same_subtree(before, after, child_at(records, j), (h - 1) as nat));
            }
            lemma_child_subtree(before, lba, h, j);
        }
    }
    assert forall|key: K, data: u64| #[trigger]
        has_beside(after, lba, h, i, key, data) == has_beside(before, lba, h, i, key, data) by {
        if has_beside(after, lba, h, i, key, data) && !node_has(records, key, data) {
            let j = choose|j: int| j != i && #[trigger] child_has(after, lba, h, j, key, data);
            assert(same_subtree(before, after, child_at(records, j), (h - 1) as nat));
            assert(child_has(before, lba, h, j, key, data));
        }
        if has_beside(before, lba, h, i, key, data) && !node_has(records, key, data) {
            let j = choose|j: int| j != i && #[trigger] child_has(before, lba, h, j, key, data);
            assert(same_subtree(before, after, child_at(records, j), (h - 1) as nat));
            assert(child_has(after, lba, h, j, key, data));
        }
    }
}

/// A leaf with one more record at the place of its key is a leaf of the
/// same tree with one more entry.
pub proof fn lemma_leaf_insert<K: BTreeKey>(
    before: Map<u64, Seq<BTreeRecord<K>>>,
    lba: u64,
    lo: int,
    hi: int,
    t: nat,
    least: nat,
    record: BTreeRecord<K>,
    i: int,
)
    requires
        wf_subtree(before, lba, 0, lo, hi, t, least),
        key_count(before[lba]) < 2 * t - 1,
        record.child_lba is None,
        record.key != K::sentinel(),
        lo < record.key.rank() < hi,
        is_slot(before[lba], record.key, i),
        i < before[lba].len() ==> before[lba][i].key != record.key,
    ensures
        ({
            let after = before.insert(lba, before[lba].insert(i, record));
            &&& wf_subtree(after, lba, 0, lo, hi, t, least)
            &&& forall|key: K, data: u64| #[trigger]
                has_entry(after, lba, 0, key, data) == (has_entry(before, lba, 0, key, data) || (
                key == record.key && data == record.data_lba))
        }),
{
    let old_records = before[lba];
    let records = old_records.insert(i, record);
    let after = before.insert(lba, records);
    assert(forall|j: int| 0 <= j < i ==> records[j] == old_records[j]);
    assert(records[i] == record);
    assert(forall|j: int| i < j < records.len() ==> records[j] == old_records[j - 1]);
    if i < old_records.len() && old_records[i].key.rank() == record.key.rank() {
        K::lemma_rank_injective(old_records[i].key, record.key);
    }
    assert(strictly_sorted(records)) by {
        assert forall|a: int, b: int| 0 <= a < b < records.len() implies (#[trigger] records[a]).key.rank()
            < (#[trigger] records[b]).key.rank() by {
            if b < i {
            } else if b == i {
                assert(old_records[a].key.rank() < record.key.rank());
            } else if a < i {
                assert(old_records[a].key.rank() < record.key.rank());
                if b - 1 > i {
                    assert(old_records[i].key.rank() < old_records[b - 1].key.rank());
                }
            } else if a == i {
                if b - 1 > i {
                    assert(old_records[i].key.rank() < old_records[b - 1].key.rank());
                }
            } else {
                assert(old_records[a - 1].key.rank() < old_records[b - 1].key.rank());
            }
        }
    }
    assert(leaf_shape(records)) by {
        assert forall|j: int| 0 <= j < records.len() implies (#[trigger] records[j]).child_lba is None
            && records[j].key != K::sentinel() by {
            if j < i {
                assert(old_records[j].child_lba is None);
            } else if j > i {
                assert(old_records[j - 1].child_lba is None);
            }
        }
    }
    assert(keys_within(records, lo, hi)) by {
        assert forall|j: int|
            0 <= j < records.len() && (#[trigger] records[j]).key != K::sentinel() implies lo
            < records[j].key.rank() < hi by {
            if j < i {
                assert(old_records[j].key != K::sentinel());
            } else if j > i {
                assert(old_records[j - 1].key != K::sentinel());
            }
        }
    }
    if old_records.len() > 0 {
        assert(old_records.last().key != K::sentinel()) by {
            assert(old_records[old_records.len() - 1].child_lba is None);
        }
    }
    assert(records.last().key != K::sentinel()) by {
        let last = records.len() - 1;
        if last > i {
            assert(old_records[last - 1].child_lba is None);
        }
    }
    assert forall|key: K, data: u64| #[trigger]
        has_entry(after, lba, 0, key, data) == (has_entry(before, lba, 0, key, data) || (key
            == record.key && data == record.data_lba)) by {
        if node_has(records, key, data) {
            let j = choose|j: int|
                0 <= j < records.len() && (#[trigger] records[j]).key == key && records[j].data_lba
                    == data;
            if j < i {
                assert(old_records[j].key == key);
            } else if j > i {
                assert(old_records[j - 1].key == key);
            }
        }
        if node_has(old_records, key, data) {
            let j = choose|j: int|
                0 <= j < old_records.len() && (#[trigger] old_records[j]).key == key
                    && old_records[j].data_lba == data;
            if j < i {
                assert(records[j].key == key);
            } else {
                assert(records[j + 1].key == key);
            }
        }
        if key == record.key && data == record.data_lba {
            assert(records[i].key == key);
        }
    }
}

/// The records of a node of a B-tree fit a block that holds `2t` records,
/// and none of them is the sentinel.
pub proof fn lemma_node_storable<K: BTreeKey>(
    records: Seq<BTreeRecord<K>>,
    leaf: bool,
    t: nat,
    block_size: nat,
)
    requires
        if leaf {
            leaf_shape(records)
        } else {
            internal_shape(records)
        },
        key_count(records) <= 2 * t - 1,
        2 * t * BTreeRecord::<K>::width() <= block_size,
    ensures
        crate::page::storable(records, block_size),
        records.len() <= 2 * t,
{
    let w = BTreeRecord::<K>::width();
    assert(records.len() <= 2 * t);
    assert(records.len() * w <= 2 * t * w) by (nonlinear_arith)
        requires
            records.len() <= 2 * t,
    ;
    assert forall|i: int| 0 <= i < records.len() implies #[trigger] records[i]
        != BTreeRecord::<K>::sentinel() by {
        if leaf {
            assert(records[i].key != K::sentinel());
        } else {
            assert(records[i].child_lba is Some);
        }
    }
}

/// Whether `at` is the first record of `records` that points to `child`.
pub open spec fn is_first_child<K: BTreeKey>(
    records: Seq<BTreeRecord<K>>,
    child: u64,
    at: int,
) -> bool {
    &&& 0 <= at < records.len()
    &&& records[at].child_lba == Some(child)
    &&& forall|j: int| 0 <= j < at ==> (#[trigger] records[j]).child_lba != Some(child)
}

/// The children of a node of a B-tree are different pages.
pub proof fn lemma_children_differ<K: BTreeKey>(
    pages: Map<u64, Seq<BTreeRecord<K>>>,
    lba: u64,
    h: nat,
    lo: int,
    hi: int,
    t: nat,
    least: nat,
    i: int,
)
    requires
        t >= 2,
        h > 0,
        wf_subtree(pages, lba, h, lo, hi, t, least),
        0 <= i < pages[lba].len(),
    ensures
        is_first_child(pages[lba], child_at(pages[lba], i), i),
        forall|j: int|
            0 <= j < pages[lba].len() && j != i ==> child_at(pages[lba], i) != #[trigger] child_at(
                pages[lba],
                j,
            ),
{
    let records = pages[lba];
    let c = child_at(records, i);
    assert(records[i].child_lba is Some);
    assert(in_subtree(pages, c, (h - 1) as nat, c));
    assert forall|j: int| 0 <= j < records.len() && j != i implies c != #[trigger] child_at(
        records,
        j,
    ) by {
        lemma_siblings_apart(pages, lba, h, lo, hi, t, least, i, j, c);
        assert(in_subtree(pages, child_at(records, j), (h - 1) as nat, child_at(records, j)));
    }
    assert forall|j: int| 0 <= j < i implies (#[trigger] records[j]).child_lba != Some(c) by {
        assert(records[j].child_lba is Some);
        assert(child_at(records, j) != c);
    }
}

/// Whether `records` would make a node of a B-tree of height `h` over the
/// pages of `pages`, with keys between `lo` and `hi`, however many keys
/// they are.
pub open spec fn node_ok<K: BTreeKey>(
    pages: Map<u64, Seq<BTreeRecord<K>>>,
    records: Seq<BTreeRecord<K>>,
    h: nat,
    lo: int,
    hi: int,
    t: nat,
) -> bool {
    &&& strictly_sorted(records)
    &&& keys_within(records, lo, hi)
    &&& if h == 0 {
        leaf_shape(records)
    } else {
        &&& internal_shape(records)
        &&& forall|i: int|
            0 <= i < records.len() ==> wf_subtree(
                pages,
                #[trigger] child_at(records, i),
                (h - 1) as nat,
                child_lo(records, i, lo),
                child_hi(records, i, hi),
                t,
                (t - 1) as nat,
            )
    }
}

/// Whether a node of `records` holds `key` with `data`, itself or below a
/// child.
pub open spec fn has_in<K: BTreeKey>(
    pages: Map<u64, Seq<BTreeRecord<K>>>,
    records: Seq<BTreeRecord<K>>,
    h: nat,
    key: K,
    data: u64,
) -> bool {
    ||| node_has(records, key, data)
    ||| (h > 0 && exists|i: int|
        0 <= i < records.len() && records[i].child_lba is Some && has_entry(
            pages,
            #[trigger] child_at(records, i),
            (h - 1) as nat,
            key,
            data,
        ))
}

/// Whether page `x` lies below a child of a node of `records`.
pub open spec fn reach_in<K: BTreeKey>(
    pages: Map<u64, Seq<BTreeRecord<K>>>,
    records: Seq<BTreeRecord<K>>,
    h: nat,
    x: u64,
) -> bool {
    h > 0 && exists|i: int|
        0 <= i < records.len() && records[i].child_lba is Some && in_subtree(
            pages,
            #[trigger] child_at(records, i),
            (h - 1) as nat,
            x,
        )
}

/// A subtree is a B-tree where the records of its top page make a node
/// with a number of keys in range; its entries and pages are those of the
/// node.
pub proof fn lemma_node_view<K: BTreeKey>(
    pages: Map<u64, Seq<BTreeRecord<K>>>,
    lba: u64,
    h: nat,
    lo: int,
    hi: int,
    t: nat,
    least: nat,
)
    ensures
        wf_subtree(pages, lba, h, lo, hi, t, least) == (node_ok(pages, pages[lba], h, lo, hi, t)
            && least <= key_count(pages[lba]) <= 2 * t - 1),
        forall|key: K, data: u64| #[trigger]
            has_entry(pages, lba, h, key, data) == has_in(pages, pages[lba], h, key, data),
        forall|x: u64| #[trigger]
            in_subtree(pages, lba, h, x) == (x == lba || reach_in(pages, pages[lba], h, x)),
{
}

/// A node over pages that hold below its children what other pages hold
/// is a node over the other pages too, with the same entries and pages
/// below it.
pub proof fn lemma_node_frame<K: BTreeKey>(
    pages: Map<u64, Seq<BTreeRecord<K>>>,
    other: Map<u64, Seq<BTreeRecord<K>>>,
    records: Seq<BTreeRecord<K>>,
    h: nat,
    lo: int,
    hi: int,
    t: nat,
)
    requires
        forall|x: u64| #[trigger] reach_in(pages, records, h, x) ==> other[x] == pages[x],
    ensures
        node_ok(other, records, h, lo, hi, t) == node_ok(pages, records, h, lo, hi, t),
        forall|key: K, data: u64| #[trigger]
            has_in(other, records, h, key, data) == has_in(pages, records, h, key, data),
        forall|x: u64| #[trigger] reach_in(other, records, h, x) == reach_in(pages, records, h, x),
{
    if h > 0 {
        let hc = (h - 1) as nat;
        assert forall|i: int|
            0 <= i < records.len() && (#[trigger] records[i]).child_lba is Some implies same_subtree(
            pages,
            other,
            child_at(records, i),
            hc,
        ) by {
            let c = child_at(records, i);
            assert forall|x: u64| #[trigger] in_subtree(pages, c, hc, x) implies other[x]
                == pages[x] by {
                assert(reach_in(pages, records, h, x));
            }
            lemma_frame(pages, other, c, hc);
        }
        if internal_shape(records) {
            assert forall|i: int| 0 <= i < records.len() implies wf_subtree(
                other,
                #[trigger] child_at(records, i),
                hc,
                child_lo(records, i, lo),
                child_hi(records, i, hi),
                t,
                (t - 1) as nat,
            ) == wf_subtree(
                pages,
                child_at(records, i),
                hc,
                child_lo(records, i, lo),
                child_hi(records, i, hi),
                t,
                (t - 1) as nat,
            ) by {
                assert(records[i].child_lba is Some);
                assert(same_subtree(pages, other, child_at(records, i), hc));
            }
        }
        assert forall|key: K, data: u64| #[trigger]
            has_in(other, records, h, key, data) == has_in(pages, records, h, key, data) by {
            if has_in(other, records, h, key, data) && !node_has(records, key, data) {
                let i = choose|i: int|
                    0 <= i < records.len() && records[i].child_lba is Some && has_entry(
                        other,
                        #[trigger] child_at(records, i),
                        hc,
                        key,
                        data,
                    );
                assert(same_subtree(pages, other, child_at(records, i), hc));
            }
            if has_in(pages, records, h, key, data) && !node_has(records, key, data) {
                let i = choose|i: int|
                    0 <= i < records.len() && records[i].child_lba is Some && has_entry(
                        pages,
                        #[trigger] child_at(records, i),
                        hc,
                        key,
                        data,
                    );
                assert(same_subtree(pages, other, child_at(records, i), hc));
            }
        }
        assert forall|x: u64| #[trigger]
            reach_in(other, records, h, x) == reach_in(pages, records, h, x) by {
            if reach_in(other, records, h, x) {
                let i = choose|i: int|
                    0 <= i < records.len() && records[i].child_lba is Some && in_subtree(
                        other,
                        #[trigger] child_at(records, i),
                        hc,
                        x,
                    );
                assert(same_subtree(pages, other, child_at(records, i), hc));
            }
            if reach_in(pages, records, h, x) {
                let i = choose|i: int|
                    0 <= i < records.len() && records[i].child_lba is Some && in_subtree(
                        pages,
                        #[trigger] child_at(records, i),
                        hc,
                        x,
                    );
                assert(same_subtree(pages, other, child_at(records, i), hc));
            }
        }
    }
}

/// A B-tree between two bounds is a B-tree between wider bounds.
pub proof fn lemma_widen<K: BTreeKey>(
    pages: Map<u64, Seq<BTreeRecord<K>>>,
    lba: u64,
    h: nat,
    lo: int,
    hi: int,
    t: nat,
    least: nat,
    wider_lo: int,
    wider_hi: int,
)
    requires
        wf_subtree(pages, lba, h, lo, hi, t, least),
        wider_lo <= lo,
        hi <= wider_hi,
    ensures
        wf_subtree(pages, lba, h, wider_lo, wider_hi, t, least),
    decreases h,
{
    let records = pages[lba];
    if h > 0 {
        assert forall|i: int| 0 <= i < records.len() implies wf_subtree(
            pages,
            #[trigger] child_at(records, i),
            (h - 1) as nat,
            child_lo(records, i, wider_lo),
            child_hi(records, i, wider_hi),
            t,
            (t - 1) as nat,
        ) by {
            lemma_widen(
                pages,
                child_at(records, i),
                (h - 1) as nat,
                child_lo(records, i, lo),
                child_hi(records, i, hi),
                t,
                (t - 1) as nat,
                child_lo(records, i, wider_lo),
                child_hi(records, i, wider_hi),
            );
        }
    }
}

/// A B-tree whose keys are all below `m` is a B-tree below `m`.
pub proof fn lemma_tighten_hi<K: BTreeKey>(
    pages: Map<u64, Seq<BTreeRecord<K>>>,
    lba: u64,
    h: nat,
    lo: int,
    hi: int,
    t: nat,
    least: nat,
    m: int,
)
    requires
        wf_subtree(pages, lba, h, lo, hi, t, least),
        m <= hi,
        forall|key: K, data: u64| #[trigger] has_entry(pages, lba, h, key, data) ==> key.rank() < m,
    ensures
        wf_subtree(pages, lba, h, lo, m, t, least),
    decreases h,
{
    let records = pages[lba];
    assert forall|i: int|
        0 <= i < records.len() && (#[trigger] records[i]).key != K::sentinel() implies lo
        < records[i].key.rank() < m by {
        assert(node_has(records, records[i].key, records[i].data_lba));
        assert(has_entry(pages, lba, h, records[i].key, records[i].data_lba));
    }
    if h > 0 {
        let last = records.len() - 1;
        assert forall|i: int| 0 <= i < records.len() implies wf_subtree(
            pages,
            #[trigger] child_at(records, i),
            (h - 1) as nat,
            child_lo(records, i, lo),
            child_hi(records, i, m),
            t,
            (t - 1) as nat,
        ) by {
            if i == last {
                let c = child_at(records, i);
                assert(records[i].child_lba is Some);
                assert forall|key: K, data: u64| #[trigger]
                    has_entry(pages, c, (h - 1) as nat, key, data) implies key.rank() < m by {
                    assert(has_entry(pages, lba, h, key, data));
                }
                lemma_tighten_hi(
                    pages,
                    c,
                    (h - 1) as nat,
                    child_lo(records, i, lo),
                    hi,
                    t,
                    (t - 1) as nat,
                    m,
                );
            }
        }
    }
}

/// A B-tree whose keys are all above `m` is a B-tree above `m`.
pub proof fn lemma_tighten_lo<K: BTreeKey>(
    pages: Map<u64, Seq<BTreeRecord<K>>>,
    lba: u64,
    h: nat,
    lo: int,
    hi: int,
    t: nat,
    least: nat,
    m: int,
)
    requires
        wf_subtree(pages, lba, h, lo, hi, t, least),
        lo <= m,
        forall|key: K, data: u64| #[trigger] has_entry(pages, lba, h, key, data) ==> m < key.rank(),
    ensures
        wf_subtree(pages, lba, h, m, hi, t, least),
    decreases h,
{
    let records = pages[lba];
    assert forall|i: int|
        0 <= i < records.len() && (#[trigger] records[i]).key != K::sentinel() implies m
        < records[i].key.rank() < hi by {
        assert(node_has(records, records[i].key, records[i].data_lba));
        assert(has_entry(pages, lba, h, records[i].key, records[i].data_lba));
    }
    if h > 0 {
        assert forall|i: int| 0 <= i < records.len() implies wf_subtree(
            pages,
            #[trigger] child_at(records, i),
            (h - 1) as nat,
            child_lo(records, i, m),
            child_hi(records, i, hi),
            t,
            (t - 1) as nat,
        ) by {
            if i == 0 {
                let c = child_at(records, i);
                assert(records[i].child_lba is Some);
                assert forall|key: K, data: u64| #[trigger]
                    has_entry(pages, c, (h - 1) as nat, key, data) implies m < key.rank() by {
                    assert(has_entry(pages, lba, h, key, data));
                }
                lemma_tighten_lo(
                    pages,
                    c,
                    (h - 1) as nat,
                    lo,
                    child_hi(records, i, hi),
                    t,
                    (t - 1) as nat,
                    m,
                );
            }
        }
    }
}

/// Whether `record` is the entry with the greatest key of the subtree
/// below `lba`.
pub open spec fn is_greatest<K: BTreeKey>(
    pages: Map<u64, Seq<BTreeRecord<K>>>,
    lba: u64,
    h: nat,
    record: BTreeRecord<K>,
) -> bool {
    &&& has_entry(pages, lba, h, record.key, record.data_lba)
    &&& forall|key: K, data: u64| #[trigger]
        has_entry(pages, lba, h, key, data) ==> key.rank() <= record.key.rank()
}

/// Whether `record` is the entry with the least key of the subtree below
/// `lba`.
pub open spec fn is_least<K: BTreeKey>(
    pages: Map<u64, Seq<BTreeRecord<K>>>,
    lba: u64,
    h: nat,
    record: BTreeRecord<K>,
) -> bool {
    &&& has_entry(pages, lba, h, record.key, record.data_lba)
    &&& forall|key: K, data: u64| #[trigger]
        has_entry(pages, lba, h, key, data) ==> record.key.rank() <= key.rank()
}

/// The greatest entry below the last child of a node is the greatest of
/// the node; in a leaf it is the last record.
pub proof fn lemma_greatest<K: BTreeKey>(
    pages: Map<u64, Seq<BTreeRecord<K>>>,
    lba: u64,
    h: nat,
    lo: int,
    hi: int,
    t: nat,
    least: nat,
    record: BTreeRecord<K>,
)
    requires
        wf_subtree(pages, lba, h, lo, hi, t, least),
        pages[lba].len() > 0,
        if h == 0 {
            record == pages[lba].last()
        } else {
            is_greatest(pages, child_at(pages[lba], pages[lba].len() - 1), (h - 1) as nat, record)
        },
    ensures
        is_greatest(pages, lba, h, record),
{
    let records = pages[lba];
    let last = records.len() - 1;
    if h == 0 {
        assert(records[last].key != K::sentinel());
        assert(node_has(records, record.key, record.data_lba));
        assert forall|key: K, data: u64| #[trigger] has_entry(pages, lba, h, key, data) implies key.rank()
            <= record.key.rank() by {
            let j = choose|j: int|
                0 <= j < records.len() && (#[trigger] records[j]).key == key && records[j].data_lba
                    == data;
            if j < last {
                assert(records[j].key.rank() < records[last].key.rank());
            }
        }
    } else {
        let c = child_at(records, last);
        let hc = (h - 1) as nat;
        assert(records[last].child_lba is Some);
        assert(wf_subtree(
            pages,
            c,
            hc,
            child_lo(records, last, lo),
            child_hi(records, last, hi),
            t,
            (t - 1) as nat,
        ));
        lemma_entries_within(
            pages,
            c,
            hc,
            child_lo(records, last, lo),
            child_hi(records, last, hi),
            t,
            (t - 1) as nat,
            record.key,
            record.data_lba,
        );
        assert forall|key: K, data: u64| #[trigger] has_entry(pages, lba, h, key, data) implies key.rank()
            <= record.key.rank() by {
            if node_has(records, key, data) {
                let j = choose|j: int|
                    0 <= j < records.len() && (#[trigger] records[j]).key == key && records[j].data_lba
                        == data;
                if j < last - 1 {
                    assert(records[j].key.rank() < records[last - 1].key.rank());
                }
            } else {
                let j = choose|j: int|
                    0 <= j < records.len() && records[j].child_lba is Some && has_entry(
                        pages,
                        #[trigger] child_at(records, j),
                        hc,
                        key,
                        data,
                    );
                if j < last {
                    lemma_entries_within(
                        pages,
                        child_at(records, j),
                        hc,
                        child_lo(records, j, lo),
                        child_hi(records, j, hi),
                        t,
                        (t - 1) as nat,
                        key,
                        data,
                    );
                    if j < last - 1 {
                        assert(records[j].key.rank() < records[last - 1].key.rank());
                    }
                }
            }
        }
    }
}

/// The least entry below the first child of a node is the least of the
/// node; in a leaf it is the first record.
pub proof fn lemma_least<K: BTreeKey>(
    pages: Map<u64, Seq<BTreeRecord<K>>>,
    lba: u64,
    h: nat,
    lo: int,
    hi: int,
    t: nat,
    least: nat,
    record: BTreeRecord<K>,
)
    requires
        wf_subtree(pages, lba, h, lo, hi, t, least),
        pages[lba].len() > 0,
        if h == 0 {
            record == pages[lba][0]
        } else {
            is_least(pages, child_at(pages[lba], 0), (h - 1) as nat, record)
        },
    ensures
        is_least(pages, lba, h, record),
{
    let records = pages[lba];
    if h == 0 {
        assert(records[0].key != K::sentinel());
        assert(node_has(records, record.key, record.data_lba));
        assert forall|key: K, data: u64| #[trigger]
            has_entry(pages, lba, h, key, data) implies record.key.rank() <= key.rank() by {
            let j = choose|j: int|
                0 <= j < records.len() && (#[trigger] records[j]).key == key && records[j].data_lba
                    == data;
            if j > 0 {
                assert(records[0].key.rank() < records[j].key.rank());
            }
        }
    } else {
        let c = child_at(records, 0);
        let hc = (h - 1) as nat;
        assert(records[0].child_lba is Some);
        assert(wf_subtree(
            pages,
            c,
            hc,
            child_lo(records, 0, lo),
            child_hi(records, 0, hi),
            t,
            (t - 1) as nat,
        ));
        lemma_entries_within(
            pages,
            c,
            hc,
            child_lo(records, 0, lo),
            child_hi(records, 0, hi),
            t,
            (t - 1) as nat,
            record.key,
            record.data_lba,
        );
        assert forall|key: K, data: u64| #[trigger]
            has_entry(pages, lba, h, key, data) implies record.key.rank() <= key.rank() by {
            if node_has(records, key, data) {
                let j = choose|j: int|
                    0 <= j < records.len() && (#[trigger] records[j]).key == key && records[j].data_lba
                        == data;
                if j > 0 {
                    assert(records[0].key.rank() < records[j].key.rank());
                }
            } else {
                let j = choose|j: int|
                    0 <= j < records.len() && records[j].child_lba is Some && has_entry(
                        pages,
                        #[trigger] child_at(records, j),
                        hc,
                        key,
                        data,
                    );
                if j > 0 {
                    lemma_entries_within(
                        pages,
                        child_at(records, j),
                        hc,
                        child_lo(records, j, lo),
                        child_hi(records, j, hi),
                        t,
                        (t - 1) as nat,
                        key,
                        data,
                    );
                    if j > 1 {
                        assert(records[0].key.rank() < records[j - 1].key.rank());
                    }
                }
            }
        }
    }
}

} // verus!
