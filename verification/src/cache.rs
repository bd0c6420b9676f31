//! The page cache of the index: a bounded set of pages over the index
//! device, from which the page used least recently leaves, written back if
//! it was changed.

use vstd::prelude::*;
use lru::LruCache;
use crate::btree_key::BTreeKey;
use crate::btree_record::BTreeRecord;
use crate::bytes::Bytes;
use crate::device::{BlockDevice, bumped, can_address};
use crate::page::{
    Page, decode_block, lemma_block_round_trip, lemma_decoded_storable, storable,
};

verus! {

#[verifier::external_type_specification]
#[verifier::external_body]
#[verifier::reject_recursive_types(K)]
#[verifier::reject_recursive_types(V)]
#[verifier::reject_recursive_types(S)]
pub struct ExLruCache<K, V, S>(LruCache<K, V, S>);

#[verifier::external_type_specification]
#[verifier::external_body]
pub struct ExLruHasher(lru::DefaultHasher);

/// The entries of an LRU cache: which key has which value.
pub uninterp spec fn lru_entries(cache: LruCache<u64, usize>) -> Map<u64, usize>;

/// The number of entries that an LRU cache was made to hold at most.
pub uninterp spec fn lru_limit(cache: LruCache<u64, usize>) -> nat;

/// Whether `count` is the number of entries of `cache`: they are finitely
/// many, and no more than the limit.
pub open spec fn lru_holds(cache: LruCache<u64, usize>, count: nat) -> bool {
    &&& lru_entries(cache).dom().finite()
    &&& lru_entries(cache).dom().len() == count
    &&& count <= lru_limit(cache)
}

/// `LruCache::new`: an empty cache that holds at most `limit` entries.
#[verifier::external_body]
fn lru_new(limit: usize) -> (made: LruCache<u64, usize>)
    requires
        limit > 0,
    ensures
        lru_holds(made, 0),
        lru_limit(made) == limit,
{
    LruCache::new(std::num::NonZeroUsize::new(limit).unwrap())
}

/// `LruCache::len`: the number of entries, which is never above the limit.
#[verifier::external_body]
fn lru_len(cache: &LruCache<u64, usize>) -> (count: usize)
    ensures
        lru_holds(*cache, count as nat),
{
    cache.len()
}

/// `LruCache::get`: the value of `key`, if it has one. The entries stay
/// what they are; the key becomes the one used last.
#[verifier::external_body]
fn lru_get(cache: &mut LruCache<u64, usize>, key: u64) -> (value: Option<usize>)
    ensures
        lru_entries(*final(cache)) == lru_entries(*old(cache)),
        lru_limit(*final(cache)) == lru_limit(*old(cache)),
        value == if lru_entries(*old(cache)).contains_key(key) {
            Some(lru_entries(*old(cache))[key])
        } else {
            None
        },
{
    cache.get(&key).copied()
}

/// `LruCache::pop_lru`: takes one entry out and returns it, or returns
/// nothing where the cache is empty.
#[verifier::external_body]
fn lru_pop(cache: &mut LruCache<u64, usize>) -> (entry: Option<(u64, usize)>)
    ensures
        lru_limit(*final(cache)) == lru_limit(*old(cache)),
        entry is None ==> lru_entries(*old(cache)).dom() =~= Set::<u64>::empty() && lru_entries(
            *final(cache),
        ) == lru_entries(*old(cache)),
        entry is Some ==> lru_entries(*old(cache)).contains_pair(entry->Some_0.0, entry->Some_0.1)
            && lru_entries(*final(cache)) == lru_entries(*old(cache)).remove(entry->Some_0.0),
{
    cache.pop_lru()
}

/// `LruCache::push` of a key that has no entry, into a cache below its
/// limit: the entry is added and nothing leaves.
#[verifier::external_body]
fn lru_push(cache: &mut LruCache<u64, usize>, key: u64, value: usize)
    requires
        !lru_entries(*old(cache)).contains_key(key),
        lru_entries(*old(cache)).dom().len() < lru_limit(*old(cache)),
    ensures
        lru_limit(*final(cache)) == lru_limit(*old(cache)),
        lru_entries(*final(cache)) == lru_entries(*old(cache)).insert(key, value),
{
    cache.push(key, value);
}

/// The parent named where a page has none, or none that is known.
pub const NO_PARENT: u64 = u64::MAX;

/// Whether one of `records` points to the page `lba`.
pub open spec fn points_to<K: BTreeKey>(records: Seq<BTreeRecord<K>>, lba: u64) -> bool {
    exists|i: int| 0 <= i < records.len() && (#[trigger] records[i]).child_lba == Some(lba)
}

/// Whether one of `records` points to the page `lba`.
pub fn holds_pointer<K: BTreeKey>(records: &Vec<BTreeRecord<K>>, lba: u64) -> (b: bool)
    ensures
        b == points_to(records@, lba),
{
    let mut i: usize = 0;
    while i < records.len()
        invariant
            0 <= i <= records@.len(),
            forall|j: int| 0 <= j < i ==> (#[trigger] records@[j]).child_lba != Some(lba),
        decreases records@.len() - i,
    {
        match records[i].child_lba {
            Some(child) => {
                if child == lba {
                    return true;
                }
            },
            None => {},
        }
        i += 1;
    }
    false
}

/// `LruCache::peek`: the value of `key`, if it has one. Nothing changes,
/// not even which key was used last.
#[verifier::external_body]
fn lru_peek(cache: &LruCache<u64, usize>, key: u64) -> (value: Option<usize>)
    ensures
        value == if lru_entries(*cache).contains_key(key) {
            Some(lru_entries(*cache)[key])
        } else {
            None
        },
{
    cache.peek(&key).copied()
}

/// The index device with a bounded number of its pages in memory.
pub struct PageCache<K: BTreeKey> {
    device: BlockDevice,
    lru: LruCache<u64, usize>,
    slots: Vec<Page<BTreeRecord<K>>>,
}

impl<K: BTreeKey> View for PageCache<K> {
    type V = Map<u64, Seq<BTreeRecord<K>>>;

    /// The records of every page: those of the cached page where the page
    /// is cached, else those of its block, and none where there is no
    /// block.
    closed spec fn view(&self) -> Map<u64, Seq<BTreeRecord<K>>> {
        Map::new(|lba: u64| true, |lba: u64| self.page(lba))
    }
}

impl<K: BTreeKey> PageCache<K> {
    pub closed spec fn spec_block_size(&self) -> u64 {
        self.device.spec_block_size()
    }

    pub closed spec fn spec_reads(&self) -> u64 {
        self.device.spec_reads()
    }

    pub closed spec fn spec_writes(&self) -> u64 {
        self.device.spec_writes()
    }

    /// What the device itself holds.
    pub closed spec fn stored(&self) -> Seq<Seq<u8>> {
        self.device@
    }

    /// Whether page `lba` is held in memory.
    pub closed spec fn is_cached(&self, lba: u64) -> bool {
        lru_entries(self.lru).contains_key(lba)
    }

    /// Whether page `lba` is held in memory with changes that the device
    /// has not seen.
    pub closed spec fn is_dirty(&self, lba: u64) -> bool {
        self.is_cached(lba) && self.slots@[lru_entries(self.lru)[lba] as int].dirty
    }

    /// The parent that the cached page `lba` is known to have: the page it
    /// was last asked for through, if that page held a pointer to it then
    /// and has held one since; else `NO_PARENT`.
    pub closed spec fn parent_of(&self, lba: u64) -> u64 {
        self.slots@[lru_entries(self.lru)[lba] as int].parent_lba
    }

    /// How many pages are held in memory.
    pub closed spec fn cached_count(&self) -> nat {
        self.slots@.len()
    }

    /// How many pages may be held in memory.
    pub closed spec fn capacity(&self) -> nat {
        lru_limit(self.lru)
    }

    closed spec fn page(&self, lba: u64) -> Seq<BTreeRecord<K>> {
        let entries = lru_entries(self.lru);
        if entries.contains_key(lba) {
            self.slots@[entries[lba] as int].records@
        } else if lba < self.device@.len() {
            decode_block::<BTreeRecord<K>>(self.device@[lba as int])
        } else {
            Seq::empty()
        }
    }

    spec fn slot_ok(&self, s: int) -> bool {
        let entries = lru_entries(self.lru);
        let page = self.slots@[s];
        &&& entries.contains_key(page.lba)
        &&& entries[page.lba] == s
        &&& storable(page.records@, self.device.spec_block_size() as nat)
        &&& can_address(self.device.spec_block_size(), page.lba)
        &&& !page.dirty ==> page.lba < self.device@.len() && decode_block::<BTreeRecord<K>>(
            self.device@[page.lba as int],
        ) == page.records@
    }

    /// Whether the page in slot `s` names no parent, or one that holds a
    /// pointer to it.
    spec fn parent_ok(&self, s: int) -> bool {
        let page = self.slots@[s];
        page.parent_lba == NO_PARENT || points_to(self.page(page.parent_lba), page.lba)
    }

    /// The cache is in order: every cached page can be written to its
    /// block, a cached page that was not changed holds what its block
    /// holds, and a cached page that names a parent is pointed to by a
    /// record of that parent.
    pub closed spec fn wf(&self) -> bool {
        &&& self.base_wf()
        &&& forall|s: int| 0 <= s < self.slots@.len() ==> #[trigger] self.parent_ok(s)
    }

    spec fn base_wf(&self) -> bool {
        let entries = lru_entries(self.lru);
        &&& self.device.wf()
        &&& entries.dom().finite()
        &&& entries.dom().len() == self.slots@.len()
        &&& 1 <= lru_limit(self.lru)
        &&& self.slots@.len() <= lru_limit(self.lru)
        &&& forall|lba: u64| #[trigger]
            entries.contains_key(lba) ==> entries[lba] < self.slots@.len() && self.slots@[entries[lba] as int].lba
                == lba
        &&& forall|s: int| 0 <= s < self.slots@.len() ==> #[trigger] self.slot_ok(s)
    }

    /// Every page can be stored in a block, and the view is made of the
    /// pages.
    pub proof fn lemma_wf(&self)
        requires
            self.wf(),
        ensures
            0 < self.spec_block_size() <= usize::MAX,
            self.cached_count() <= self.capacity(),
            forall|lba: u64| #[trigger] self@.contains_key(lba),
            forall|lba: u64|
                storable(#[trigger] self@[lba], self.spec_block_size() as nat),
            forall|lba: u64|
                !self.is_cached(lba) && lba >= self.stored().len() ==> #[trigger] self@[lba]
                    == Seq::<BTreeRecord<K>>::empty(),
            forall|lba: u64| #[trigger] self.is_dirty(lba) ==> self.is_cached(lba),
            forall|lba: u64|
                self.is_cached(lba) && #[trigger] self.parent_of(lba) != NO_PARENT ==> points_to(
                    self@[self.parent_of(lba)],
                    lba,
                ),
    {
        self.device.lemma_wf();
        assert forall|lba: u64|
            self.is_cached(lba) && #[trigger] self.parent_of(lba) != NO_PARENT implies points_to(
            self@[self.parent_of(lba)],
            lba,
        ) by {
            let s = lru_entries(self.lru)[lba] as int;
            assert(self.parent_ok(s));
        }
        assert forall|lba: u64|
            storable(#[trigger] self@[lba], self.spec_block_size() as nat) by {
            let entries = lru_entries(self.lru);
            if entries.contains_key(lba) {
                assert(self.slot_ok(entries[lba] as int));
            } else if lba < self.device@.len() {
                lemma_decoded_storable::<BTreeRecord<K>>(self.device@[lba as int]);
            } else {
                assert(0 * BTreeRecord::<K>::width() == 0) by (nonlinear_arith);
            }
        }
    }

    /// A cache of at most `capacity` pages over `device`, with no page
    /// held yet.
    pub fn new(device: BlockDevice, capacity: usize) -> (cache: Self)
        requires
            device.wf(),
            capacity > 0,
        ensures
            cache.wf(),
            cache.stored() == device@,
            cache.spec_block_size() == device.spec_block_size(),
            cache.spec_reads() == device.spec_reads(),
            cache.spec_writes() == device.spec_writes(),
            cache.capacity() == capacity,
            cache.cached_count() == 0,
            forall|lba: u64| !cache.is_cached(lba),
            forall|lba: u64|
                #[trigger] cache@[lba] == if lba < device@.len() {
                    decode_block::<BTreeRecord<K>>(device@[lba as int])
                } else {
                    Seq::empty()
                },
    {
        let lru = lru_new(capacity);
        let cache = PageCache { device, lru, slots: Vec::new() };
        proof {
            assert(lru_entries(cache.lru).dom() =~= Set::<u64>::empty()) by {
                if exists|k: u64| lru_entries(cache.lru).dom().contains(k) {
                    let k = choose|k: u64| lru_entries(cache.lru).dom().contains(k);
                    vstd::set_lib::lemma_set_empty_equivalency_len(lru_entries(cache.lru).dom());
                }
            }
        }
        cache
    }

    pub fn block_size(&self) -> (n: u64)
        ensures
            n == self.spec_block_size(),
    {
        self.device.block_size()
    }

    /// How many reads the index device has counted.
    pub fn reads(&self) -> (n: u64)
        ensures
            n == self.spec_reads(),
    {
        self.device.reads()
    }

    /// How many writes the index device has counted.
    pub fn writes(&self) -> (n: u64)
        ensures
            n == self.spec_writes(),
    {
        self.device.writes()
    }

    /// The size of the index device in bytes.
    pub fn size(&self) -> (n: u64)
        requires
            self.wf(),
        ensures
            n == self.stored().len() * self.spec_block_size(),
    {
        self.device.size()
    }

    /// Writes the page in slot `s` to the device if it was changed. Blocks
    /// that the device lacks below the page are created empty.
    fn write_back(&mut self, s: usize)
        requires
            old(self).device.wf(),
            s < old(self).slots@.len(),
            storable(
                old(self).slots@[s as int].records@,
                old(self).device.spec_block_size() as nat,
            ),
            can_address(old(self).device.spec_block_size(), old(self).slots@[s as int].lba),
            !old(self).slots@[s as int].dirty ==> old(self).slots@[s as int].lba < old(
                self,
            ).device@.len() && decode_block::<BTreeRecord<K>>(
                old(self).device@[old(self).slots@[s as int].lba as int],
            ) == old(self).slots@[s as int].records@,
        ensures
            final(self).device.wf(),
            final(self).lru == old(self).lru,
            final(self).slots@.len() == old(self).slots@.len(),
            forall|i: int|
                0 <= i < final(self).slots@.len() && i != s ==> final(self).slots@[i] == old(
                    self,
                ).slots@[i],
            final(self).slots@[s as int].records == old(self).slots@[s as int].records,
            final(self).slots@[s as int].lba == old(self).slots@[s as int].lba,
            final(self).slots@[s as int].parent_lba == old(self).slots@[s as int].parent_lba,
            !final(self).slots@[s as int].dirty,
            final(self).device.spec_block_size() == old(self).device.spec_block_size(),
            final(self).device.spec_reads() == old(self).device.spec_reads(),
            old(self).device.spec_writes() <= final(self).device.spec_writes(),
            !old(self).slots@[s as int].dirty ==> final(self).device@ == old(self).device@
                && final(self).device.spec_writes() == old(self).device.spec_writes(),
            old(self).device@.len() <= final(self).device@.len(),
            final(self).slots@[s as int].lba < final(self).device@.len(),
            forall|l: int|
                0 <= l < final(self).device@.len() ==> decode_block::<BTreeRecord<K>>(
                    #[trigger] final(self).device@[l],
                ) == if l == old(self).slots@[s as int].lba {
                    old(self).slots@[s as int].records@
                } else if l < old(self).device@.len() {
                    decode_block::<BTreeRecord<K>>(old(self).device@[l])
                } else {
                    Seq::empty()
                },
    {
        if !self.slots[s].dirty {
            return ;
        }
        proof {
            self.device.lemma_wf();
            BTreeRecord::<K>::lemma_width_bounds();
        }
        let lba = self.slots[s].lba;
        let block_size = self.device.block_size();
        let ghost before = self.device@;
        if self.device.block_count() < lba {
            let blank = Page::<BTreeRecord<K>>::empty(0, 0);
            proof {
                assert(0 * BTreeRecord::<K>::width() == 0) by (nonlinear_arith);
            }
            let image = blank.to_block(block_size as usize);
            proof {
                lemma_block_round_trip::<BTreeRecord<K>>(
                    Seq::<BTreeRecord<K>>::empty(),
                    block_size as nat,
                );
            }
            while self.device.block_count() < lba
                invariant
                    self.device.wf(),
                    self.lru == old(self).lru,
                    self.slots == old(self).slots,
                    self.device.spec_block_size() == block_size,
                    self.device.spec_reads() == old(self).device.spec_reads(),
                    old(self).device.spec_writes() <= self.device.spec_writes(),
                    can_address(block_size, lba),
                    image@.len() == block_size,
                    decode_block::<BTreeRecord<K>>(image@) == Seq::<BTreeRecord<K>>::empty(),
                    before.len() <= self.device@.len(),
                    self.device@.len() <= lba || self.device@.len() == before.len(),
                    forall|l: int| 0 <= l < before.len() ==> self.device@[l] == before[l],
                    forall|l: int|
                        before.len() <= l < self.device@.len() ==> #[trigger] self.device@[l]
                            == image@,
                decreases lba - self.device@.len(),
            {
                let next = self.device.block_count();
                let ghost held = self.device@;
                proof {
                    assert((next + 1) * block_size <= (lba + 1) * block_size) by (nonlinear_arith)
                        requires
                            next < lba,
                    ;
                }
                let written = self.device.write(next, &image);
                proof {
                    assert(written is Ok);
                    assert forall|l: int| 0 <= l < held.len() implies self.device@[l]
                        == held[l] by {}
                }
            }
        }
        let ghost filled = self.device@;
        let flushed = self.slots[s].flush(&mut self.device);
        proof {
            assert(old(self).slots@[s as int].records@.len() * BTreeRecord::<K>::width()
                <= block_size);
            assert(flushed is Ok);
            lemma_block_round_trip::<BTreeRecord<K>>(
                old(self).slots@[s as int].records@,
                block_size as nat,
            );
            assert forall|l: int| 0 <= l < self.device@.len() implies decode_block::<
                BTreeRecord<K>,
            >(#[trigger] self.device@[l]) == if l == lba {
                old(self).slots@[s as int].records@
            } else if l < before.len() {
                decode_block::<BTreeRecord<K>>(before[l])
            } else {
                Seq::empty()
            } by {
                if l != lba {
                    assert(self.device@[l] == filled[l]);
                }
            }
        }
    }

    /// The slot that holds page `lba`, loading the page if it is not
    /// cached. With `fresh`, a page that is not cached is not read: the
    /// slot then holds an empty page that is marked changed.
    fn slot_of(&mut self, lba: u64, fresh: bool) -> (s: usize)
        requires
            old(self).base_wf(),
            can_address(old(self).spec_block_size(), lba),
        ensures
            final(self).base_wf(),
            forall|i: int|
                0 <= i < final(self).slots@.len() && i != s ==> i < old(self).slots@.len()
                    && #[trigger] final(self).slots@[i] == old(self).slots@[i],
            old(self).is_cached(lba) ==> s < old(self).slots@.len() && final(self).slots@[s as int]
                == old(self).slots@[s as int],
            !old(self).is_cached(lba) ==> final(self).slots@[s as int].parent_lba == NO_PARENT,
            final(self).spec_block_size() == old(self).spec_block_size(),
            final(self).capacity() == old(self).capacity(),
            s < final(self).slots@.len(),
            lru_entries(final(self).lru).contains_key(lba),
            lru_entries(final(self).lru)[lba] == s,
            final(self).slots@[s as int].lba == lba,
            forall|l: u64| l != lba ==> #[trigger] final(self).page(l) == old(self).page(l),
            old(self).is_cached(lba) || !fresh ==> final(self).page(lba) == old(self).page(lba),
            !old(self).is_cached(lba) && fresh ==> final(self).page(lba) == Seq::<
                BTreeRecord<K>,
            >::empty() && final(self).slots@[s as int].dirty,
            old(self).spec_reads() <= final(self).spec_reads(),
            old(self).spec_writes() <= final(self).spec_writes(),
            old(self).is_cached(lba) ==> final(self).spec_reads() == old(self).spec_reads()
                && final(self).spec_writes() == old(self).spec_writes(),
            fresh ==> final(self).spec_reads() == old(self).spec_reads(),
            !old(self).is_cached(lba) && !fresh ==> final(self).spec_reads() == bumped(
                old(self).spec_reads(),
            ),
            !old(self).is_cached(lba) && old(self).cached_count() < old(self).capacity()
                ==> final(self).spec_writes() == old(self).spec_writes(),
            final(self).cached_count() == if old(self).is_cached(lba) || old(self).cached_count()
                >= old(self).capacity() {
                old(self).cached_count()
            } else {
                old(self).cached_count() + 1
            },
    {
        let found = lru_get(&mut self.lru, lba);
        proof {
            self.device.lemma_wf();
            assert forall|i: int| 0 <= i < self.slots@.len() implies #[trigger] self.slot_ok(
                i,
            ) by {
                assert(old(self).slot_ok(i));
            }
            assert forall|l: u64| #[trigger] self.page(l) == old(self).page(l) by {}
        }
        match found {
            Some(s) => {
                return s;
            },
            None => {},
        }
        let ghost entries = lru_entries(self.lru);
        let count = lru_len(&self.lru);
        let page = if fresh {
            Page::<BTreeRecord<K>>::empty(lba, NO_PARENT)
        } else {
            Page::<BTreeRecord<K>>::new(&mut self.device, lba, NO_PARENT)
        };
        proof {
            if !fresh && lba < self.device@.len() {
                lemma_decoded_storable::<BTreeRecord<K>>(self.device@[lba as int]);
            } else {
                assert(0 * BTreeRecord::<K>::width() == 0) by (nonlinear_arith);
            }
            assert forall|i: int| 0 <= i < self.slots@.len() implies #[trigger] self.slot_ok(
                i,
            ) by {
                assert(old(self).slot_ok(i));
            }
        }
        let limit_reached = count >= self.lru_capacity();
        if !limit_reached {
            let s = self.slots.len();
            self.slots.push(page);
            lru_push(&mut self.lru, lba, s);
            proof {
                let after = lru_entries(self.lru);
                assert(after.dom() =~= entries.dom().insert(lba));
                assert forall|i: int| 0 <= i < self.slots@.len() implies #[trigger] self.slot_ok(
                    i,
                ) by {
                    if i < s {
                        assert(old(self).slot_ok(i));
                        assert(self.slots@[i] == old(self).slots@[i]);
                    }
                }
                assert forall|l: u64| #[trigger]
                    after.contains_key(l) implies after[l] < self.slots@.len()
                    && self.slots@[after[l] as int].lba == l by {
                    if l != lba {
                        assert(entries.contains_key(l));
                    }
                }
                assert forall|l: u64| l != lba implies #[trigger] self.page(l) == old(self).page(
                    l,
                ) by {
                    if entries.contains_key(l) {
                        assert(self.slots@[entries[l] as int] == old(self).slots@[entries[l] as int]);
                    }
                }
            }
            return s;
        }
        let popped = lru_pop(&mut self.lru);
        let (old_lba, s) = match popped {
            Some(entry) => entry,
            None => {
                proof {
                    assert(entries.dom().len() == 0);
                }
                (0, 0)
            },
        };
        proof {
            assert(entries.contains_pair(old_lba, s));
            assert(old(self).slot_ok(s as int));
            assert(self.slots@[s as int] == old(self).slots@[s as int]);
        }
        let ghost loaded = self.device@;
        self.write_back(s);
        self.slots[s] = page;
        lru_push(&mut self.lru, lba, s);
        proof {
            let after = lru_entries(self.lru);
            assert(after =~= entries.remove(old_lba).insert(lba, s));
            assert(after.dom() =~= entries.dom().remove(old_lba).insert(lba));
            assert forall|l: u64| #[trigger] after.contains_key(l) implies after[l]
                < self.slots@.len() && self.slots@[after[l] as int].lba == l by {
                if l != lba {
                    assert(entries.contains_key(l));
                    assert(entries[l] != s) by {
                        assert(old(self).slot_ok(entries[l] as int));
                    }
                }
            }
            assert forall|i: int| 0 <= i < self.slots@.len() implies #[trigger] self.slot_ok(
                i,
            ) by {
                if i != s {
                    assert(old(self).slot_ok(i));
                    assert(self.slots@[i] == old(self).slots@[i]);
                    let p = self.slots@[i];
                    if !p.dirty {
                        assert(p.lba != old_lba);
                    }
                }
            }
            assert forall|l: u64| l != lba implies #[trigger] self.page(l) == old(self).page(
                l,
            ) by {
                if l == old_lba {
                } else if entries.contains_key(l) {
                    assert(old(self).slot_ok(entries[l] as int));
                    assert(entries[l] != s);
                    assert(self.slots@[entries[l] as int] == old(self).slots@[entries[l] as int]);
                } else {
                }
            }
        }
        s
    }

    /// Writes every changed page to the device. The pages stay cached.
    pub fn flush(&mut self)
        requires
            old(self).wf(),
        ensures
            final(self).wf(),
            final(self)@ == old(self)@,
            final(self).spec_block_size() == old(self).spec_block_size(),
            final(self).capacity() == old(self).capacity(),
            final(self).spec_reads() == old(self).spec_reads(),
            old(self).spec_writes() <= final(self).spec_writes(),
            forall|lba: u64| !final(self).is_dirty(lba),
            forall|lba: u64| final(self).is_cached(lba) == old(self).is_cached(lba),
            forall|lba: u64|
                #[trigger] final(self)@[lba] == if lba < final(self).stored().len() {
                    decode_block::<BTreeRecord<K>>(final(self).stored()[lba as int])
                } else {
                    Seq::empty()
                },
    {
        let mut i: usize = 0;
        while i < self.slots.len()
            invariant
                self.wf(),
                self@ == old(self)@,
                self.lru == old(self).lru,
                self.spec_block_size() == old(self).spec_block_size(),
                self.spec_reads() == old(self).spec_reads(),
                old(self).spec_writes() <= self.spec_writes(),
                0 <= i <= self.slots@.len(),
                forall|j: int| 0 <= j < i ==> !(#[trigger] self.slots@[j]).dirty,
            decreases self.slots@.len() - i,
        {
            let ghost held = *self;
            proof {
                assert(self.slot_ok(i as int));
            }
            self.write_back(i);
            proof {
                assert forall|j: int| 0 <= j < self.slots@.len() implies #[trigger] self.slot_ok(
                    j,
                ) by {
                    assert(held.slot_ok(j));
                }
                assert forall|l: u64| #[trigger] self.page(l) == held.page(l) by {
                    let entries = lru_entries(self.lru);
                    if entries.contains_key(l) {
                        assert(held.slot_ok(entries[l] as int));
                    }
                }
                assert(self@ =~= held@);
                assert forall|j: int| 0 <= j < self.slots@.len() implies #[trigger] self.parent_ok(
                    j,
                ) by {
                    assert(held.parent_ok(j));
                    assert(self.page(self.slots@[j].parent_lba) == held.page(
                        self.slots@[j].parent_lba,
                    ));
                }
            }
            i += 1;
        }
        proof {
            assert forall|lba: u64| !self.is_dirty(lba) by {
                let entries = lru_entries(self.lru);
                if entries.contains_key(lba) {
                    assert(!self.slots@[entries[lba] as int].dirty);
                }
            }
            assert forall|lba: u64|
                #[trigger] self@[lba] == if lba < self.stored().len() {
                    decode_block::<BTreeRecord<K>>(self.stored()[lba as int])
                } else {
                    Seq::empty()
                } by {
                let entries = lru_entries(self.lru);
                if entries.contains_key(lba) {
                    assert(self.slot_ok(entries[lba] as int));
                }
            }
        }
    }

    /// Hands the device back. Changes still held in memory are lost: flush
    /// first.
    pub fn into_device(self) -> (device: BlockDevice)
        requires
            self.wf(),
        ensures
            device.wf(),
            device@ == self.stored(),
            device.spec_block_size() == self.spec_block_size(),
            device.spec_reads() == self.spec_reads(),
            device.spec_writes() == self.spec_writes(),
    {
        self.device
    }

    /// The limit of the cache.
    fn lru_capacity(&self) -> (limit: usize)
        ensures
            limit == lru_limit(self.lru),
    {
        lru_cap(&self.lru)
    }

    /// The parent to name for page `lba`: `parent` if that page is held
    /// in memory with a pointer to the page, else none.
    fn known_parent(&self, lba: u64, parent: u64) -> (named: u64)
        requires
            self.base_wf(),
        ensures
            named == NO_PARENT || named == parent,
            named != NO_PARENT ==> points_to(self.page(parent), lba),
    {
        if parent == NO_PARENT {
            return NO_PARENT;
        }
        match lru_peek(&self.lru, parent) {
            Some(at) => {
                if holds_pointer(&self.slots[at].records, lba) {
                    parent
                } else {
                    NO_PARENT
                }
            },
            None => NO_PARENT,
        }
    }

    /// The parent that page `lba` is known to have, if the page is held in
    /// memory and names one.
    pub fn parent(&self, lba: u64) -> (r: Option<u64>)
        requires
            self.wf(),
        ensures
            r == if self.is_cached(lba) && self.parent_of(lba) != NO_PARENT {
                Some(self.parent_of(lba))
            } else {
                None
            },
    {
        match lru_peek(&self.lru, lba) {
            Some(at) => {
                let named = self.slots[at].parent_lba;
                if named != NO_PARENT {
                    Some(named)
                } else {
                    None
                }
            },
            None => None,
        }
    }

    /// The records of page `lba`, which is then held in memory.
    pub fn records(&mut self, lba: u64, parent: u64) -> (records: Vec<BTreeRecord<K>>)
        requires
            old(self).wf(),
            can_address(old(self).spec_block_size(), lba),
        ensures
            final(self).wf(),
            final(self)@ == old(self)@,
            final(self).spec_block_size() == old(self).spec_block_size(),
            final(self).capacity() == old(self).capacity(),
            final(self).is_cached(lba),
            final(self).parent_of(lba) == NO_PARENT || final(self).parent_of(lba) == parent,
            records@ == old(self)@[lba],
            old(self).spec_reads() <= final(self).spec_reads(),
            old(self).spec_writes() <= final(self).spec_writes(),
            old(self).is_cached(lba) ==> final(self).spec_reads() == old(self).spec_reads()
                && final(self).spec_writes() == old(self).spec_writes(),
            !old(self).is_cached(lba) ==> final(self).spec_reads() == bumped(
                old(self).spec_reads(),
            ),
            !old(self).is_cached(lba) && old(self).cached_count() < old(self).capacity()
                ==> final(self).spec_writes() == old(self).spec_writes(),
            final(self).cached_count() == if old(self).is_cached(lba) || old(self).cached_count()
                >= old(self).capacity() {
                old(self).cached_count()
            } else {
                old(self).cached_count() + 1
            },
    {
        let s = self.slot_of(lba, false);
        let ghost held = *self;
        let named = self.known_parent(lba, parent);
        self.slots[s].parent_lba = named;
        proof {
            assert forall|i: int| 0 <= i < self.slots@.len() implies #[trigger] self.slot_ok(
                i,
            ) by {
                assert(held.slot_ok(i));
            }
            assert forall|l: u64| #[trigger] self.page(l) == old(self).page(l) by {
                let entries = lru_entries(self.lru);
                if entries.contains_key(l) {
                    assert(held.slot_ok(entries[l] as int));
                }
                assert(held.page(l) == old(self).page(l));
            }
            assert(self@ =~= old(self)@);
            assert forall|i: int| 0 <= i < self.slots@.len() implies #[trigger] self.parent_ok(
                i,
            ) by {
                if i != s {
                    assert(held.slots@[i] == old(self).slots@[i]);
                    assert(old(self).parent_ok(i));
                    assert(self.slots@[i] == old(self).slots@[i]);
                    assert(self.page(self.slots@[i].parent_lba) == old(self).page(
                        self.slots@[i].parent_lba,
                    ));
                } else {
                    assert(self.page(parent) == held.page(parent));
                }
            }
        }
        let mut records: Vec<BTreeRecord<K>> = Vec::new();
        let mut i: usize = 0;
        while i < self.slots[s].records.len()
            invariant
                s < self.slots@.len(),
                0 <= i <= self.slots@[s as int].records@.len(),
                records@ == self.slots@[s as int].records@.take(i as int),
                self.wf(),
                self@ == old(self)@,
            decreases self.slots@[s as int].records@.len() - i,
        {
            records.push(self.slots[s].records[i]);
            proof {
                let all = self.slots@[s as int].records@;
                assert(all.take(i + 1) =~= all.take(i as int).push(all[i as int]));
            }
            i += 1;
        }
        proof {
            let all = self.slots@[s as int].records@;
            assert(all.take(all.len() as int) =~= all);
        }
        records
    }

    /// Makes `records` the records of page `lba`, in memory; the page is
    /// then marked changed.
    pub fn store(&mut self, lba: u64, parent: u64, records: Vec<BTreeRecord<K>>)
        requires
            old(self).wf(),
            can_address(old(self).spec_block_size(), lba),
            storable(records@, old(self).spec_block_size() as nat),
        ensures
            final(self).wf(),
            final(self)@ == old(self)@.insert(lba, records@),
            final(self).spec_block_size() == old(self).spec_block_size(),
            final(self).capacity() == old(self).capacity(),
            final(self).is_dirty(lba),
            final(self).parent_of(lba) == NO_PARENT || final(self).parent_of(lba) == parent,
            old(self).spec_reads() == final(self).spec_reads(),
            old(self).spec_writes() <= final(self).spec_writes(),
            old(self).is_cached(lba) ==> final(self).spec_writes() == old(self).spec_writes(),
            !old(self).is_cached(lba) && old(self).cached_count() < old(self).capacity()
                ==> final(self).spec_writes() == old(self).spec_writes(),
            final(self).cached_count() == if old(self).is_cached(lba) || old(self).cached_count()
                >= old(self).capacity() {
                old(self).cached_count()
            } else {
                old(self).cached_count() + 1
            },
    {
        let s = self.slot_of(lba, true);
        let ghost held = *self;
        self.slots[s].records = records;
        self.slots[s].dirty = true;
        let ghost target = old(self)@.insert(lba, records@);
        proof {
            assert forall|i: int| 0 <= i < self.slots@.len() implies #[trigger] self.slot_ok(
                i,
            ) by {
                assert(held.slot_ok(i));
            }
            assert forall|l: u64| #[trigger] self.page(l) == target[l] by {
                let entries = lru_entries(self.lru);
                if entries.contains_key(l) {
                    assert(held.slot_ok(entries[l] as int));
                }
                if l != lba {
                    assert(held.page(l) == old(self).page(l));
                }
            }
            assert(self@ =~= target);
            assert forall|i: int|
                0 <= i < self.slots@.len() && self.slots@[i].parent_lba != lba implies #[trigger] self.parent_ok(
                i,
            ) by {
                let named = self.slots@[i].parent_lba;
                if i != s {
                    assert(held.slots@[i] == old(self).slots@[i]);
                    assert(old(self).parent_ok(i));
                    assert(self.slots@[i] == old(self).slots@[i]);
                    assert(self.page(named) == old(self).page(named));
                } else if old(self).is_cached(lba) {
                    assert(held.slots@[i] == old(self).slots@[i]);
                    assert(old(self).parent_ok(i));
                    assert(self.page(named) == old(self).page(named));
                }
            }
        }
        let ghost stored = *self;
        let mut i: usize = 0;
        while i < self.slots.len()
            invariant
                0 <= i <= self.slots@.len(),
                s < self.slots@.len(),
                self.base_wf(),
                self@ == target,
                self.lru == stored.lru,
                self.device == stored.device,
                self.slots@.len() == stored.slots@.len(),
                self.slots@[s as int].lba == lba,
                self.slots@[s as int].dirty,
                lru_entries(self.lru).contains_key(lba),
                lru_entries(self.lru)[lba] == s,
                forall|l: u64| #[trigger] self.page(l) == target[l],
                forall|j: int| 0 <= j < i ==> #[trigger] self.parent_ok(j),
                forall|j: int|
                    i <= j < self.slots@.len() && self.slots@[j].parent_lba != lba
                        ==> #[trigger] self.parent_ok(j),
            decreases self.slots@.len() - i,
        {
            let ghost before = *self;
            if self.slots[i].parent_lba == lba {
                let child = self.slots[i].lba;
                if !holds_pointer(&self.slots[s].records, child) {
                    self.slots[i].parent_lba = NO_PARENT;
                }
            }
            proof {
                assert forall|j: int| 0 <= j < self.slots@.len() implies #[trigger] self.slot_ok(
                    j,
                ) by {
                    assert(before.slot_ok(j));
                }
                assert forall|l: u64| #[trigger] self.page(l) == target[l] by {
                    assert(before.page(l) == target[l]);
                }
                assert(self@ =~= target);
                assert forall|j: int|
                    0 <= j < self.slots@.len() && (j <= i || self.slots@[j].parent_lba
                        != lba) implies #[trigger] self.parent_ok(j) by {
                    if j != i {
                        assert(before.parent_ok(j));
                        assert(self.slots@[j] == before.slots@[j]);
                        assert(self.page(self.slots@[j].parent_lba) == before.page(
                            self.slots@[j].parent_lba,
                        ));
                    } else if before.slots@[j].parent_lba != lba {
                        assert(before.parent_ok(j));
                        assert(self.page(self.slots@[j].parent_lba) == before.page(
                            self.slots@[j].parent_lba,
                        ));
                    } else {
                        assert(self.page(lba) == self.slots@[s as int].records@);
                    }
                }
            }
            i += 1;
        }
        let ghost checked = *self;
        let named = self.known_parent(lba, parent);
        self.slots[s].parent_lba = named;
        proof {
            assert forall|j: int| 0 <= j < self.slots@.len() implies #[trigger] self.slot_ok(
                j,
            ) by {
                assert(checked.slot_ok(j));
            }
            assert forall|l: u64| #[trigger] self.page(l) == target[l] by {
                assert(checked.page(l) == target[l]);
            }
            assert(self@ =~= target);
            assert forall|j: int| 0 <= j < self.slots@.len() implies #[trigger] self.parent_ok(
                j,
            ) by {
                if j != s {
                    assert(checked.parent_ok(j));
                    assert(self.slots@[j] == checked.slots@[j]);
                    assert(self.page(self.slots@[j].parent_lba) == checked.page(
                        self.slots@[j].parent_lba,
                    ));
                } else {
                    assert(self.page(parent) == checked.page(parent));
                }
            }
        }
    }
}

/// `LruCache::cap`: the limit the cache was made with.
#[verifier::external_body]
fn lru_cap(cache: &LruCache<u64, usize>) -> (limit: usize)
    ensures
        limit == lru_limit(*cache),
{
    cache.cap().get()
}

} // verus!
