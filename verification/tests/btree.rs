use blockstore::btree::{find_max_below, find_min_below, search_pages, BTree};
use blockstore::cache::{PageCache, NO_PARENT};
use blockstore::btree_key::{BTreeKey, IntKey};
use blockstore::btree_record::BTreeRecord;
use blockstore::bytes::Bytes;
use blockstore::device::BlockDevice;
use blockstore::page::Page;
use blockstore::pair::Pair;
use blockstore::record::{IntRecord, Record};
use rand::seq::SliceRandom;
use rand::thread_rng;

fn new_tree(block_size: u64) -> BTree<IntKey, IntRecord> {
    let device = BlockDevice::new(block_size).unwrap();
    let data_device = BlockDevice::new(block_size).unwrap();
    BTree::<IntKey, IntRecord>::new(device, data_device).unwrap()
}

/// Walks the subtree below `lba` from left to right: checks the number of
/// keys of every node and collects the keys.
fn walk(
    btree: &mut BTree<IntKey, IntRecord>,
    lba: u64,
    depth: u64,
    is_root: bool,
    t: usize,
    out: &mut Vec<i32>,
) {
    let records = btree.node(lba).unwrap();
    let count = records.iter().filter(|r| r.key.is_valid()).count();
    assert!(count <= 2 * t - 1);
    if !is_root {
        assert!(count >= t - 1);
    }
    for record in &records {
        if depth > 0 {
            walk(btree, record.child_lba.unwrap(), depth - 1, false, t, out);
        } else {
            assert!(record.child_lba.is_none());
        }
        if record.key.is_valid() {
            out.push(record.key.value);
        }
    }
}

fn leaf(value: i32) -> BTreeRecord<IntKey> {
    BTreeRecord { child_lba: None, key: IntKey { value }, data_lba: 0 }
}

#[test]
fn test_search() {
    let block_size = 21 * 4; // t = 2
    let mut device = BlockDevice::new(block_size).unwrap();
    {
        let mut root_page = Page::<BTreeRecord<IntKey>>::new(&mut device, 0, 0);
        let mut child1_page = Page::<BTreeRecord<IntKey>>::new(&mut device, 1, 0);
        let mut child2_page = Page::<BTreeRecord<IntKey>>::new(&mut device, 2, 0);

        let record1 = BTreeRecord::<IntKey> { child_lba: Some(1), key: IntKey { value: 10 }, data_lba: 0 };
        let record2 = BTreeRecord::<IntKey> { child_lba: Some(2), key: IntKey::invalid(), data_lba: 0 };
        root_page.records.push(record1);
        root_page.records.push(record2);

        let record1 = BTreeRecord::<IntKey> { child_lba: None, key: IntKey { value: 4 }, data_lba: 0 };
        let record2 = BTreeRecord::<IntKey> { child_lba: None, key: IntKey { value: 7 }, data_lba: 0 };
        child1_page.records.push(record1);
        child1_page.records.push(record2);

        let record1 = BTreeRecord::<IntKey> { child_lba: None, key: IntKey { value: 12 }, data_lba: 0 };
        let record2 = BTreeRecord::<IntKey> { child_lba: None, key: IntKey { value: 20 }, data_lba: 0 };
        let record3 = BTreeRecord::<IntKey> { child_lba: None, key: IntKey::invalid(), data_lba: 0 };
        child2_page.records.push(record1);
        child2_page.records.push(record2);
        child2_page.records.push(record3);

        root_page.flush(&mut device).unwrap();
        child1_page.flush(&mut device).unwrap();
        child2_page.flush(&mut device).unwrap();
    }

    let mut cache = PageCache::<IntKey>::new(device, 4);

    assert_eq!(find_min_below(&mut cache, 0, NO_PARENT, 1), leaf(4));
    assert_eq!(find_max_below(&mut cache, 0, NO_PARENT, 1), leaf(20));
    assert_eq!(find_min_below(&mut cache, 2, 0, 0), leaf(12));
    assert_eq!(find_max_below(&mut cache, 1, 0, 0), leaf(7));

    assert_ne!(search_pages(&mut cache, 1, IntKey { value: 20 }), None);
    assert_ne!(search_pages(&mut cache, 1, IntKey { value: 10 }), None);
    assert_ne!(search_pages(&mut cache, 1, IntKey { value: 7 }), None);
    assert_eq!(search_pages(&mut cache, 1, IntKey { value: 8 }), None);

    assert_eq!(
        search_pages(&mut cache, 1, IntKey { value: 10 }),
        Some(BTreeRecord { child_lba: Some(1), key: IntKey { value: 10 }, data_lba: 0 })
    );
    assert_eq!(search_pages(&mut cache, 1, IntKey { value: 12 }), Some(leaf(12)));
    assert_eq!(search_pages(&mut cache, 1, IntKey { value: 21 }), None);
    assert_eq!(search_pages(&mut cache, 1, IntKey::invalid()), None);
}

#[test]
fn search_finds_what_insert_put_in() {
    let block_size = 21 * 4; // t = 2
    let mut btree = new_tree(block_size);
    for key in [4, 7, 10, 12, 20] {
        assert!(btree.insert(IntKey { value: key }, IntRecord::from_string(key.to_string()).unwrap()));
    }

    assert_ne!(btree.search(IntKey { value: 20 }), None);
    assert_ne!(btree.search(IntKey { value: 10 }), None);
    assert_ne!(btree.search(IntKey { value: 7 }), None);
    assert_eq!(btree.search(IntKey { value: 8 }), None);
    assert_eq!(btree.search(IntKey::invalid()), None);
    // The key in the root comes with the child below it.
    let root = btree.node(0).unwrap();
    let found = btree.search(root[0].key).unwrap();
    assert_eq!(found, root[0]);
    assert!(found.child_lba.is_some());
    assert_eq!(btree.find_min().unwrap().child_lba, None);
    assert_eq!(btree.find_max().unwrap().child_lba, None);
}

#[test]
fn test_split() {
    let mut root_page = Page::<BTreeRecord<IntKey>>::empty(0, 0);
    let mut child_page = Page::<BTreeRecord<IntKey>>::empty(1, 0);

    let record1 = BTreeRecord::<IntKey> { child_lba: Some(1), key: IntKey::invalid(), data_lba: 0 };
    root_page.records.push(record1);

    child_page.records.push(leaf(4));
    child_page.records.push(leaf(7));
    child_page.records.push(leaf(10));

    let mut new_page = Page::<BTreeRecord<IntKey>>::empty(2, 0);
    let at = BTree::<IntKey, IntRecord>::split_child(&mut root_page, &mut child_page, &mut new_page);

    assert_eq!(at, 0);
    assert_eq!(child_page.records, vec![leaf(4)]);
    assert_eq!(new_page.records, vec![leaf(10)]);
    assert_eq!(
        root_page.records,
        vec![
            BTreeRecord { child_lba: Some(1), key: IntKey { value: 7 }, data_lba: 0 },
            BTreeRecord { child_lba: Some(2), key: IntKey::invalid(), data_lba: 0 },
        ]
    );
    assert!(root_page.dirty && child_page.dirty && new_page.dirty);
}

#[test]
fn test_split_with_children() {
    let mut root_page = Page::<BTreeRecord<IntKey>>::empty(0, 0);
    let mut child_page = Page::<BTreeRecord<IntKey>>::empty(1, 0);

    let record1 = BTreeRecord::<IntKey> { child_lba: Some(1), key: IntKey::invalid(), data_lba: 0 };
    root_page.records.push(record1);

    let record1 = BTreeRecord::<IntKey> { child_lba: Some(1), key: IntKey { value: 11 }, data_lba: 0 };
    let record2 = BTreeRecord::<IntKey> { child_lba: Some(2), key: IntKey { value: 13 }, data_lba: 0 };
    let record3 = BTreeRecord::<IntKey> { child_lba: Some(3), key: IntKey { value: 16 }, data_lba: 0 };
    let record4 = BTreeRecord::<IntKey> { child_lba: Some(4), key: IntKey::invalid(), data_lba: 0 };
    child_page.records.push(record1);
    child_page.records.push(record2);
    child_page.records.push(record3);
    child_page.records.push(record4);

    let mut new_page = Page::<BTreeRecord<IntKey>>::empty(2, 0);
    BTree::<IntKey, IntRecord>::split_child(&mut root_page, &mut child_page, &mut new_page);

    assert_eq!(
        child_page.records,
        vec![record1, BTreeRecord { child_lba: Some(2), key: IntKey::invalid(), data_lba: 0 }]
    );
    assert_eq!(new_page.records, vec![record3, record4]);
    assert_eq!(
        root_page.records,
        vec![
            BTreeRecord { child_lba: Some(1), key: IntKey { value: 13 }, data_lba: 0 },
            BTreeRecord { child_lba: Some(2), key: IntKey::invalid(), data_lba: 0 },
        ]
    );
}

#[test]
fn test_insert_random() {
    let block_size = 21 * 4; // t = 2
    let mut btree = new_tree(block_size);

    let mut keys: Vec<i32> = (1..1000).collect();
    keys.shuffle(&mut thread_rng());
    for key in &keys {
        assert!(btree.insert(IntKey { value: *key }, IntRecord::from_string(key.to_string()).unwrap()));
    }

    for key in &keys {
        assert_ne!(btree.search(IntKey { value: *key }), None);
    }
    assert_eq!(btree.search(IntKey { value: 1000 }), None);
}

#[test]
fn test_insert_increasing() {
    let block_size = 21 * 4; // t = 2
    let mut btree = new_tree(block_size);

    let keys: Vec<i32> = (1..1000).collect();

    for key in &keys {
        btree.insert(IntKey { value: *key }, IntRecord::from_string(key.to_string()).unwrap());
    }

    for key in &keys {
        assert_ne!(btree.search(IntKey { value: *key }), None);
    }
}

#[test]
fn test_insert_decreasing() {
    let block_size = 21 * 4; // t = 2
    let mut btree = new_tree(block_size);

    let mut keys: Vec<i32> = (1..100).collect();
    keys.reverse();

    for key in &keys {
        btree.insert(IntKey { value: *key }, IntRecord::new());
    }

    for key in &keys {
        assert_ne!(btree.search(IntKey { value: *key }), None);
    }
}

#[test]
fn test_insert_small_random_duplicates() {
    let block_size = 21 * 4; // t = 2
    let mut btree = new_tree(block_size);

    let mut keys: Vec<i32> = (1..5).collect();
    keys.reverse();
    keys.shuffle(&mut thread_rng());

    for key in &keys {
        btree.insert(IntKey { value: *key }, IntRecord::new());
    }

    for key in &keys {
        btree.insert(IntKey { value: *key }, IntRecord::new());
    }

    for key in &keys {
        assert_ne!(btree.search(IntKey { value: *key }), None);
    }
}

#[test]
fn btree_new_needs_empty_devices_and_room_for_four_records() {
    let small = BlockDevice::new(83).unwrap();
    assert!(BTree::<IntKey, IntRecord>::new(small, BlockDevice::new(256).unwrap()).is_none());
    let narrow = BlockDevice::new(63).unwrap();
    assert!(BTree::<IntKey, IntRecord>::new(BlockDevice::new(84).unwrap(), narrow).is_none());
    let mut used = BlockDevice::new(84).unwrap();
    used.write(0, &vec![0u8; 84]).unwrap();
    assert!(BTree::<IntKey, IntRecord>::new(used, BlockDevice::new(256).unwrap()).is_none());
    let tree = BTree::<IntKey, IntRecord>::new(BlockDevice::new(84).unwrap(), BlockDevice::new(64).unwrap()).unwrap();
    assert_eq!(tree.degree(), 2);
    assert_eq!(tree.height(), 0);
    let wide = BTree::<IntKey, IntRecord>::new(BlockDevice::new(256).unwrap(), BlockDevice::new(256).unwrap()).unwrap();
    assert_eq!(wide.degree(), 6);
}

#[test]
fn insert_rejects_the_invalid_key() {
    let mut btree = new_tree(84);
    assert!(!btree.insert(IntKey::invalid(), IntRecord::new()));
    assert!(btree.insert(IntKey { value: 1 }, IntRecord::new()));
    assert_eq!(btree.search(IntKey::invalid()), None);
}

#[test]
fn tree_grows_level_by_level() {
    let mut btree = new_tree(84);
    for key in 1..=3 {
        btree.insert(IntKey { value: key }, IntRecord::new());
    }
    assert_eq!(btree.height(), 0);
    btree.insert(IntKey { value: 4 }, IntRecord::new());
    assert_eq!(btree.height(), 1);
    for key in 5..=10 {
        btree.insert(IntKey { value: key }, IntRecord::new());
    }
    assert_eq!(btree.height(), 2);
    let found = btree.search(IntKey { value: 2 }).unwrap();
    assert_eq!(found.key, IntKey { value: 2 });
}

#[test]
fn test_remove_small() {
    let block_size = 21 * 4; // t = 2
    let mut btree = new_tree(block_size);

    let keys: Vec<i32> = (1..5).collect();

    for key in &keys {
        btree.insert(IntKey { value: *key }, IntRecord::from_string(key.to_string()).unwrap());
    }

    assert_ne!(btree.search(IntKey { value: 2 }), None);
    btree.remove(IntKey { value: 2 });
    assert_eq!(btree.search(IntKey { value: 2 }), None);

    btree.remove(IntKey { value: 4 });
    assert_eq!(btree.search(IntKey { value: 4 }), None);

    btree.remove(IntKey { value: 1 });
    assert_eq!(btree.search(IntKey { value: 1 }), None);
    assert_ne!(btree.search(IntKey { value: 3 }), None);
}

#[test]
fn test_remove_medium() {
    let block_size = 21 * 4; // t = 2
    let mut btree = new_tree(block_size);

    let keys: Vec<i32> = vec![5, 2, 1, 3, 4, 6, 10, 15, 20, 19, 18, 17, 12, 11, 9, 7, 8, 13, 14, 16];
    let keys_to_remove = vec![12, 9, 19, 2, 8, 7, 5, 10, 15, 1, 14, 20, 13, 6, 11, 18, 17, 16, 4, 3];

    let mut keys_to_stay: Vec<i32> = keys.clone();

    for key in &keys {
        btree.insert(IntKey { value: *key }, IntRecord::from_string(key.to_string()).unwrap());
    }

    for key in &keys_to_remove {
        assert_ne!(btree.search(IntKey { value: *key }), None);
        btree.remove(IntKey { value: *key });

        assert_eq!(btree.search(IntKey { value: *key }), None);

        let index = keys_to_stay.iter().position(|x| *x == *key).unwrap();
        keys_to_stay.remove(index);

        for key in &keys_to_stay {
            assert_ne!(btree.search(IntKey { value: *key }), None);
        }
    }

    for key in &keys_to_stay {
        assert_ne!(btree.search(IntKey { value: *key }), None);
    }
    assert!(keys_to_stay.is_empty());
    assert_eq!(btree.height(), 0);
    assert_eq!(btree.find_min(), None);
    assert_eq!(btree.find_max(), None);
}

#[test]
fn test_remove_smoke() {
    let block_size = 21 * 4; // t = 2
    let mut btree = new_tree(block_size);

    let mut keys: Vec<i32> = (1..=1000).collect();
    keys.shuffle(&mut thread_rng());
    let mut keys_to_stay: Vec<i32> = keys.clone();

    let keys_to_remove: Vec<i32> = keys.choose_multiple(&mut thread_rng(), 500).cloned().collect();

    for key in &keys {
        btree.insert(IntKey { value: *key }, IntRecord::from_string(key.to_string()).unwrap());
    }

    for key in &keys_to_remove {
        assert_ne!(btree.search(IntKey { value: *key }), None);
        btree.remove(IntKey { value: *key });
        assert_eq!(btree.search(IntKey { value: *key }), None);

        let index = keys_to_stay.iter().position(|x| *x == *key).unwrap();
        keys_to_stay.remove(index);

        for key in &keys_to_stay {
            assert_ne!(btree.search(IntKey { value: *key }), None);
        }
    }
    assert_eq!(btree.find_min().unwrap().key.value, *keys_to_stay.iter().min().unwrap());
    assert_eq!(btree.find_max().unwrap().key.value, *keys_to_stay.iter().max().unwrap());
}

#[test]
fn remove_with_a_wider_node() {
    // 256 bytes hold twelve records: t = 6.
    let mut btree = new_tree(256);
    let mut keys: Vec<i32> = (-300..300).collect();
    keys.shuffle(&mut thread_rng());
    for key in &keys {
        assert!(btree.insert(IntKey { value: *key }, IntRecord::new()));
    }
    keys.shuffle(&mut thread_rng());
    for (n, key) in keys.iter().enumerate() {
        btree.remove(IntKey { value: *key });
        assert_eq!(btree.search(IntKey { value: *key }), None);
        if n % 50 == 0 {
            for rest in &keys[n + 1..] {
                assert!(btree.search(IntKey { value: *rest }).is_some());
            }
        }
    }
    assert_eq!(btree.height(), 0);
}

#[test]
fn remove_of_a_missing_key_changes_nothing() {
    let mut btree = new_tree(84);
    for key in 1..=20 {
        btree.insert(IntKey { value: key }, IntRecord::new());
    }
    btree.remove(IntKey { value: 50 });
    btree.remove(IntKey::invalid());
    for key in 1..=20 {
        assert!(btree.search(IntKey { value: key }).is_some());
    }
}

#[test]
fn payload_is_kept_for_the_first_insert_of_a_key() {
    let mut btree = new_tree(256);
    let first = IntRecord::from_string("1 2 3".to_string()).unwrap();
    let second = IntRecord::from_string("4 5 6".to_string()).unwrap();
    assert!(btree.insert(IntKey { value: 7 }, first));
    assert!(btree.insert(IntKey { value: 7 }, second));
    let found = btree.search(IntKey { value: 7 }).unwrap();
    let payload = btree.get_record(IntKey { value: 7 }, found.data_lba).unwrap();
    assert_eq!(payload.numbers(), first.numbers());
    assert!(btree.get_record(IntKey { value: 8 }, found.data_lba).is_none());

    btree.remove(IntKey { value: 7 });
    assert!(btree.get_record(IntKey { value: 7 }, found.data_lba).is_none());
}

#[test]
fn data_blocks_fill_up_and_are_used_again() {
    // 256 bytes hold four pairs of 64 bytes.
    let mut btree = new_tree(256);
    for key in 1..=9 {
        btree.insert(IntKey { value: key }, IntRecord::from_string(key.to_string()).unwrap());
    }
    let blocks: Vec<u64> = (1..=9).map(|k| btree.search(IntKey { value: k }).unwrap().data_lba).collect();
    assert_eq!(blocks, [0, 0, 0, 0, 1, 1, 1, 1, 2]);
    btree.remove(IntKey { value: 2 });
    btree.insert(IntKey { value: 10 }, IntRecord::from_string("10".to_string()).unwrap());
    assert_eq!(btree.search(IntKey { value: 10 }).unwrap().data_lba, 0);
    let payload = btree.get_record(IntKey { value: 10 }, 0).unwrap();
    assert_eq!(payload.numbers()[0], 10);
}

#[test]
fn closed_tree_leaves_its_pages_on_the_devices() {
    let mut btree = new_tree(84);
    for key in 1..=30 {
        btree.insert(IntKey { value: key }, IntRecord::from_string(key.to_string()).unwrap());
    }
    let height = btree.height();
    let root = btree.node(0).unwrap();
    assert!(btree.node(u64::MAX).is_none());
    assert!(btree.index_reads() > 0 && btree.index_writes() > 0);
    assert!(btree.data_writes() >= 30);
    let (mut index, mut data) = btree.close();
    let page = Page::<BTreeRecord<IntKey>>::new(&mut index, 0, u64::MAX);
    assert_eq!(page.records, root);
    assert!(height >= 2);
    let pairs = Page::<Pair<IntKey, IntRecord>>::new(&mut data, 0, u64::MAX);
    assert_eq!(pairs.records.len(), 1);
    assert_eq!(pairs.records[0].key, IntKey { value: 1 });
}

#[test]
fn every_node_holds_a_number_of_keys_in_range_and_keys_in_order() {
    let mut btree = new_tree(84);
    let mut keys: Vec<i32> = (1..200).collect();
    keys.shuffle(&mut thread_rng());
    for key in &keys {
        btree.insert(IntKey { value: *key }, IntRecord::new());
    }
    for key in keys.iter().take(120) {
        btree.remove(IntKey { value: *key });
    }
    let kept: Vec<i32> = {
        let mut rest: Vec<i32> = keys[120..].to_vec();
        rest.sort();
        rest
    };
    let t = btree.degree() as usize;
    let height = btree.height();
    let mut found = Vec::new();
    walk(&mut btree, 0, height, true, t, &mut found);
    assert_eq!(found, kept);
    let n = found.len() as u64;
    assert!(2 * (t as u64).pow(height as u32) <= n + 1);
}

#[test]
fn a_named_parent_is_the_node_that_points_to_the_page() {
    let mut btree = new_tree(84);
    let mut keys: Vec<i32> = (1..300).collect();
    keys.shuffle(&mut thread_rng());
    let mut named = 0;
    for (n, key) in keys.iter().enumerate() {
        btree.insert(IntKey { value: *key }, IntRecord::new());
        if n % 3 == 0 {
            btree.remove(IntKey { value: keys[n / 2] });
        }
        let mut level: Vec<u64> = vec![0];
        for _ in 0..btree.height() {
            let mut next = Vec::new();
            for lba in &level {
                for record in btree.node(*lba).unwrap() {
                    let child = record.child_lba.unwrap();
                    if let Some(parent) = btree.parent_of(child) {
                        assert_eq!(parent, *lba);
                        named += 1;
                    }
                    next.push(child);
                }
            }
            level = next;
        }
    }
    assert!(named > 0);
}

#[test]
fn get_returns_the_payload_of_a_key() {
    let mut btree = new_tree(256);
    for key in 1..=50 {
        btree.insert(IntKey { value: key }, IntRecord::from_string(format!("{} 2 3", key)).unwrap());
    }
    for key in (1..=50).step_by(2) {
        btree.remove(IntKey { value: key });
    }
    for key in 1..=50 {
        let payload = btree.get(IntKey { value: key });
        if key % 2 == 0 {
            assert_eq!(payload.unwrap().numbers()[0], key as u32);
        } else {
            assert!(payload.is_none());
        }
    }
    btree.insert(IntKey { value: 3 }, IntRecord::from_string("99".to_string()).unwrap());
    assert_eq!(btree.get(IntKey { value: 3 }).unwrap().numbers()[0], 99);
    btree.insert(IntKey { value: 3 }, IntRecord::from_string("100".to_string()).unwrap());
    assert_eq!(btree.get(IntKey { value: 3 }).unwrap().numbers()[0], 99);
}

#[test]
fn six_keys_in_order_fill_these_pages() {
    let mut btree = new_tree(21 * 4); // t = 2
    assert!(btree.can_insert());
    for key in 1..=6 {
        assert!(btree.insert(IntKey { value: key }, IntRecord::from_string(key.to_string()).unwrap()));
    }
    assert_eq!(btree.height(), 1);
    let root = btree.node(0).unwrap();
    let keys: Vec<i32> = root.iter().map(|r| r.key.value).collect();
    let children: Vec<Option<u64>> = root.iter().map(|r| r.child_lba).collect();
    assert_eq!(keys, [2, 4, IntKey::invalid().value]);
    assert_eq!(children, [Some(1), Some(2), Some(3)]);
    let keys_of = |records: Vec<BTreeRecord<IntKey>>| -> Vec<i32> {
        records.iter().map(|r| r.key.value).collect()
    };
    assert_eq!(keys_of(btree.node(1).unwrap()), [1]);
    assert_eq!(keys_of(btree.node(2).unwrap()), [3]);
    assert_eq!(keys_of(btree.node(3).unwrap()), [5, 6]);
}

#[test]
fn a_page_given_back_is_handed_out_again() {
    let mut btree = new_tree(21 * 4); // t = 2
    for key in 1..=4 {
        assert!(btree.insert(IntKey { value: key }, IntRecord::from_string(key.to_string()).unwrap()));
    }
    // Root 2 over [1] and [3, 4]: taking 1 and 3 out joins the leaves in the root.
    btree.remove(IntKey { value: 1 });
    btree.remove(IntKey { value: 3 });
    assert_eq!(btree.height(), 0);
    assert_eq!(btree.node(1).unwrap(), vec![]);
    assert_eq!(btree.node(2).unwrap(), vec![]);
    for key in 5..=7 {
        assert!(btree.insert(IntKey { value: key }, IntRecord::from_string(key.to_string()).unwrap()));
    }
    // The root was full at the last insert: pages 1 and 2 are in use again.
    assert_eq!(btree.height(), 1);
    let root = btree.node(0).unwrap();
    let children: Vec<Option<u64>> = root.iter().map(|r| r.child_lba).collect();
    assert_eq!(children, [Some(1), Some(2)]);
}
