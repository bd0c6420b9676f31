use blockstore::btree_key::IntKey;
use blockstore::btree_page::BTreePage;
use blockstore::btree_record::BTreeRecord;
use blockstore::bytes::Bytes;
use blockstore::cache::PageCache;
use blockstore::device::{BlockDevice, DeviceError};
use blockstore::page::Page;

fn block_of_invalid_records(block_size: u64) -> Vec<u8> {
    let mut bytes = vec![0u8; block_size as usize];
    let mut off = 0 as usize;
    let len = BTreeRecord::<IntKey>::get_size() as usize;
    while off + len <= block_size as usize {
        bytes[off..off + len].copy_from_slice(&BTreeRecord::<IntKey>::invalid().to_bytes());
        off += len;
    }
    bytes
}

#[test]
fn page_test_new_empty() {
    let block_size = 256;
    let mut device = BlockDevice::new(block_size).unwrap();

    let bytes = block_of_invalid_records(block_size);

    device.write(0, &bytes).unwrap();

    let page = Page::<BTreeRecord<IntKey>>::new(&mut device, 0, 0);

    assert_eq!(page.records, Vec::<BTreeRecord<IntKey>>::new());
    assert!(!page.dirty);
}

#[test]
fn page_test_new_one_record() {
    let block_size = 256;
    let mut device = BlockDevice::new(block_size).unwrap();

    let mut bytes = block_of_invalid_records(block_size);

    let key = IntKey { value: 7 };
    let record = BTreeRecord {
        child_lba: Some(0xDEADBEEFAAAABBBB),
        data_lba: 0xFFEEFFEEFFEEFFEE,
        key: key,
    };
    bytes[0..BTreeRecord::<IntKey>::get_size() as usize].copy_from_slice(&record.to_bytes());

    device.write(0, &bytes).unwrap();

    let page = Page::<BTreeRecord<IntKey>>::new(&mut device, 0, 0);

    let mut expected_records = Vec::<BTreeRecord<IntKey>>::new();
    expected_records.push(record);

    assert_ne!(page.records, Vec::<BTreeRecord<IntKey>>::new());
    assert_eq!(page.records, expected_records);
}

#[test]
fn page_of_a_missing_block_is_empty_and_dirty() {
    let mut device = BlockDevice::new(84).unwrap();
    let mut page = Page::<BTreeRecord<IntKey>>::new(&mut device, 3, 1);
    assert!(page.records.is_empty());
    assert!(page.dirty);
    assert_eq!((page.lba, page.parent_lba), (3, 1));
    assert_eq!(device.reads(), 1);
    page.flush(&mut device).unwrap();
    assert!(!page.dirty);
    assert_eq!(device.block_count(), 4);
    assert_eq!(device.writes(), 1);
    assert_eq!(device.read_internal(3).unwrap(), block_of_invalid_records(84));
    assert_eq!(device.read_internal(1).unwrap(), vec![0u8; 84]);
}

#[test]
fn page_that_was_not_changed_is_not_written() {
    let mut device = BlockDevice::new(84).unwrap();
    device.write(0, &block_of_invalid_records(84)).unwrap();
    let writes = device.writes();
    let mut page = Page::<BTreeRecord<IntKey>>::new(&mut device, 0, 0);
    page.flush(&mut device).unwrap();
    assert_eq!(device.writes(), writes);
}

#[test]
fn page_that_was_changed_is_written_once() {
    let mut device = BlockDevice::new(84).unwrap();
    device.write(0, &block_of_invalid_records(84)).unwrap();
    let writes = device.writes();
    let mut page = Page::<BTreeRecord<IntKey>>::new(&mut device, 0, 0);
    let record = BTreeRecord { child_lba: None, data_lba: 9, key: IntKey { value: 1 } };
    page.records.push(record);
    page.dirty = true;
    page.flush(&mut device).unwrap();
    assert_eq!(device.writes(), writes + 1);
    page.flush(&mut device).unwrap();
    assert_eq!(device.writes(), writes + 1);
    let again = Page::<BTreeRecord<IntKey>>::new(&mut device, 0, 0);
    assert_eq!(again.records, vec![record]);
}

#[test]
fn page_with_too_many_records_is_refused() {
    let mut device = BlockDevice::new(84).unwrap();
    let mut page = Page::<BTreeRecord<IntKey>>::empty(0, 0);
    for value in 0..5 {
        page.records.push(BTreeRecord { child_lba: None, data_lba: 0, key: IntKey { value } });
    }
    assert_eq!(page.flush(&mut device), Err(DeviceError::InvalidSize));
    assert!(page.dirty);
    assert_eq!(device.block_count(), 0);
    page.records.pop();
    assert_eq!(page.flush(&mut device), Ok(()));
    assert_eq!(page.to_block(84).len(), 84);
}

#[test]
fn guard_record_does_not_end_a_block() {
    let mut device = BlockDevice::new(84).unwrap();
    let mut page = Page::<BTreeRecord<IntKey>>::empty(0, 0);
    let guard = BTreeRecord { child_lba: Some(5), data_lba: 0, key: IntKey::invalid() };
    let key = BTreeRecord { child_lba: Some(4), data_lba: 2, key: IntKey { value: 3 } };
    page.records.push(key);
    page.records.push(guard);
    page.flush(&mut device).unwrap();
    let again = Page::<BTreeRecord<IntKey>>::new(&mut device, 0, 0);
    assert_eq!(again.records, vec![key, guard]);
}

#[test]
fn device_reads_writes_and_grows() {
    assert_eq!(BlockDevice::new(0).err(), Some(DeviceError::InvalidSize));
    let mut device = BlockDevice::new(4).unwrap();
    assert_eq!(device.block_size(), 4);
    assert_eq!(device.size(), 0);
    assert_eq!(device.read(0), Err(DeviceError::Io));
    assert_eq!(device.reads(), 1);
    assert_eq!(device.write(2, &vec![1, 2, 3]), Err(DeviceError::InvalidSize));
    assert_eq!(device.writes(), 1);
    assert_eq!(device.write(2, &vec![1, 2, 3, 4]), Ok(4));
    assert_eq!(device.writes(), 2);
    assert_eq!(device.size(), 12);
    assert_eq!(device.read(0), Ok(vec![0, 0, 0, 0]));
    assert_eq!(device.read(2), Ok(vec![1, 2, 3, 4]));
    assert_eq!(device.read(3), Err(DeviceError::Io));
    assert_eq!(device.reads(), 4);
    assert_eq!(device.write_internal(0, &vec![9, 9, 9, 9]), Ok(4));
    assert_eq!(device.read_internal(0), Ok(vec![9, 9, 9, 9]));
    assert_eq!((device.reads(), device.writes()), (4, 2));
    assert_eq!(device.write(u64::MAX, &vec![0, 0, 0, 0]), Err(DeviceError::Io));
    assert_eq!(device.block_count(), 3);
}

#[test]
fn cache_writes_back_the_page_that_leaves() {
    let device = BlockDevice::new(84).unwrap();
    let mut cache = PageCache::<IntKey>::new(device, 2);
    let record = |value: i32| BTreeRecord { child_lba: None, data_lba: 0, key: IntKey { value } };
    cache.store(0, u64::MAX, vec![record(1)]);
    cache.store(1, 0, vec![record(2)]);
    assert_eq!(cache.writes(), 0);
    // Page 0 was used least recently: it leaves for page 2.
    cache.store(2, 0, vec![record(3)]);
    assert_eq!(cache.writes(), 1);
    assert_eq!(cache.reads(), 0);
    // Page 1 leaves for page 0, which comes back from the device.
    assert_eq!(cache.records(0, u64::MAX), vec![record(1)]);
    assert_eq!(cache.reads(), 1);
    assert_eq!(cache.writes(), 2);
    assert_eq!(cache.records(2, 0), vec![record(3)]);
    assert_eq!(cache.reads(), 1);
    cache.flush();
    let mut device = cache.into_device();
    assert_eq!(device.block_count(), 3);
    for lba in 0..3u64 {
        let page = Page::<BTreeRecord<IntKey>>::new(&mut device, lba, 0);
        assert_eq!(page.records, vec![record(lba as i32 + 1)]);
    }
}

#[test]
fn cache_creates_the_blocks_below_a_page_empty() {
    let device = BlockDevice::new(84).unwrap();
    let mut cache = PageCache::<IntKey>::new(device, 1);
    let record = BTreeRecord { child_lba: None, data_lba: 0, key: IntKey { value: 0 } };
    cache.store(2, 0, vec![record]);
    assert!(cache.records(1, 0).is_empty());
    assert!(cache.records(0, 0).is_empty());
    assert_eq!(cache.records(2, 0), vec![record]);
}

#[test]
fn cache_names_a_parent_only_while_it_points_to_the_page() {
    let device = BlockDevice::new(84).unwrap();
    let mut cache = PageCache::<IntKey>::new(device, 4);
    let guard = |child: u64| BTreeRecord { child_lba: Some(child), data_lba: 0, key: IntKey::invalid() };
    let leaf = BTreeRecord { child_lba: None, data_lba: 0, key: IntKey { value: 1 } };
    cache.store(0, u64::MAX, vec![guard(1)]);
    assert_eq!(cache.parent(0), None);
    cache.store(1, 0, vec![leaf]);
    assert_eq!(cache.parent(1), Some(0));
    // Page 2 is not pointed to by page 0: no parent is named.
    cache.store(2, 0, vec![leaf]);
    assert_eq!(cache.parent(2), None);
    // Page 0 points elsewhere now: page 1 forgets its parent, page 2 learns it
    // when it is asked for through page 0 again.
    cache.store(0, u64::MAX, vec![guard(2)]);
    assert_eq!(cache.parent(1), None);
    assert_eq!(cache.parent(2), None);
    cache.records(2, 0);
    assert_eq!(cache.parent(2), Some(0));
    cache.records(2, 1);
    assert_eq!(cache.parent(2), None);
    assert_eq!(cache.parent(7), None);
}

#[test]
fn btree_page_test_new_empty() {
    let block_size = 256;
    let mut device = BlockDevice::new(block_size).unwrap();

    let bytes = block_of_invalid_records(block_size);

    device.write(0, &bytes).unwrap();

    let page = BTreePage::<IntKey>::new(&mut device, 0, 0);

    assert_eq!(page.records, Vec::<BTreeRecord<IntKey>>::new());
}

#[test]
fn btree_page_test_new_one_record() {
    let block_size = 256;
    let mut device = BlockDevice::new(block_size).unwrap();

    let mut bytes = block_of_invalid_records(block_size);

    let key = IntKey { value: 7 };
    let record = BTreeRecord {
        child_lba: Some(0xDEADBEEFAAAABBBB),
        data_lba: 0xFFEEFFEEFFEEFFEE,
        key: key,
    };
    bytes[0..BTreeRecord::<IntKey>::get_size() as usize].copy_from_slice(&record.to_bytes());

    device.write(0, &bytes).unwrap();

    let page = BTreePage::<IntKey>::new(&mut device, 0, 0);

    let mut expected_records = Vec::<BTreeRecord<IntKey>>::new();
    expected_records.push(record);

    assert_ne!(page.records, Vec::<BTreeRecord<IntKey>>::new());
    assert_eq!(page.records, expected_records);
    assert!(!page.dirty);
    let missing = BTreePage::<IntKey>::new(&mut device, 5, 0);
    assert!(missing.records.is_empty() && missing.dirty);
}
