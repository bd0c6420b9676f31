use blockstore::btree_key::{BTreeKey, IntKey};
use blockstore::btree_record::BTreeRecord;
use blockstore::bytes::Bytes;
use blockstore::pair::Pair;
use blockstore::record::{read_record, IntRecord, Record, RecordError};

#[test]
fn record_test_from_string() {
    let record = IntRecord::from_string("1 2 3 4 5 6 7".to_string()).unwrap();

    assert_eq!(
        record.numbers(),
        [1u32, 2, 3, 4, 5, 6, 7, 0, 0, 0, 0, 0, 0, 0, 0]
    );
}

#[test]
fn record_test_from_bytes() {
    let mut bytes: Vec<u8> = vec![0u8; 15 * std::mem::size_of::<u32>()];
    bytes[0] = 1;
    bytes[1] = 0;
    bytes[2] = 0;
    bytes[3] = 0;
    bytes[4] = 2;
    bytes[5] = 0;
    bytes[6] = 0;
    bytes[7] = 0;

    let record = IntRecord::from_bytes(&bytes);

    assert_eq!(
        record.numbers(),
        [1u32, 2, 0, 0, 0, 0, 0, 0, 0, 0, 0, 0, 0, 0, 0]
    );
}

#[test]
fn btree_key_test_to_bytes() {
    let key = IntKey { value: 7 };

    assert_eq!(key.to_bytes(), [7u8, 0, 0, 0]);
}

#[test]
fn btree_key_test_from_bytes() {
    let bytes: Vec<u8> = vec![7u8, 0, 0, 0];

    let key = IntKey::from_bytes(&bytes);

    assert_eq!(key.value, 7);
}

#[test]
fn btree_record_test_to_bytes() {
    let key = IntKey { value: 7 };
    let record = BTreeRecord {
        child_lba: Some(0xDEADBEEFAAAABBBB),
        data_lba: 0xFFEEFFEEFFEEFFEE,
        key: key,
    };

    let bytes = record.to_bytes();

    assert_eq!(
        bytes,
        [
            1u8, 0xBB, 0xBB, 0xAA, 0xAA, 0xEF, 0xBE, 0xAD, 0xDE, 0xEE, 0xFF, 0xEE, 0xFF, 0xEE,
            0xFF, 0xEE, 0xFF, 7, 0, 0, 0
        ]
    );
}

#[test]
fn btree_record_test_from_bytes() {
    let key = IntKey { value: 7 };
    let record = BTreeRecord {
        child_lba: Some(0xDEADBEEFAAAABBBB),
        data_lba: 0xFFEEFFEEFFEEFFEE,
        key: key,
    };

    let bytes = vec![
        1u8, 0xBB, 0xBB, 0xAA, 0xAA, 0xEF, 0xBE, 0xAD, 0xDE, 0xEE, 0xFF, 0xEE, 0xFF, 0xEE,
        0xFF, 0xEE, 0xFF, 7, 0, 0, 0,
    ];

    let record_from_bytes = BTreeRecord::<IntKey>::from_bytes(&bytes);

    assert_eq!(record, record_from_bytes,);
}

#[test]
fn test_from_bytes_none() {
    let key = IntKey { value: 7 };
    let record = BTreeRecord {
        child_lba: None,
        data_lba: 0xFFEEFFEEFFEEFFEE,
        key: key,
    };

    let bytes = vec![
        0u8, 0, 0, 0, 0, 0, 0, 0, 0, 0xEE, 0xFF, 0xEE, 0xFF, 0xEE, 0xFF, 0xEE, 0xFF, 7, 0, 0, 0,
    ];

    let record_from_bytes = BTreeRecord::<IntKey>::from_bytes(&bytes);

    assert_eq!(record, record_from_bytes,);
}

#[test]
fn test_invalid() {
    let key = IntKey { value: 7 };
    let record = BTreeRecord {
        child_lba: Some(0xDEADBEEFAAAABBBB),
        data_lba: 0xFFEEFFEEFFEEFFEE,
        key: key,
    };

    let invalid_record = BTreeRecord::<IntKey>::invalid();

    assert_ne!(record, invalid_record);
}

#[test]
fn test_partially_invalid() {
    let key = IntKey::invalid();
    let record = BTreeRecord {
        child_lba: Some(0xDEADBEEFAAAABBBB),
        data_lba: 0,
        key: key,
    };

    let invalid_record = BTreeRecord::<IntKey>::invalid();

    assert_ne!(record, invalid_record);
    assert!(!record.is_invalid());
    assert!(invalid_record.is_invalid());
}

#[test]
fn pair_test_to_bytes() {
    let pair = Pair {
        key: IntKey { value: 5 },
        value: IntRecord::from_string("1 2 3 4 5".to_string()).unwrap(),
    };

    assert_eq!(
        pair.to_bytes(),
        vec![
            5, 0, 0, 0, 1, 0, 0, 0, 2, 0, 0, 0, 3, 0, 0, 0, 4, 0, 0, 0, 5, 0, 0, 0, 0, 0, 0, 0, 0,
            0, 0, 0, 0, 0, 0, 0, 0, 0, 0, 0, 0, 0, 0, 0, 0, 0, 0, 0, 0, 0, 0, 0, 0, 0, 0, 0, 0, 0,
            0, 0, 0, 0, 0, 0
        ]
    );
}

#[test]
fn int_key_round_trip_negative() {
    for value in [-1, -1_000_000, i32::MIN, i32::MAX, 0, 42] {
        let key = IntKey { value };
        let bytes = key.to_bytes();
        assert_eq!(bytes.len() as u64, IntKey::get_size());
        assert_eq!(IntKey::from_bytes(&bytes), key);
    }
    assert_eq!(IntKey { value: -2 }.to_bytes(), [0xFEu8, 0xFF, 0xFF, 0xFF]);
}

#[test]
fn int_key_order_puts_invalid_on_top() {
    let invalid = IntKey::invalid();
    assert!(!invalid.is_valid());
    assert!(IntKey { value: 0 }.is_valid());
    assert!(IntKey { value: i32::MAX }.is_below(&invalid));
    assert!(IntKey { value: -5 }.is_below(&IntKey { value: 3 }));
    assert!(!IntKey { value: 3 }.is_below(&IntKey { value: 3 }));
    assert!(!invalid.is_below(&IntKey { value: 3 }));
    let mut key = IntKey { value: 9 };
    key.invalidate();
    assert!(key.is_same(&invalid));
}

#[test]
fn int_record_round_trip_and_size() {
    let record = IntRecord::from_numbers([1, 2, 3, 0xffff_ffff, 5, 6, 7, 8, 9, 10, 11, 12, 13, 14, 0x0102_0304]);
    let bytes = record.to_bytes();
    assert_eq!(bytes.len() as u64, IntRecord::get_size());
    assert_eq!(&bytes[56..60], &[4u8, 3, 2, 1]);
    assert_eq!(IntRecord::from_bytes(&bytes).numbers(), record.numbers());
    assert!(IntRecord::new().is_invalid());
    assert!(!record.is_invalid());
}

#[test]
fn int_record_counts_primes() {
    let record = IntRecord::from_numbers([0, 1, 2, 3, 4, 5, 6, 7, 8, 9, 10, 11, 12, 13, 97]);
    assert_eq!(record.get_primes(), 7);
    assert_eq!(record.sort_key(), 7);
    assert_eq!(IntRecord::new().get_primes(), 0);
}

#[test]
fn int_record_from_string_edge_cases() {
    let parse = |s: &str| IntRecord::from_string(s.to_string()).unwrap().numbers();
    assert_eq!(parse(""), [0u32; 15]);
    assert_eq!(parse("  \t\n "), [0u32; 15]);
    assert_eq!(parse("+7 x 4294967295 4294967296 -3 12a 08")[..7], [7, 0, 4294967295, 0, 0, 0, 8]);
    assert_eq!(parse("+")[0], 0);
    assert_eq!(
        parse("1 2 3 4 5 6 7 8 9 10 11 12 13 14 15 16 17"),
        [1, 2, 3, 4, 5, 6, 7, 8, 9, 10, 11, 12, 13, 14, 15]
    );
    assert_eq!(parse("1\r\n2\x0c3")[..3], [1, 2, 3]);
}

#[test]
fn int_record_from_random_in_range() {
    for _ in 0..20 {
        let record = IntRecord::from_random().unwrap();
        assert!(record.numbers().iter().all(|n| (1..10).contains(n)));
    }
}

#[test]
fn btree_record_round_trip() {
    for record in [
        BTreeRecord { child_lba: None, data_lba: 3, key: IntKey { value: -9 } },
        BTreeRecord { child_lba: Some(0), data_lba: 0, key: IntKey::invalid() },
        BTreeRecord { child_lba: Some(u64::MAX), data_lba: u64::MAX, key: IntKey { value: 1 } },
    ] {
        let bytes = record.to_bytes();
        assert_eq!(bytes.len() as u64, BTreeRecord::<IntKey>::get_size());
        assert_eq!(BTreeRecord::<IntKey>::from_bytes(&bytes), record);
    }
    assert_eq!(BTreeRecord::<IntKey>::get_size(), 21);
}

#[test]
fn record_of_the_wrong_width_or_without_numbers_is_refused() {
    let mut bytes: Vec<u8> = vec![0u8; 16 * std::mem::size_of::<u32>()];
    bytes[0] = 1;
    bytes[4] = 2;
    assert_eq!(read_record::<IntRecord>(&bytes).err(), Some(RecordError::InvalidData));
    bytes.truncate(60);
    let record = read_record::<IntRecord>(&bytes).unwrap();
    assert_eq!(record.numbers()[..3], [1, 2, 0]);
    assert_eq!(read_record::<IntRecord>(&vec![0u8; 60]).err(), Some(RecordError::NotFound));
}
