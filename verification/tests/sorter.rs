use blockstore::bytes::Bytes;
use blockstore::device::BlockDevice;
use blockstore::record::{IntRecord, Record};
use blockstore::tape::Tape;

/// A record that has exactly `primes` prime numbers, and `tag` to tell it
/// from others with the same count.
fn record_with(primes: usize, tag: u32) -> IntRecord {
    let mut numbers = [1u32; 15];
    for slot in numbers.iter_mut().take(primes) {
        *slot = 2;
    }
    numbers[14] = 4 * tag + 4;
    IntRecord::from_numbers(numbers)
}

fn tape_of(block_size: u64, keys: &[usize]) -> Tape<IntRecord> {
    let device = BlockDevice::new(block_size).unwrap();
    let mut tape = Tape::<IntRecord>::new(device);
    for (tag, primes) in keys.iter().enumerate() {
        tape.write_next_record(&record_with(*primes, tag as u32));
    }
    tape
}

fn keys_of(tape: &mut Tape<IntRecord>) -> Vec<u64> {
    tape.records().iter().map(|r| r.sort_key()).collect()
}

#[test]
fn sorter_mixed_input() {
    let mut tape = tape_of(240, &[5, 2, 1, 3, 4]);
    assert!(tape.can_sort());
    let report = tape.sort();
    assert_eq!(keys_of(&mut tape), [1, 2, 3, 4, 5]);
    assert_eq!(report.runs, 1);
}

#[test]
fn sorter_ascending_input_needs_no_round() {
    let mut tape = tape_of(240, &[1, 2, 3, 4, 5]);
    let report = tape.sort();
    assert_eq!(keys_of(&mut tape), [1, 2, 3, 4, 5]);
    assert_eq!(report.runs, 0);
}

#[test]
fn sorter_reversed_input() {
    let mut tape = tape_of(240, &[5, 4, 3, 2, 1]);
    let mut first = Tape::<IntRecord>::new(BlockDevice::new(240).unwrap());
    let mut second = Tape::<IntRecord>::new(BlockDevice::new(240).unwrap());
    let series = tape.split(&mut first, &mut second);
    assert_eq!(series, 5);
    assert_eq!(keys_of(&mut first), [4, 2]);
    assert_eq!(keys_of(&mut second), [5, 3, 1]);
    assert_eq!(keys_of(&mut tape), [5, 4, 3, 2, 1]);

    let mut tape = tape_of(240, &[5, 4, 3, 2, 1]);
    tape.sort();
    assert_eq!(keys_of(&mut tape), [1, 2, 3, 4, 5]);
}

#[test]
fn join_merges_and_counts_series() {
    let mut tape = tape_of(240, &[5, 2, 1, 3, 4]);
    let mut first = Tape::<IntRecord>::new(BlockDevice::new(240).unwrap());
    let mut second = Tape::<IntRecord>::new(BlockDevice::new(240).unwrap());
    assert_eq!(tape.split(&mut first, &mut second), 3);
    assert_eq!(keys_of(&mut first), [2]);
    assert_eq!(keys_of(&mut second), [5, 1, 3, 4]);
    assert_eq!(tape.join(&mut first, &mut second), 2);
    assert_eq!(keys_of(&mut tape), [2, 5, 1, 3, 4]);
}

#[test]
fn join_takes_the_first_helper_on_equal_keys() {
    // Two series of equal keys: the second series goes to the first helper.
    let mut tape = tape_of(240, &[3, 3, 1, 3]);
    let mut first = Tape::<IntRecord>::new(BlockDevice::new(240).unwrap());
    let mut second = Tape::<IntRecord>::new(BlockDevice::new(240).unwrap());
    assert_eq!(tape.split(&mut first, &mut second), 2);
    let from_first = first.records();
    let from_second = second.records();
    assert_eq!(from_first.len(), 2);
    assert_eq!(from_second.len(), 2);
    assert_eq!(tape.join(&mut first, &mut second), 1);
    let out = tape.records();
    let numbers: Vec<[u32; 15]> = out.iter().map(|r| r.numbers()).collect();
    assert_eq!(
        numbers,
        [
            from_first[0].numbers(),
            from_first[1].numbers(),
            from_second[0].numbers(),
            from_second[1].numbers()
        ]
    );
}

#[test]
fn sorter_keeps_every_record_over_many_blocks() {
    // Two records per block.
    let keys: Vec<usize> = (0..57).map(|i| (i * 7 + 3) % 14).collect();
    let mut tape = tape_of(120, &keys);
    tape.flush();
    let before = tape.records();
    let blocks_before = {
        let mut probe = tape_of(120, &keys);
        probe.flush();
        probe.into_device().block_count()
    };
    let report = tape.sort();
    tape.flush();
    let after = tape.records();
    assert_eq!(after.len(), before.len());
    assert!(after.windows(2).all(|w| w[0].sort_key() <= w[1].sort_key()));
    let mut expected: Vec<[u32; 15]> = before.iter().map(|r| r.numbers()).collect();
    let mut found: Vec<[u32; 15]> = after.iter().map(|r| r.numbers()).collect();
    expected.sort();
    found.sort();
    assert_eq!(found, expected);
    assert!(report.reads > 0 && report.writes > 0);
    let device = tape.into_device();
    assert_eq!(device.block_count(), blocks_before);
    assert_eq!(device.block_count(), 29);
    assert_eq!(device.size(), 29 * 120);
}

#[test]
fn sorter_random_records() {
    let device = BlockDevice::new(230).unwrap();
    let mut tape = Tape::<IntRecord>::new(device);
    for _ in 0..40 {
        tape.write_next_record(&IntRecord::from_random().unwrap());
    }
    let before = tape.records();
    tape.sort();
    let after = tape.records();
    assert_eq!(after.len(), 40);
    assert!(after.windows(2).all(|w| w[0].get_primes() <= w[1].get_primes()));
    let mut expected: Vec<[u32; 15]> = before.iter().map(|r| r.numbers()).collect();
    let mut found: Vec<[u32; 15]> = after.iter().map(|r| r.numbers()).collect();
    expected.sort();
    found.sort();
    assert_eq!(found, expected);
}

#[test]
fn sorter_empty_tape() {
    let mut tape = Tape::<IntRecord>::new(BlockDevice::new(240).unwrap());
    let report = tape.sort();
    assert_eq!(report.runs, 0);
    assert!(tape.records().is_empty());
}

#[test]
fn tape_cursor_rolls_to_the_next_block() {
    // 230 bytes hold three records of 60 bytes and fifty bytes of slack.
    let mut tape = tape_of(230, &[1, 2, 3]);
    assert_eq!((tape.lba(), tape.offset()), (1, 0));
    assert_eq!(tape.writes(), 1);
    tape.write_next_record(&record_with(4, 9));
    assert_eq!((tape.lba(), tape.offset()), (1, 60));
    assert_eq!(tape.writes(), 1);
    tape.flush();
    assert_eq!(tape.writes(), 2);
    tape.flush();
    assert_eq!(tape.writes(), 2);
    tape.set_head(0, 0);
    assert_eq!(tape.read_next_record().map(|r| r.sort_key()), Some(1));
    assert_eq!(tape.reads(), 1);
    assert_eq!(tape.read_next_record().map(|r| r.sort_key()), Some(2));
    assert_eq!(tape.reads(), 1);
    assert_eq!(tape.read_next_record().map(|r| r.sort_key()), Some(3));
    assert_eq!((tape.lba(), tape.offset()), (1, 0));
    assert_eq!(tape.read_next_record().map(|r| r.sort_key()), Some(4));
    assert_eq!(tape.read_next_record().map(|r| r.sort_key()), None);
    assert_eq!((tape.lba(), tape.offset()), (1, 60));
    tape.set_head(0, 7);
    assert_eq!(tape.read_next_record().map(|r| r.sort_key()), None);
    let device = tape.into_device();
    assert_eq!(device.block_count(), 2);
    let block = device.read_internal(1).unwrap();
    assert_eq!(&block[..60], &record_with(4, 9).to_bytes()[..]);
    assert!(block[60..].iter().all(|b| *b == 0));
}

#[test]
fn empty_record_ends_a_tape() {
    let mut tape = tape_of(240, &[1, 2]);
    tape.write_next_record(&IntRecord::new());
    tape.write_next_record(&record_with(3, 1));
    assert_eq!(keys_of(&mut tape), [1, 2]);
}

#[test]
fn join_onto_an_empty_tape() {
    // Three blocks' worth of records come onto a tape that has no block.
    let mut first = tape_of(120, &[1, 3, 4]);
    let mut second = tape_of(120, &[2, 5]);
    let mut tape = Tape::<IntRecord>::new(BlockDevice::new(120).unwrap());
    assert_eq!(tape.join(&mut first, &mut second), 1);
    assert_eq!(keys_of(&mut tape), [1, 2, 3, 4, 5]);
    tape.flush();
    assert_eq!(tape.into_device().block_count(), 3);
}

#[test]
fn join_over_a_longer_tape() {
    // The window shows the block written to: what stands behind stays.
    let mut first = tape_of(240, &[1]);
    let mut second = tape_of(240, &[2]);
    let mut tape = tape_of(240, &[9, 8, 7]);
    assert_eq!(tape.join(&mut first, &mut second), 1);
    assert_eq!(keys_of(&mut tape), [1, 2, 7]);

    // The block is entered anew: it keeps what is written to it, no more.
    let mut first = tape_of(240, &[1, 3]);
    let mut second = tape_of(240, &[2]);
    let mut tape = tape_of(240, &[9, 8, 7, 6, 5]);
    assert_eq!(tape.join(&mut first, &mut second), 1);
    assert_eq!(keys_of(&mut tape), [1, 2, 3]);

    // The writing ends with a block: the next block stays as it is.
    let mut first = tape_of(240, &[1, 3]);
    let mut second = tape_of(240, &[2, 4]);
    let mut tape = tape_of(240, &[9, 8, 7, 6, 5, 11]);
    assert_eq!(tape.join(&mut first, &mut second), 1);
    assert_eq!(keys_of(&mut tape), [1, 2, 3, 4, 5, 11]);
}

#[test]
fn join_starts_a_series_where_neither_head_continues() {
    let mut first = tape_of(240, &[4, 1]);
    let mut second = tape_of(240, &[5, 2]);
    let mut tape = Tape::<IntRecord>::new(BlockDevice::new(240).unwrap());
    assert_eq!(tape.join(&mut first, &mut second), 2);
    assert_eq!(keys_of(&mut tape), [4, 5, 1, 2]);
}

/// What a tape carries from pass to pass: window holds writes, cursor in
/// the first block, first block to be read.
#[derive(Clone, Copy)]
struct Carried {
    dirty: bool,
    at_start: bool,
    stale: bool,
}

fn rewind_cost(c: Carried) -> u64 {
    (c.dirty && !c.at_start) as u64
}

fn reading_pass(c: Carried, n: u64, per_block: u64, bare: bool) -> (u64, u64, Carried) {
    let blocks = n / per_block;
    let kept = c.dirty && c.at_start;
    (
        c.stale as u64 + blocks,
        rewind_cost(c) + (kept && blocks > 0) as u64,
        Carried { dirty: kept && blocks == 0, at_start: blocks == 0, stale: blocks != 0 || (c.stale && bare) },
    )
}

fn writing_pass(c: Carried, m: u64, per_block: u64) -> (u64, Carried) {
    if m == 0 {
        return (rewind_cost(c), Carried { dirty: c.dirty && c.at_start, at_start: true, stale: c.stale });
    }
    let blocks = m / per_block;
    (
        rewind_cost(c) + blocks,
        Carried { dirty: m % per_block != 0, at_start: blocks == 0, stale: blocks != 0 },
    )
}

fn descents_of(keys: &[u64]) -> usize {
    keys.windows(2).filter(|w| w[1] < w[0]).count()
}

fn deal(keys: &[u64]) -> (Vec<u64>, Vec<u64>) {
    let (mut first, mut second) = (Vec::new(), Vec::new());
    let mut series = 1;
    for (i, key) in keys.iter().enumerate() {
        if i > 0 && *key < keys[i - 1] {
            series += 1;
        }
        if series % 2 == 0 {
            first.push(*key);
        } else {
            second.push(*key);
        }
    }
    (first, second)
}

fn merge(first: &[u64], second: &[u64]) -> Vec<u64> {
    let (mut i, mut j) = (0, 0);
    let mut out: Vec<u64> = Vec::new();
    while i < first.len() || j < second.len() {
        let from_first = if j == second.len() {
            true
        } else if i == first.len() {
            false
        } else {
            let goes_on = |key: u64| out.last().map_or(true, |last| key >= *last);
            if goes_on(first[i]) == goes_on(second[j]) {
                first[i] <= second[j]
            } else {
                goes_on(first[i])
            }
        };
        if from_first {
            out.push(first[i]);
            i += 1;
        } else {
            out.push(second[j]);
            j += 1;
        }
    }
    out
}

/// The reads and writes of a sort, pass by pass.
fn expected_io(keys: &[u64], main: Carried, per_block: u64, bare: bool) -> (u64, u64) {
    let fresh = Carried { dirty: false, at_start: true, stale: true };
    let (mut main, mut first, mut second) = (main, fresh, fresh);
    let mut keys = keys.to_vec();
    let (mut reads, mut writes) = (0, 0);
    loop {
        let n = keys.len() as u64;
        let (a, b) = deal(&keys);
        let read = reading_pass(main, n, per_block, bare);
        let to_first = writing_pass(first, a.len() as u64 + 1, per_block);
        let to_second = writing_pass(second, b.len() as u64 + 1, per_block);
        reads += read.0;
        writes += read.1 + to_first.0 + to_second.0;
        if descents_of(&keys) == 0 {
            return (reads, writes);
        }
        let from_first = reading_pass(to_first.1, a.len() as u64, per_block, false);
        let from_second = reading_pass(to_second.1, b.len() as u64, per_block, false);
        let back = writing_pass(read.2, n, per_block);
        reads += from_first.0 + from_second.0;
        writes += from_first.1 + from_second.1 + back.0;
        keys = merge(&a, &b);
        if descents_of(&keys) == 0 {
            return (reads, writes);
        }
        main = back.1;
        first = from_first.2;
        second = from_second.2;
    }
}

fn check_io(block_size: u64, keys: &[usize], flushed: bool) {
    let mut tape = tape_of(block_size, keys);
    if flushed {
        tape.flush();
    }
    let per_block = block_size / 60;
    let n = keys.len() as u64;
    let carried = Carried {
        dirty: !flushed && n % per_block != 0,
        at_start: n / per_block == 0,
        stale: n == 0 || n / per_block != 0,
    };
    let (reads_before, writes_before) = (tape.reads(), tape.writes());
    let as_keys: Vec<u64> = keys.iter().map(|k| *k as u64).collect();
    let expected = expected_io(&as_keys, carried, per_block, n == 0);
    let report = tape.sort();
    assert_eq!(report.reads, reads_before + expected.0);
    assert_eq!(report.writes, writes_before + expected.1);
}

#[test]
fn sorter_counts_reads_and_writes() {
    // Four records to a block, three records, all in the window: dealing
    // reads no block, and the second helper leaves its first block when
    // the record that closes it is written.
    let mut tape = tape_of(240, &[1, 2, 3]);
    let report = tape.sort();
    assert_eq!((report.runs, report.reads, report.writes), (0, 0, 1));

    // Two records to a block, five records, the cursor in the third block.
    let mut tape = tape_of(120, &[5, 2, 1, 3, 4]);
    assert_eq!((tape.reads(), tape.writes()), (0, 2));
    let report = tape.sort();
    // Dealing: 3 reads; 1 write for the window, 1 and 2 on the helpers.
    // Merging: 1 and 3 reads; 1 write for a helper's window, 2 on the tape.
    // Dealing again: 3 reads; 1 write for the window, 2 and 1 on the helpers.
    // Merging again: 2 and 2 reads; 1 write for a helper's window, 2 on the tape.
    assert_eq!((report.runs, report.reads, report.writes), (1, 14, 2 + 14));

    check_io(240, &[], false);
    check_io(240, &[7], false);
    check_io(240, &[5, 2, 1, 3, 4], false);
    check_io(240, &[5, 2, 1, 3, 4], true);
    check_io(60, &[3, 1, 2], false);
    check_io(60, &[3, 1, 2], true);
    check_io(120, &[9, 8, 7, 6, 5, 4, 3, 2, 1, 0], false);
    check_io(180, &[4, 4, 1, 9, 2, 2, 8, 3, 11, 0, 5, 6, 1], true);
    check_io(180, &[4, 4, 1, 9, 2, 2, 8, 3, 11, 0, 5, 6], false);
}
