//! A tape: a cursor over a block device that reads and writes records one
//! after the other through a window of one block; and the natural merge
//! sort of a tape with the help of two more.

use vstd::prelude::*;
use vstd::slice::*;
use crate::bytes::Bytes;
use crate::device::{BlockDevice, blocks_after_write, bumped, can_address, zero_block, zeros};
use crate::record::{Record, read_record};
use crate::series::{
    dealt, descents, is_sorted, lemma_dealt, lemma_descents_bound, lemma_pass, lemma_settled,
    merged, pass, rounds, series_count, settled, takes_first,
};

verus! {

/// `block` with `bytes` written over it from `off` on.
pub open spec fn patched(block: Seq<u8>, off: int, bytes: Seq<u8>) -> Seq<u8> {
    block.subrange(0, off) + bytes + block.subrange(off + bytes.len(), block.len() as int)
}

/// The record that `blocks` hold at byte `off` of block `lba`: none where
/// the block is missing, the record does not fit, or the slot holds the
/// sentinel.
pub open spec fn record_at<T: Bytes>(blocks: Seq<Seq<u8>>, lba: int, off: int) -> Option<T> {
    if 0 <= lba < blocks.len() && 0 <= off && off + T::width() <= blocks[lba].len() {
        let record = T::decoding(blocks[lba].subrange(off, off + T::width()));
        if record == T::sentinel() {
            None
        } else {
            Some(record)
        }
    } else {
        None
    }
}

/// Where the cursor stands after the record at `(lba, off)`: behind it, or
/// at the start of the next block where no further record fits.
pub open spec fn next_position(lba: int, off: int, width: nat, block_size: nat) -> (int, int) {
    if off + 2 * width <= block_size {
        (lba, off + width)
    } else {
        (lba + 1, 0)
    }
}

/// The records read one after the other from `(lba, off)` on, up to the
/// first slot that holds none.
pub open spec fn records_after<T: Bytes>(
    blocks: Seq<Seq<u8>>,
    lba: int,
    off: int,
    block_size: nat,
) -> Seq<T>
    decreases blocks.len() - lba, block_size - off,
{
    let found = record_at::<T>(blocks, lba, off);
    if found is Some && T::width() > 0 && off + T::width() <= block_size {
        let next = next_position(lba, off, T::width(), block_size);
        seq![found->Some_0] + records_after::<T>(blocks, next.0, next.1, block_size)
    } else {
        Seq::empty()
    }
}

/// Where the cursor stands after `k` records were read or written from the
/// start of a tape.
pub open spec fn position_of(k: nat, width: nat, block_size: nat) -> (int, int)
    decreases k,
{
    if k == 0 {
        (0, 0)
    } else {
        let before = position_of((k - 1) as nat, width, block_size);
        next_position(before.0, before.1, width, block_size)
    }
}

/// The record in slot `k` of a tape, counted from the start.
pub open spec fn record_number<T: Bytes>(blocks: Seq<Seq<u8>>, k: nat, block_size: nat) -> Option<
    T,
> {
    let at = position_of(k, T::width(), block_size);
    record_at::<T>(blocks, at.0, at.1)
}

/// Whether `blocks` hold `records` in their first slots.
pub open spec fn holds_prefix<T: Bytes>(
    blocks: Seq<Seq<u8>>,
    records: Seq<T>,
    block_size: nat,
) -> bool {
    forall|k: nat|
        k < records.len() ==> #[trigger] record_number::<T>(blocks, k, block_size) == Some(
            records[k as int],
        )
}

/// Every position leaves room for a record, and lies no further from the
/// start than one block for each record before it.
pub proof fn lemma_position_bounds(k: nat, width: nat, block_size: nat)
    requires
        0 < width <= block_size,
    ensures
        0 <= position_of(k, width, block_size).0 <= k,
        0 <= position_of(k, width, block_size).1,
        position_of(k, width, block_size).1 + width <= block_size,
        k <= position_of(k, width, block_size).0 * block_size + position_of(k, width, block_size).1,
    decreases k,
{
    if k > 0 {
        lemma_position_bounds((k - 1) as nat, width, block_size);
        let before = position_of((k - 1) as nat, width, block_size);
        let at = position_of(k, width, block_size);
        if at.0 == before.0 + 1 {
            assert((before.0 + 1) * block_size == before.0 * block_size + block_size)
                by (nonlinear_arith);
        }
    }
}

/// An earlier position lies in an earlier block, or in the same block a
/// whole record before.
pub proof fn lemma_position_order(j: nat, k: nat, width: nat, block_size: nat)
    requires
        j < k,
        0 < width <= block_size,
    ensures
        ({
            let a = position_of(j, width, block_size);
            let b = position_of(k, width, block_size);
            a.0 < b.0 || (a.0 == b.0 && a.1 + width <= b.1)
        }),
    decreases k,
{
    lemma_position_bounds((k - 1) as nat, width, block_size);
    lemma_position_bounds(j, width, block_size);
    if j < k - 1 {
        lemma_position_order(j, (k - 1) as nat, width, block_size);
    }
}

/// Blocks that hold `records` in their first slots yield them first.
pub proof fn lemma_prefix_read<T: Bytes>(
    blocks: Seq<Seq<u8>>,
    records: Seq<T>,
    block_size: nat,
    j: nat,
)
    requires
        0 < T::width() <= block_size,
        holds_prefix(blocks, records, block_size),
        j <= records.len(),
    ensures
        ({
            let from = position_of(j, T::width(), block_size);
            let end = position_of(records.len(), T::width(), block_size);
            records_after::<T>(blocks, from.0, from.1, block_size) == records.subrange(
                j as int,
                records.len() as int,
            ) + records_after::<T>(blocks, end.0, end.1, block_size)
        }),
    decreases records.len() - j,
{
    let from = position_of(j, T::width(), block_size);
    let end = position_of(records.len(), T::width(), block_size);
    let rest = records_after::<T>(blocks, end.0, end.1, block_size);
    if j < records.len() {
        lemma_position_bounds(j, T::width(), block_size);
        lemma_prefix_read(blocks, records, block_size, j + 1);
        assert(record_number::<T>(blocks, j, block_size) == Some(records[j as int]));
        let next = position_of(j + 1, T::width(), block_size);
        assert(next == next_position(from.0, from.1, T::width(), block_size));
        assert(records.subrange(j as int, records.len() as int) + rest =~= seq![records[j as int]]
            + (records.subrange(j as int + 1, records.len() as int) + rest));
    } else {
        assert(records.subrange(j as int, records.len() as int) + rest =~= rest);
    }
}

/// What is read from position `j` on sits in the slots from `j` on.
pub proof fn lemma_read_is_prefix<T: Bytes>(blocks: Seq<Seq<u8>>, block_size: nat, j: nat, k: nat)
    requires
        0 < T::width() <= block_size,
        ({
            let from = position_of(j, T::width(), block_size);
            k < records_after::<T>(blocks, from.0, from.1, block_size).len()
        }),
    ensures
        ({
            let from = position_of(j, T::width(), block_size);
            let at = position_of(j + k, T::width(), block_size);
            record_at::<T>(blocks, at.0, at.1) == Some(
                records_after::<T>(blocks, from.0, from.1, block_size)[k as int],
            )
        }),
    decreases k,
{
    let from = position_of(j, T::width(), block_size);
    let found = records_after::<T>(blocks, from.0, from.1, block_size);
    let next = position_of(j + 1, T::width(), block_size);
    assert(next == next_position(from.0, from.1, T::width(), block_size));
    if k > 0 {
        lemma_read_is_prefix::<T>(blocks, block_size, j + 1, (k - 1) as nat);
        let rest = records_after::<T>(blocks, next.0, next.1, block_size);
        assert(found[k as int] == rest[k - 1]);
    }
}

/// The records of a tape sit in its first slots, and the slot behind them
/// holds none.
pub proof fn lemma_contents_are_prefix<T: Bytes>(blocks: Seq<Seq<u8>>, block_size: nat)
    requires
        0 < T::width() <= block_size,
    ensures
        holds_prefix(blocks, records_after::<T>(blocks, 0, 0, block_size), block_size),
        ({
            let records = records_after::<T>(blocks, 0, 0, block_size);
            let end = position_of(records.len(), T::width(), block_size);
            records_after::<T>(blocks, end.0, end.1, block_size).len() == 0
        }),
{
    let records = records_after::<T>(blocks, 0, 0, block_size);
    assert forall|k: nat| k < records.len() implies #[trigger] record_number::<T>(
        blocks,
        k,
        block_size,
    ) == Some(records[k as int]) by {
        lemma_read_is_prefix::<T>(blocks, block_size, 0, k);
    }
    lemma_prefix_read(blocks, records, block_size, 0);
    let end = position_of(records.len(), T::width(), block_size);
    let rest = records_after::<T>(blocks, end.0, end.1, block_size);
    assert(records.subrange(0, records.len() as int) =~= records);
    assert((records + rest).len() == records.len());
}

/// A tape of whole blocks holds fewer records than it has bytes.
pub proof fn lemma_record_count<T: Bytes>(blocks: Seq<Seq<u8>>, block_size: nat)
    requires
        0 < T::width() <= block_size,
        forall|i: int| 0 <= i < blocks.len() ==> (#[trigger] blocks[i]).len() == block_size,
    ensures
        records_after::<T>(blocks, 0, 0, block_size).len() <= blocks.len() * block_size,
        ({
            let records = records_after::<T>(blocks, 0, 0, block_size);
            let end = position_of(records.len(), T::width(), block_size);
            end.0 <= blocks.len()
        }),
{
    let records = records_after::<T>(blocks, 0, 0, block_size);
    let n = records.len();
    lemma_contents_are_prefix::<T>(blocks, block_size);
    lemma_position_bounds(n, T::width(), block_size);
    if n > 0 {
        let last = position_of((n - 1) as nat, T::width(), block_size);
        lemma_position_bounds((n - 1) as nat, T::width(), block_size);
        assert(record_number::<T>(blocks, (n - 1) as nat, block_size) == Some(records[n - 1]));
        assert(last.0 < blocks.len());
        assert(last.0 * block_size + last.1 < blocks.len() * block_size) by (nonlinear_arith)
            requires
                last.0 < blocks.len(),
                0 <= last.1 < block_size,
                0 <= last.0,
        ;
    } else {
        assert(0 <= blocks.len() * block_size) by (nonlinear_arith);
    }
}

/// Writing behind a prefix keeps the prefix, whatever the slot held before,
/// as long as the block written is the one that the tape shows or the slot
/// is the first of its block; and the slot then holds what was written.
pub proof fn lemma_write_behind_prefix<T: Bytes>(
    blocks: Seq<Seq<u8>>,
    records: Seq<T>,
    record: T,
    window: Seq<u8>,
    block_size: nat,
)
    requires
        0 < T::width() <= block_size,
        holds_prefix(blocks, records, block_size),
        window.len() == block_size,
        ({
            let at = position_of(records.len(), T::width(), block_size);
            at.1 == 0 || (at.0 < blocks.len() && window == blocks[at.0])
        }),
    ensures
        ({
            let at = position_of(records.len(), T::width(), block_size);
            let after = blocks_after_write(
                blocks,
                at.0,
                patched(window, at.1, record.encoding()),
            );
            &&& holds_prefix(after, records, block_size)
            &&& record != T::sentinel() ==> holds_prefix(after, records.push(record), block_size)
            &&& record == T::sentinel() ==> record_number::<T>(after, records.len(), block_size)
                is None
        }),
{
    let w = T::width();
    let m = records.len();
    let at = position_of(m, w, block_size);
    let block = patched(window, at.1, record.encoding());
    let after = blocks_after_write(blocks, at.0, block);
    T::lemma_encoding_len(record);
    T::lemma_round_trip(record);
    lemma_position_bounds(m, w, block_size);
    assert(block.subrange(at.1, at.1 + w) =~= record.encoding());
    assert forall|k: nat| k < m implies #[trigger] record_number::<T>(after, k, block_size)
        == Some(records[k as int]) by {
        let p = position_of(k, w, block_size);
        lemma_position_order(k, m, w, block_size);
        lemma_position_bounds(k, w, block_size);
        assert(record_number::<T>(blocks, k, block_size) == Some(records[k as int]));
        if p.0 == at.0 {
            assert(block.subrange(p.1, p.1 + w) =~= blocks[p.0].subrange(p.1, p.1 + w));
        }
    }
    if record != T::sentinel() {
        assert forall|k: nat| k < m + 1 implies #[trigger] record_number::<T>(
            after,
            k,
            block_size,
        ) == Some(records.push(record)[k as int]) by {
            if k < m {
                assert(record_number::<T>(after, k, block_size) == Some(records[k as int]));
            }
        }
    }
}

/// Blocks that hold `records` in their first slots and nothing in the
/// next hold exactly `records`.
pub proof fn lemma_closed_prefix<T: Bytes>(blocks: Seq<Seq<u8>>, records: Seq<T>, block_size: nat)
    requires
        0 < T::width() <= block_size,
        holds_prefix(blocks, records, block_size),
        record_number::<T>(blocks, records.len(), block_size) is None,
    ensures
        records_after::<T>(blocks, 0, 0, block_size) == records,
{
    lemma_prefix_read(blocks, records, block_size, 0);
    assert(records.subrange(0, records.len() as int) =~= records);
    let end = position_of(records.len(), T::width(), block_size);
    assert(records_after::<T>(blocks, end.0, end.1, block_size) =~= Seq::<T>::empty());
    assert(records + Seq::<T>::empty() =~= records);
}

/// Whether `blocks` are as long as `origin`, or longer and end with block
/// `lba`; equal `origin` behind block `lba`; and hold in block `lba`, from
/// byte `off` on, what `origin` holds there if `kept`, and zeros if not.
pub open spec fn open_end(
    blocks: Seq<Seq<u8>>,
    origin: Seq<Seq<u8>>,
    lba: int,
    off: int,
    kept: bool,
) -> bool {
    &&& blocks.len() >= origin.len()
    &&& blocks.len() == origin.len() || blocks.len() <= lba + 1
    &&& forall|j: int| lba < j < blocks.len() ==> #[trigger] blocks[j] == origin[j]
    &&& 0 <= lba < blocks.len() ==> if kept {
        lba < origin.len() && forall|x: int|
            off <= x < blocks[lba].len() ==> #[trigger] blocks[lba][x] == origin[lba][x]
    } else {
        forall|x: int| off <= x < blocks[lba].len() ==> #[trigger] blocks[lba][x] == 0
    }
}

/// Writing a block moves an open end behind the bytes written, and to the
/// start of the next block. Behind the bytes written stand zeros where
/// the block was written `fresh`, with zeros there, and else what stood
/// there before.
pub proof fn lemma_open_end_written(
    before: Seq<Seq<u8>>,
    origin: Seq<Seq<u8>>,
    lba: int,
    off: int,
    block: Seq<u8>,
    width: nat,
    kept: bool,
    fresh: bool,
)
    requires
        open_end(before, origin, lba, off, kept),
        0 <= lba,
        0 <= off,
        off + width <= block.len(),
        lba < before.len() ==> before[lba].len() == block.len(),
        fresh ==> forall|x: int| off + width <= x < block.len() ==> #[trigger] block[x] == 0,
        !fresh ==> lba < before.len() && forall|x: int|
            off + width <= x < block.len() ==> #[trigger] block[x] == before[lba][x],
    ensures
        open_end(blocks_after_write(before, lba, block), origin, lba, off + width, kept && !fresh),
        open_end(blocks_after_write(before, lba, block), origin, lba + 1, 0, true),
{
    let now = blocks_after_write(before, lba, block);
    assert(now[lba] == block);
    assert forall|j: int| lba < j < now.len() implies #[trigger] now[j] == origin[j] by {
        assert(now[j] == before[j]);
    }
    if !fresh {
        if kept {
            assert forall|x: int| off + width <= x < now[lba].len() implies #[trigger] now[lba][x]
                == origin[lba][x] by {
                assert(block[x] == before[lba][x]);
            }
        } else {
            assert forall|x: int| off + width <= x < now[lba].len() implies #[trigger] now[lba][x]
                == 0 by {
                assert(block[x] == before[lba][x]);
            }
        }
    }
    if lba + 1 < now.len() {
        assert(now[lba + 1] == before[lba + 1]);
        assert(before[lba + 1] == origin[lba + 1]);
    }
}

/// What is read from an open end on: what `origin` yields from there if
/// its bytes were kept, and nothing if zeros stand there.
pub proof fn lemma_open_end_tail<T: Record>(
    blocks: Seq<Seq<u8>>,
    origin: Seq<Seq<u8>>,
    lba: int,
    off: int,
    block_size: nat,
    kept: bool,
)
    requires
        open_end(blocks, origin, lba, off, kept),
        0 <= lba,
        0 <= off,
        0 < T::width() <= block_size,
        forall|i: int| 0 <= i < blocks.len() ==> (#[trigger] blocks[i]).len() == block_size,
        forall|i: int| 0 <= i < origin.len() ==> (#[trigger] origin[i]).len() == block_size,
    ensures
        records_after::<T>(blocks, lba, off, block_size) == if kept {
            records_after::<T>(origin, lba, off, block_size)
        } else {
            Seq::<T>::empty()
        },
    decreases blocks.len() - lba, block_size - off,
{
    let w = T::width();
    if 0 <= lba < blocks.len() && off + w <= block_size {
        let here = blocks[lba].subrange(off, off + w);
        if kept {
            assert(here =~= origin[lba].subrange(off, off + w));
            let found = record_at::<T>(blocks, lba, off);
            assert(found == record_at::<T>(origin, lba, off));
            if found is Some {
                let next = next_position(lba, off, w, block_size);
                if next.0 == lba {
                    assert(open_end(blocks, origin, lba, next.1, true));
                } else {
                    if lba + 1 < blocks.len() {
                        assert(blocks[lba + 1] == origin[lba + 1]);
                    }
                    assert(open_end(blocks, origin, lba + 1, 0, true));
                }
                lemma_open_end_tail::<T>(blocks, origin, next.0, next.1, block_size, true);
            }
        } else {
            assert(here =~= zeros(w));
            T::lemma_zeros_are_empty();
        }
    }
}

/// How many blocks a tape of `blocks` blocks has once `count` records were
/// written to it from the start.
pub open spec fn blocks_with(blocks: nat, count: nat, width: nat, block_size: nat) -> nat {
    if count > 0 && position_of((count - 1) as nat, width, block_size).0 >= blocks {
        (position_of((count - 1) as nat, width, block_size).0 + 1) as nat
    } else {
        blocks
    }
}

/// A counter after `k` more events. It stops at the largest number it can
/// hold.
pub open spec fn bumped_by(count: u64, k: nat) -> u64 {
    if count + k <= u64::MAX {
        (count + k) as u64
    } else {
        u64::MAX
    }
}

/// Counting events one by one, or in two lots, is counting them all.
pub proof fn lemma_bumped_by(count: u64, a: nat, b: nat)
    ensures
        bumped_by(count, 0) == count,
        bumped(bumped_by(count, a)) == bumped_by(count, a + 1),
        bumped_by(bumped_by(count, a), b) == bumped_by(count, a + b),
{
}

/// What a tape carries from one pass over it to the next: whether its
/// window holds writes, whether the cursor is in the first block, and
/// whether the first block has to be read before a record of it is.
pub struct Carry {
    pub dirty: bool,
    pub at_start: bool,
    pub stale: bool,
}

/// The writes that the window costs when the tape is taken back to its
/// start: one where the window holds writes and leaves its block.
pub open spec fn rewind_writes(c: Carry) -> nat {
    if c.dirty && !c.at_start {
        1
    } else {
        0
    }
}

/// The reads and the writes of a pass that takes a tape back to its start
/// and reads its `n` records and the slot behind them, and what the tape
/// then carries. A block is read when the first slot of it is, and the
/// window is written when it holds writes and the cursor leaves its
/// block. `bare` says that the tape has no block.
#[verifier::opaque]
pub open spec fn read_pass(c: Carry, n: nat, width: nat, block_size: nat, bare: bool) -> (
    nat,
    nat,
    Carry,
) {
    let end = position_of(n, width, block_size);
    let kept = c.dirty && c.at_start;
    (
        (if c.stale {
            1nat
        } else {
            0nat
        }) + end.0 as nat,
        rewind_writes(c) + if kept && end.0 > 0 {
            1nat
        } else {
            0nat
        },
        Carry { dirty: kept && end.0 == 0, at_start: end.0 == 0, stale: end.0 != 0 || (c.stale && bare) },
    )
}

/// The writes of a pass that takes a tape back to its start and writes
/// `m` records, and what the tape then carries. The window is written
/// each time the cursor leaves a block.
#[verifier::opaque]
pub open spec fn write_pass(c: Carry, m: nat, width: nat, block_size: nat) -> (nat, Carry) {
    let end = position_of(m, width, block_size);
    if m == 0 {
        (rewind_writes(c), Carry { dirty: c.dirty && c.at_start, at_start: true, stale: c.stale })
    } else {
        (
            rewind_writes(c) + end.0 as nat,
            Carry { dirty: end.1 != 0, at_start: end.0 == 0, stale: end.0 != 0 },
        )
    }
}

/// What a new tape carries: nothing written, the cursor at the start, no
/// block read.
pub open spec fn new_carry() -> Carry {
    Carry { dirty: false, at_start: true, stale: true }
}

/// The reads and the writes that sorting `records` takes on the three
/// tapes together: those of each round's dealing and merging, up to the
/// dealing or the merging that finds a single series. `main`, `first` and
/// `second` are what the tape and its two helpers carry at the start, and
/// `bare` says that the tape has no block.
#[verifier::opaque]
pub open spec fn sort_io<T: Record>(
    records: Seq<T>,
    main: Carry,
    first: Carry,
    second: Carry,
    bare: bool,
    block_size: nat,
) -> (nat, nat)
    decreases descents(records),
    when true
    via sort_io_decreases::<T>
{
    let w = T::width();
    let d = dealt(records);
    let n = records.len();
    let read = read_pass(main, n, w, block_size, bare);
    let to_first = write_pass(first, d.0.len() + 1, w, block_size);
    let to_second = write_pass(second, d.1.len() + 1, w, block_size);
    let from_first = read_pass(to_first.1, d.0.len(), w, block_size, false);
    let from_second = read_pass(to_second.1, d.1.len(), w, block_size, false);
    let back = write_pass(read.2, n, w, block_size);
    if descents(records) == 0 {
        (read.0, read.1 + to_first.0 + to_second.0)
    } else if descents(pass(records)) == 0 {
        (
            read.0 + from_first.0 + from_second.0,
            read.1 + to_first.0 + to_second.0 + from_first.1 + from_second.1 + back.0,
        )
    } else {
        let rest = sort_io(
            pass(records),
            back.1,
            from_first.2,
            from_second.2,
            bare,
            block_size,
        );
        (
            read.0 + from_first.0 + from_second.0 + rest.0,
            read.1 + to_first.0 + to_second.0 + from_first.1 + from_second.1 + back.0 + rest.1,
        )
    }
}

#[via_fn]
proof fn sort_io_decreases<T: Record>(
    records: Seq<T>,
    main: Carry,
    first: Carry,
    second: Carry,
    bare: bool,
    block_size: nat,
) {
    lemma_pass(records);
}

/// The reads and writes of a sort are those of its first round and, where
/// neither the dealing nor the merging of that round finds a single
/// series, those of the sort of what the round leaves.
pub proof fn lemma_sort_io<T: Record>(
    records: Seq<T>,
    main: Carry,
    first: Carry,
    second: Carry,
    bare: bool,
    block_size: nat,
)
    ensures
        ({
            let w = T::width();
            let d = dealt(records);
            let n = records.len();
            let read = read_pass(main, n, w, block_size, bare);
            let to_first = write_pass(first, d.0.len() + 1, w, block_size);
            let to_second = write_pass(second, d.1.len() + 1, w, block_size);
            let from_first = read_pass(to_first.1, d.0.len(), w, block_size, false);
            let from_second = read_pass(to_second.1, d.1.len(), w, block_size, false);
            let back = write_pass(read.2, n, w, block_size);
            let rest = sort_io(
                pass(records),
                back.1,
                from_first.2,
                from_second.2,
                bare,
                block_size,
            );
            sort_io(records, main, first, second, bare, block_size) == if descents(records) == 0 {
                (read.0, read.1 + to_first.0 + to_second.0)
            } else if descents(pass(records)) == 0 {
                (
                    read.0 + from_first.0 + from_second.0,
                    read.1 + to_first.0 + to_second.0 + from_first.1 + from_second.1 + back.0,
                )
            } else {
                (
                    read.0 + from_first.0 + from_second.0 + rest.0,
                    read.1 + to_first.0 + to_second.0 + from_first.1 + from_second.1 + back.0
                        + rest.1,
                )
            }
        }),
{
    reveal(sort_io);
}

/// Three counters added up count what the three counted together.
pub proof fn lemma_counted(a: u64, x: nat, y: nat, z: nat)
    ensures
        counted(bumped_by(a, x), bumped_by(0, y), bumped_by(0, z)) == bumped_by(a, x + y + z),
{
}

/// What a sort did: the rounds it completed before the round that ended
/// it, and the reads and writes counted by the tape and its two helpers
/// together.
#[derive(Copy, Clone, PartialEq, Eq, Debug)]
pub struct SortReport {
    pub runs: u64,
    pub reads: u64,
    pub writes: u64,
}

/// The sum of three counters. It stops at the largest number it can hold.
pub open spec fn counted(a: u64, b: u64, c: u64) -> u64 {
    if a + b + c <= u64::MAX {
        (a + b + c) as u64
    } else {
        u64::MAX
    }
}

/// Adds up three counters.
pub fn add_counts(a: u64, b: u64, c: u64) -> (sum: u64)
    ensures
        sum == counted(a, b, c),
{
    let ab: u64 = if a <= u64::MAX - b {
        a + b
    } else {
        u64::MAX
    };
    if ab <= u64::MAX - c {
        ab + c
    } else {
        u64::MAX
    }
}

/// Whether a merge takes its next record from the first of two heads.
fn takes_head<T: Record>(
    first: &Option<T>,
    second: &Option<T>,
    previous: Option<u64>,
    Ghost(a): Ghost<Seq<T>>,
    Ghost(b): Ghost<Seq<T>>,
    Ghost(floor): Ghost<Option<nat>>,
) -> (from_first: bool)
    requires
        first is Some || second is Some,
        first is Some <==> a.len() > 0,
        second is Some <==> b.len() > 0,
        first is Some ==> a[0] == first->Some_0,
        second is Some ==> b[0] == second->Some_0,
        previous is Some <==> floor is Some,
        previous is Some ==> floor->Some_0 == previous->Some_0,
    ensures
        from_first == takes_first(a, b, floor),
        from_first ==> first is Some,
        !from_first ==> second is Some,
{
    match (first, second) {
        (Some(x), Some(y)) => {
            let kx = x.sort_key();
            let ky = y.sort_key();
            let x_continues = match previous {
                Some(p) => kx >= p,
                None => true,
            };
            let y_continues = match previous {
                Some(p) => ky >= p,
                None => true,
            };
            if x_continues == y_continues {
                kx <= ky
            } else {
                x_continues
            }
        },
        (Some(x), None) => true,
        _ => false,
    }
}

/// A cursor over the records of a block device, with a window of one
/// block in memory.
pub struct Tape<T: Record> {
    device: BlockDevice,
    offset: u64,
    lba: u64,
    buf: Vec<u8>,
    outdated: bool,
    dirty: bool,
    records: core::marker::PhantomData<T>,
}

impl<T: Record> View for Tape<T> {
    type V = Seq<Seq<u8>>;

    /// The blocks of the tape as they are once the window is written back.
    closed spec fn view(&self) -> Seq<Seq<u8>> {
        if self.outdated {
            self.device@
        } else {
            blocks_after_write(self.device@, self.lba as int, self.buf@)
        }
    }
}

impl<T: Record> Tape<T> {
    pub closed spec fn spec_lba(&self) -> u64 {
        self.lba
    }

    pub closed spec fn spec_offset(&self) -> u64 {
        self.offset
    }

    pub closed spec fn spec_block_size(&self) -> u64 {
        self.device.spec_block_size()
    }

    /// The block held in memory. It is all zeros while the tape is outdated.
    pub closed spec fn window(&self) -> Seq<u8> {
        self.buf@
    }

    /// The window does not show block `lba` of the device.
    pub closed spec fn is_outdated(&self) -> bool {
        self.outdated
    }

    /// The window holds writes that the device has not seen.
    pub closed spec fn is_dirty(&self) -> bool {
        self.dirty
    }

    /// What the device itself holds.
    pub closed spec fn stored(&self) -> Seq<Seq<u8>> {
        self.device@
    }

    pub closed spec fn spec_reads(&self) -> u64 {
        self.device.spec_reads()
    }

    pub closed spec fn spec_writes(&self) -> u64 {
        self.device.spec_writes()
    }

    /// Whether block `lba` can exist on the tape's device.
    pub open spec fn addressable(&self, lba: u64) -> bool {
        can_address(self.spec_block_size(), lba)
    }

    /// Whether the device can hold one block more than the tape has: what
    /// the helpers of a sort need for the records and the record that
    /// closes them.
    pub open spec fn has_room(&self) -> bool {
        &&& self@.len() <= u64::MAX
        &&& can_address(self.spec_block_size(), self@.len() as u64)
    }

    /// The records of the tape: those read from the start up to the first
    /// slot that holds none.
    pub open spec fn contents(&self) -> Seq<T> {
        records_after::<T>(self@, 0, 0, self.spec_block_size() as nat)
    }

    /// The records from the cursor on, up to the first slot that holds none.
    pub open spec fn remaining(&self) -> Seq<T> {
        records_after::<T>(
            self@,
            self.spec_lba() as int,
            self.spec_offset() as int,
            self.spec_block_size() as nat,
        )
    }

    pub closed spec fn wf(&self) -> bool {
        &&& self.device.wf()
        &&& self.buf@.len() == self.device.spec_block_size()
        &&& self.offset < self.device.spec_block_size()
        &&& self.outdated ==> self.buf@ == zeros(self.device.spec_block_size() as nat)
            && !self.dirty
        &&& !self.outdated && !self.dirty ==> self.lba < self.device@.len() && self.buf@
            == self.device@[self.lba as int]
        &&& self.dirty ==> self.device.addressable(self.lba)
    }

    /// What `wf` says in terms of the tape's public model.
    pub proof fn lemma_wf(&self)
        requires
            self.wf(),
        ensures
            0 < self.spec_block_size() <= usize::MAX,
            self.spec_offset() < self.spec_block_size(),
            self.window().len() == self.spec_block_size(),
            forall|i: int| 0 <= i < self@.len() ==> (#[trigger] self@[i]).len() == self.spec_block_size(),
            self@.len() * self.spec_block_size() <= u64::MAX,
            self.is_outdated() ==> self.window() == zeros(self.spec_block_size() as nat)
                && !self.is_dirty() && self@ == self.stored(),
            !self.is_outdated() ==> self.spec_lba() < self@.len() && self@[self.spec_lba() as int]
                == self.window(),
            self.is_dirty() ==> self.addressable(self.spec_lba()),
            !self.is_dirty() ==> self@ == self.stored(),
            self.addressable(self.spec_lba()) ==> self.spec_lba() + 1 <= u64::MAX,
            forall|lba: u64| lba < self@.len() ==> self.addressable(lba),
            forall|a: u64, b: u64| a <= b && self.addressable(b) ==> self.addressable(a),
    {
        self.device.lemma_wf();
        let bs = self.device.spec_block_size() as int;
        let len = self.device@.len() as int;
        if !self.outdated && !self.dirty {
            assert(self@ =~= self.device@);
        }
        if self.dirty {
            assert((self.lba + 1) * bs <= u64::MAX);
        }
        assert(self@.len() * bs <= u64::MAX) by {
            if self@.len() != len {
                assert(self@.len() == self.lba + 1);
            }
        }
        assert forall|lba: u64| lba < self@.len() implies self.addressable(lba) by {
            assert((lba + 1) * bs <= self@.len() * bs) by (nonlinear_arith)
                requires
                    lba + 1 <= self@.len(),
                    bs > 0,
            ;
            assert(self@.len() <= self@.len() * bs) by (nonlinear_arith)
                requires
                    bs > 0,
            ;
        }
        assert forall|a: u64, b: u64| a <= b && self.addressable(b) implies self.addressable(
            a,
        ) by {
            assert((a + 1) * bs <= (b + 1) * bs) by (nonlinear_arith)
                requires
                    a <= b,
                    bs > 0,
            ;
        }
    }

    /// A tape over `device` with the cursor at the start and nothing loaded.
    pub fn new(device: BlockDevice) -> (tape: Self)
        requires
            device.wf(),
        ensures
            tape.wf(),
            tape@ == device@,
            tape.stored() == device@,
            tape.spec_lba() == 0,
            tape.spec_offset() == 0,
            tape.is_outdated(),
            !tape.is_dirty(),
            tape.spec_block_size() == device.spec_block_size(),
            tape.spec_reads() == device.spec_reads(),
            tape.spec_writes() == device.spec_writes(),
    {
        proof {
            device.lemma_wf();
        }
        let buf = zero_block(device.block_size() as usize);
        Tape {
            device,
            offset: 0,
            lba: 0,
            buf,
            outdated: true,
            dirty: false,
            records: core::marker::PhantomData,
        }
    }

    /// Hands the device back. Writes still held in the window are lost:
    /// flush first.
    pub fn into_device(self) -> (device: BlockDevice)
        requires
            self.wf(),
        ensures
            device.wf(),
            device@ == self.stored(),
            device.spec_block_size() == self.spec_block_size(),
            device.spec_reads() == self.spec_reads(),
            device.spec_writes() == self.spec_writes(),
    {
        self.device
    }

    pub fn block_size(&self) -> (n: u64)
        ensures
            n == self.spec_block_size(),
    {
        self.device.block_size()
    }

    /// How many reads the tape's device has counted.
    pub fn reads(&self) -> (n: u64)
        ensures
            n == self.spec_reads(),
    {
        self.device.reads()
    }

    /// How many writes the tape's device has counted.
    pub fn writes(&self) -> (n: u64)
        ensures
            n == self.spec_writes(),
    {
        self.device.writes()
    }

    /// The block the cursor is in.
    pub fn lba(&self) -> (n: u64)
        ensures
            n == self.spec_lba(),
    {
        self.lba
    }

    /// The byte of the block the cursor is at.
    pub fn offset(&self) -> (n: u64)
        ensures
            n == self.spec_offset(),
    {
        self.offset
    }

    /// Writes the window to the device if it holds writes.
    pub fn flush(&mut self)
        requires
            old(self).wf(),
        ensures
            final(self).wf(),
            final(self)@ == old(self)@,
            final(self).stored() == if old(self).is_dirty() {
                old(self)@
            } else {
                old(self).stored()
            },
            final(self).spec_lba() == old(self).spec_lba(),
            final(self).spec_offset() == old(self).spec_offset(),
            final(self).spec_block_size() == old(self).spec_block_size(),
            final(self).window() == old(self).window(),
            final(self).is_outdated() == old(self).is_outdated(),
            !final(self).is_dirty(),
            final(self).spec_reads() == old(self).spec_reads(),
            final(self).spec_writes() == if old(self).is_dirty() {
                bumped(old(self).spec_writes())
            } else {
                old(self).spec_writes()
            },
    {
        if self.dirty {
            let ghost before = self@;
            let written = self.device.write(self.lba, &self.buf);
            self.dirty = false;
            proof {
                assert(written is Ok);
                assert(self@ =~= before);
            }
        }
    }

    /// Moves the cursor. Leaving a block writes the window back where it
    /// holds writes, and empties it.
    pub fn set_head(&mut self, offset: u64, lba: u64)
        requires
            old(self).wf(),
            offset < old(self).spec_block_size(),
        ensures
            final(self).wf(),
            final(self)@ == old(self)@,
            final(self).spec_lba() == lba,
            final(self).spec_offset() == offset,
            final(self).spec_block_size() == old(self).spec_block_size(),
            final(self).spec_reads() == old(self).spec_reads(),
            lba == old(self).spec_lba() ==> {
                &&& final(self).window() == old(self).window()
                &&& final(self).is_outdated() == old(self).is_outdated()
                &&& final(self).is_dirty() == old(self).is_dirty()
                &&& final(self).stored() == old(self).stored()
                &&& final(self).spec_writes() == old(self).spec_writes()
            },
            lba != old(self).spec_lba() ==> {
                &&& final(self).window() == zeros(old(self).spec_block_size() as nat)
                &&& final(self).is_outdated()
                &&& !final(self).is_dirty()
                &&& final(self).stored() == old(self)@
                &&& final(self).spec_writes() == if old(self).is_dirty() {
                    bumped(old(self).spec_writes())
                } else {
                    old(self).spec_writes()
                }
            },
    {
        if lba != self.lba {
            proof {
                self.lemma_wf();
            }
            if self.dirty {
                self.flush();
            }
            self.buf = zero_block(self.device.block_size() as usize);
            self.lba = lba;
            self.outdated = true;
            self.dirty = false;
        }
        self.offset = offset;
    }

    /// Moves the cursor behind the record it stands at.
    fn move_head_to_next(&mut self)
        requires
            old(self).wf(),
            old(self).spec_offset() + T::width() <= old(self).spec_block_size(),
            old(self).spec_lba() < u64::MAX,
        ensures
            final(self).wf(),
            final(self)@ == old(self)@,
            final(self).spec_block_size() == old(self).spec_block_size(),
            final(self).spec_reads() == old(self).spec_reads(),
            (final(self).spec_lba() as int, final(self).spec_offset() as int) == next_position(
                old(self).spec_lba() as int,
                old(self).spec_offset() as int,
                T::width(),
                old(self).spec_block_size() as nat,
            ),
            final(self).spec_lba() == old(self).spec_lba() ==> {
                &&& final(self).window() == old(self).window()
                &&& final(self).is_outdated() == old(self).is_outdated()
                &&& final(self).is_dirty() == old(self).is_dirty()
                &&& final(self).stored() == old(self).stored()
                &&& final(self).spec_writes() == old(self).spec_writes()
            },
            final(self).spec_lba() != old(self).spec_lba() ==> {
                &&& final(self).window() == zeros(old(self).spec_block_size() as nat)
                &&& final(self).is_outdated()
                &&& !final(self).is_dirty()
                &&& final(self).stored() == old(self)@
                &&& final(self).spec_writes() == if old(self).is_dirty() {
                    bumped(old(self).spec_writes())
                } else {
                    old(self).spec_writes()
                }
            },
    {
        proof {
            T::lemma_width_bounds();
        }
        let size = T::get_size();
        let block_size = self.device.block_size();
        let behind = self.offset + size;
        if block_size - behind < size {
            self.set_head(0, self.lba + 1);
        } else {
            self.set_head(behind, self.lba);
        }
    }

    /// The record under the cursor, and the cursor behind it; or nothing,
    /// with the cursor where it was, where the tape holds no record there.
    pub fn read_next_record(&mut self) -> (r: Option<T>)
        requires
            old(self).wf(),
        ensures
            final(self).wf(),
            final(self)@ == old(self)@,
            final(self).spec_block_size() == old(self).spec_block_size(),
            r == record_at::<T>(
                old(self)@,
                old(self).spec_lba() as int,
                old(self).spec_offset() as int,
            ),
            r is None ==> final(self).spec_lba() == old(self).spec_lba() && final(self).spec_offset()
                == old(self).spec_offset() && final(self).is_dirty() == old(self).is_dirty()
                && final(self).spec_writes() == old(self).spec_writes(),
            r is Some ==> (final(self).spec_lba() as int, final(self).spec_offset() as int)
                == next_position(
                old(self).spec_lba() as int,
                old(self).spec_offset() as int,
                T::width(),
                old(self).spec_block_size() as nat,
            ),
            final(self).is_outdated() ==> final(self).spec_offset() == 0 || old(
                self,
            ).is_outdated(),
            final(self).spec_reads() == if old(self).is_outdated() {
                bumped(old(self).spec_reads())
            } else {
                old(self).spec_reads()
            },
            final(self).spec_lba() == old(self).spec_lba() ==> {
                &&& final(self).is_outdated() == (old(self).is_outdated() && old(self).spec_lba()
                    >= old(self).stored().len())
                &&& !final(self).is_outdated() ==> final(self).window() == old(self)@[old(
                    self,
                ).spec_lba() as int]
                &&& final(self).is_outdated() ==> final(self).window() == old(self).window()
                &&& final(self).is_dirty() == old(self).is_dirty()
                &&& final(self).stored() == old(self).stored()
                &&& final(self).spec_writes() == old(self).spec_writes()
            },
            final(self).spec_lba() != old(self).spec_lba() ==> {
                &&& final(self).is_outdated()
                &&& !final(self).is_dirty()
                &&& final(self).window() == zeros(old(self).spec_block_size() as nat)
                &&& final(self).stored() == old(self)@
                &&& final(self).spec_writes() == if old(self).is_dirty() {
                    bumped(old(self).spec_writes())
                } else {
                    old(self).spec_writes()
                }
            },
    {
        proof {
            self.lemma_wf();
            T::lemma_width_bounds();
        }
        if self.outdated {
            match self.device.read(self.lba) {
                Ok(bytes) => {
                    self.buf = bytes;
                },
                Err(_) => {
                    return None;
                },
            }
            self.outdated = false;
            proof {
                assert(self@ =~= old(self)@);
            }
        }
        let size = T::get_size();
        let block_size = self.device.block_size();
        if size > block_size - self.offset {
            return None;
        }
        let src = self.offset as usize;
        let len = size as usize;
        let record = match read_record::<T>(slice_subrange(self.buf.as_slice(), src, src + len)) {
            Ok(record) => record,
            Err(_) => {
                return None;
            },
        };
        proof {
            self.lemma_wf();
        }
        self.move_head_to_next();
        Some(record)
    }

    /// Writes `record` under the cursor, into the window, and moves the
    /// cursor behind it. What the window held elsewhere stays, so a block
    /// entered without reading keeps nothing but what is written to it.
    pub fn write_next_record(&mut self, record: &T)
        requires
            old(self).wf(),
            old(self).addressable(old(self).spec_lba()),
            old(self).spec_offset() + T::width() <= old(self).spec_block_size(),
        ensures
            final(self).wf(),
            final(self)@ == blocks_after_write(
                old(self)@,
                old(self).spec_lba() as int,
                patched(old(self).window(), old(self).spec_offset() as int, record.encoding()),
            ),
            final(self).spec_block_size() == old(self).spec_block_size(),
            final(self).spec_reads() == old(self).spec_reads(),
            (final(self).spec_lba() as int, final(self).spec_offset() as int) == next_position(
                old(self).spec_lba() as int,
                old(self).spec_offset() as int,
                T::width(),
                old(self).spec_block_size() as nat,
            ),
            final(self).spec_lba() == old(self).spec_lba() ==> {
                &&& final(self).window() == patched(
                    old(self).window(),
                    old(self).spec_offset() as int,
                    record.encoding(),
                )
                &&& !final(self).is_outdated()
                &&& final(self).is_dirty()
                &&& final(self).stored() == old(self).stored()
                &&& final(self).spec_writes() == old(self).spec_writes()
            },
            final(self).spec_lba() != old(self).spec_lba() ==> {
                &&& final(self).window() == zeros(old(self).spec_block_size() as nat)
                &&& final(self).is_outdated()
                &&& !final(self).is_dirty()
                &&& final(self).stored() == final(self)@
                &&& final(self).spec_writes() == bumped(old(self).spec_writes())
            },
    {
        proof {
            self.lemma_wf();
            T::lemma_width_bounds();
            T::lemma_encoding_len(*record);
        }
        self.dirty = true;
        self.outdated = false;
        let src = record.to_bytes();
        let off = self.offset as usize;
        let len = src.len();
        let total = self.buf.len();
        let ghost before = self.buf@;
        let mut i: usize = 0;
        while i < len
            invariant
                0 <= i <= len,
                len == src@.len(),
                off + len <= total,
                self.buf@.len() == total,
                self.buf@.len() == before.len(),
                self.device == old(self).device,
                self.lba == old(self).lba,
                self.offset == old(self).offset,
                self.dirty,
                !self.outdated,
                forall|j: int| 0 <= j < off ==> self.buf@[j] == before[j],
                forall|j: int| off <= j < off + i ==> self.buf@[j] == src@[j - off],
                forall|j: int| off + i <= j < before.len() ==> self.buf@[j] == before[j],
            decreases len - i,
        {
            self.buf.set(off + i, src[i]);
            i += 1;
        }
        proof {
            let target = patched(before, off as int, src@);
            assert(self.buf@ =~= target);
            assert(self@ =~= blocks_after_write(old(self)@, self.lba as int, target));
        }
        self.move_head_to_next();
    }
    /// What the tape carries to the next pass over it.
    pub open spec fn carry(&self) -> Carry {
        Carry {
            dirty: self.is_dirty(),
            at_start: self.spec_lba() == 0,
            stale: self.spec_lba() != 0 || self.is_outdated(),
        }
    }

    /// Whether the tape is in a pass that reads it from the start, has
    /// read `k` records, and began the pass carrying `c`, with `reads` and
    /// `writes` counted.
    #[verifier::opaque]
    pub open spec fn reading(&self, c: Carry, reads: u64, writes: u64, k: nat) -> bool {
        let at = position_of(k, T::width(), self.spec_block_size() as nat);
        let kept = c.dirty && c.at_start;
        &&& (self.spec_lba() as int, self.spec_offset() as int) == at
        &&& self.is_outdated() == if k == 0 {
            c.stale
        } else {
            at.1 == 0
        }
        &&& self.is_dirty() == (kept && at.0 == 0)
        &&& self.spec_reads() == bumped_by(
            reads,
            if k == 0 {
                0nat
            } else {
                ((if c.stale {
                    1int
                } else {
                    0int
                }) + at.0 - if at.1 == 0 {
                    1int
                } else {
                    0int
                }) as nat
            },
        )
        &&& self.spec_writes() == bumped_by(
            writes,
            rewind_writes(c) + if kept && at.0 > 0 {
                1nat
            } else {
                0nat
            },
        )
    }

    /// Whether the tape has ended a pass that read its `n` records, and
    /// began the pass carrying `c`, with `reads` and `writes` counted.
    #[verifier::opaque]
    pub open spec fn has_read(&self, c: Carry, reads: u64, writes: u64, n: nat, bare: bool) -> bool {
        let pass = read_pass(c, n, T::width(), self.spec_block_size() as nat, bare);
        &&& self.spec_reads() == bumped_by(reads, pass.0)
        &&& self.spec_writes() == bumped_by(writes, pass.1)
        &&& self.carry() == pass.2
    }

    /// Whether the tape is in a pass that writes it from the start, has
    /// written `m` records, and began the pass carrying `c`, with `reads`
    /// and `writes` counted.
    #[verifier::opaque]
    pub open spec fn writing(&self, c: Carry, reads: u64, writes: u64, m: nat) -> bool {
        let pass = write_pass(c, m, T::width(), self.spec_block_size() as nat);
        &&& (self.spec_lba() as int, self.spec_offset() as int) == position_of(
            m,
            T::width(),
            self.spec_block_size() as nat,
        )
        &&& self.spec_reads() == reads
        &&& self.spec_writes() == bumped_by(writes, pass.0)
        &&& self.carry() == pass.1
    }

    /// Takes the tape back to its start, for a pass that reads it or
    /// writes it.
    fn rewind(&mut self)
        requires
            old(self).wf(),
        ensures
            final(self).wf(),
            final(self)@ == old(self)@,
            final(self).spec_block_size() == old(self).spec_block_size(),
            final(self).spec_lba() == 0,
            final(self).spec_offset() == 0,
            final(self).reading(old(self).carry(), old(self).spec_reads(), old(self).spec_writes(), 0),
            final(self).writing(old(self).carry(), old(self).spec_reads(), old(self).spec_writes(), 0),
            final(self).is_outdated() ==> final(self).spec_offset() == 0,
            final(self).is_outdated() == (old(self).spec_lba() != 0 || old(self).is_outdated()),
    {
        proof {
            self.lemma_wf();
            reveal(Tape::reading);
            reveal(Tape::writing);
            reveal(write_pass);
        }
        self.set_head(0, 0);
    }

    /// The record under the cursor, in a pass that reads the tape.
    fn read_counted(
        &mut self,
        Ghost(c): Ghost<Carry>,
        Ghost(reads): Ghost<u64>,
        Ghost(writes): Ghost<u64>,
        Ghost(k): Ghost<nat>,
    ) -> (r: Option<T>)
        requires
            old(self).wf(),
            T::width() <= old(self).spec_block_size(),
            old(self).reading(c, reads, writes, k),
        ensures
            final(self).wf(),
            final(self)@ == old(self)@,
            final(self).spec_block_size() == old(self).spec_block_size(),
            r == record_at::<T>(
                old(self)@,
                old(self).spec_lba() as int,
                old(self).spec_offset() as int,
            ),
            r is None ==> final(self).spec_lba() == old(self).spec_lba() && final(self).spec_offset()
                == old(self).spec_offset(),
            r is Some ==> (final(self).spec_lba() as int, final(self).spec_offset() as int)
                == next_position(
                old(self).spec_lba() as int,
                old(self).spec_offset() as int,
                T::width(),
                old(self).spec_block_size() as nat,
            ),
            r is Some ==> final(self).reading(c, reads, writes, k + 1),
            r is None ==> final(self).has_read(c, reads, writes, k, old(self)@.len() == 0),
            r is Some ==> old(self).remaining() == seq![r->Some_0] + final(self).remaining(),
            r is None ==> old(self).remaining() == Seq::<T>::empty(),
    {
        proof {
            reveal(Tape::reading);
            reveal(Tape::has_read);
            reveal(read_pass);
            self.lemma_wf();
            T::lemma_width_bounds();
            let bs = self.spec_block_size() as nat;
            lemma_position_bounds(k, T::width(), bs);
            lemma_position_bounds(k + 1, T::width(), bs);
            let at = position_of(k, T::width(), bs);
            let stale: nat = if c.stale {
                1
            } else {
                0
            };
            lemma_bumped_by(reads, 0, 0);
            lemma_bumped_by(reads, stale, 0);
            lemma_bumped_by(reads, (stale + at.0) as nat, 0);
            if k > 0 && at.1 == 0 {
                lemma_position_order((k - 1) as nat, k, T::width(), bs);
                lemma_position_bounds((k - 1) as nat, T::width(), bs);
                lemma_bumped_by(reads, (stale + at.0 - 1) as nat, 0);
            }
            lemma_bumped_by(writes, rewind_writes(c), 0);
        }
        let r = self.read_next_record();
        proof {
            self.lemma_wf();
            if r is Some {
                assert(old(self).remaining() =~= seq![r->Some_0] + self.remaining());
            } else {
                assert(old(self).remaining() =~= Seq::<T>::empty());
            }
        }
        r
    }

    /// Whether the tape writes one record after the other from the start,
    /// and has written `records` so far.
    pub open spec fn writes_behind(&self, records: Seq<T>) -> bool {
        &&& self.wf()
        &&& holds_prefix(self@, records, self.spec_block_size() as nat)
        &&& (self.spec_lba() as int, self.spec_offset() as int) == position_of(
            records.len(),
            T::width(),
            self.spec_block_size() as nat,
        )
        &&& self.is_outdated() ==> self.spec_offset() == 0
    }

    /// Writes `record` behind the records written so far.
    fn append(
        &mut self,
        record: &T,
        Ghost(records): Ghost<Seq<T>>,
        Ghost(origin): Ghost<Seq<Seq<u8>>>,
        Ghost(c): Ghost<Carry>,
        Ghost(reads): Ghost<u64>,
        Ghost(writes): Ghost<u64>,
        Ghost(kept): Ghost<bool>,
    )
        requires
            old(self).writes_behind(records),
            T::width() <= old(self).spec_block_size(),
            old(self).addressable(old(self).spec_lba()),
            old(self).writing(c, reads, writes, records.len()),
        ensures
            final(self).wf(),
            final(self).writing(c, reads, writes, records.len() + 1),
            final(self).spec_block_size() == old(self).spec_block_size(),
            *record != T::sentinel() ==> final(self).writes_behind(records.push(*record)),
            *record == T::sentinel() ==> final(self).contents() == records,
            final(self)@.len() == if old(self).spec_lba() < old(self)@.len() {
                old(self)@.len()
            } else {
                (old(self).spec_lba() + 1) as nat
            },
            final(self).is_outdated() == (final(self).spec_lba() != old(self).spec_lba()),
            open_end(
                old(self)@,
                origin,
                old(self).spec_lba() as int,
                old(self).spec_offset() as int,
                kept,
            ) ==> open_end(
                final(self)@,
                origin,
                final(self).spec_lba() as int,
                final(self).spec_offset() as int,
                final(self).spec_lba() != old(self).spec_lba() || (kept && !old(self).is_outdated()),
            ),
    {
        proof {
            reveal(Tape::writing);
            reveal(write_pass);
            self.lemma_wf();
            T::lemma_width_bounds();
            T::lemma_encoding_len(*record);
            lemma_position_bounds(records.len(), T::width(), self.spec_block_size() as nat);
            lemma_position_bounds(records.len() + 1, T::width(), self.spec_block_size() as nat);
            let at = position_of(records.len(), T::width(), self.spec_block_size() as nat);
            lemma_bumped_by(writes, rewind_writes(c) + at.0 as nat, 0);
            lemma_bumped_by(writes, rewind_writes(c), 0);
            lemma_write_behind_prefix(
                self@,
                records,
                *record,
                self.window(),
                self.spec_block_size() as nat,
            );
        }
        self.write_next_record(record);
        proof {
            let bs = self.spec_block_size() as nat;
            if *record == T::sentinel() {
                lemma_closed_prefix(self@, records, bs);
            }
            let lba = old(self).spec_lba() as int;
            let off = old(self).spec_offset() as int;
            if open_end(old(self)@, origin, lba, off, kept) {
                let block = patched(old(self).window(), off, record.encoding());
                if old(self).is_outdated() {
                    assert forall|x: int| off + T::width() <= x < block.len() implies block[x]
                        == 0 by {}
                } else {
                    assert forall|x: int| off + T::width() <= x < block.len() implies block[x]
                        == old(self)@[lba][x] by {}
                }
                lemma_open_end_written(
                    old(self)@,
                    origin,
                    lba,
                    off,
                    block,
                    T::width(),
                    kept,
                    old(self).is_outdated(),
                );
            }
        }
    }

    /// Deals the records of the tape onto the two helpers, series by
    /// series in turn, and closes each helper with an empty record. Returns
    /// the number of series.
    pub fn split(&mut self, helper: &mut Tape<T>, other_helper: &mut Tape<T>) -> (series: u64)
        requires
            old(self).wf(),
            old(helper).wf(),
            old(other_helper).wf(),
            old(helper).spec_block_size() == old(self).spec_block_size(),
            old(other_helper).spec_block_size() == old(self).spec_block_size(),
            T::width() <= old(self).spec_block_size(),
            old(self).has_room(),
        ensures
            final(self).wf(),
            final(helper).wf(),
            final(other_helper).wf(),
            final(self)@ == old(self)@,
            final(self).spec_block_size() == old(self).spec_block_size(),
            final(helper).spec_block_size() == old(self).spec_block_size(),
            final(other_helper).spec_block_size() == old(self).spec_block_size(),
            series == series_count(old(self).contents()),
            (final(helper).contents(), final(other_helper).contents()) == dealt(
                old(self).contents(),
            ),
            final(self).has_read(
                old(self).carry(),
                old(self).spec_reads(),
                old(self).spec_writes(),
                old(self).contents().len(),
                old(self)@.len() == 0,
            ),
            final(helper).writing(
                old(helper).carry(),
                old(helper).spec_reads(),
                old(helper).spec_writes(),
                dealt(old(self).contents()).0.len() + 1,
            ),
            final(other_helper).writing(
                old(other_helper).carry(),
                old(other_helper).spec_reads(),
                old(other_helper).spec_writes(),
                dealt(old(self).contents()).1.len() + 1,
            ),
            final(helper)@.len() > 0,
            final(other_helper)@.len() > 0,
    {
        let ghost c0 = self.carry();
        let ghost r0 = self.spec_reads();
        let ghost w0 = self.spec_writes();
        let ghost c1 = helper.carry();
        let ghost r1 = helper.spec_reads();
        let ghost w1 = helper.spec_writes();
        let ghost c2 = other_helper.carry();
        let ghost r2 = other_helper.spec_reads();
        let ghost w2 = other_helper.spec_writes();
        self.rewind();
        helper.rewind();
        other_helper.rewind();
        let ghost bs = self.spec_block_size() as nat;
        let ghost all = self.contents();
        let ghost mut read: Seq<T> = Seq::empty();
        proof {
            self.lemma_wf();
            T::lemma_width_bounds();
            lemma_record_count::<T>(self@, bs);
            assert(Seq::<T>::empty() + self.remaining() =~= self.remaining());
        }
        let mut series: u64 = 1;
        let mut previous: Option<u64> = None;
        let mut more = true;
        while more
            invariant
                self.wf(),
                0 < T::width() <= bs,
                bs == self.spec_block_size(),
                self@ == old(self)@,
                helper.spec_block_size() == bs,
                other_helper.spec_block_size() == bs,
                self@.len() * bs <= u64::MAX,
                self@.len() <= u64::MAX,
                can_address(bs as u64, self@.len() as u64),
                all == old(self).contents(),
                all.len() <= self@.len() * bs,
                position_of(all.len(), T::width(), bs).0 <= self@.len(),
                more ==> all == read + self.remaining(),
                !more ==> all == read,
                read.len() <= all.len(),
                helper.writes_behind(dealt(read).0),
                other_helper.writes_behind(dealt(read).1),
                helper.writing(c1, r1, w1, dealt(read).0.len()),
                other_helper.writing(c2, r2, w2, dealt(read).1.len()),
                more ==> self.reading(c0, r0, w0, read.len()),
                !more ==> self.has_read(c0, r0, w0, read.len(), old(self)@.len() == 0),
                series == series_count(read),
                previous is Some == (read.len() > 0),
                previous is Some ==> previous->Some_0 == read.last().order_key(),
            decreases self.remaining().len() + if more { 1int } else { 0int },
        {
            proof {
                self.lemma_wf();
            }
            let ghost rest = self.remaining();
            match self.read_counted(Ghost(c0), Ghost(r0), Ghost(w0), Ghost(read.len())) {
                Some(record) => {
                    let key = record.sort_key();
                    let ghost longer = read.push(record);
                    proof {
                        assert(rest =~= seq![record] + self.remaining());
                        assert(read + rest =~= longer + self.remaining());
                        assert(longer.drop_last() =~= read);
                        lemma_descents_bound(longer);
                        lemma_dealt(read);
                        lemma_dealt(longer);
                        let next = dealt(longer);
                        assert(next.0.len() <= all.len() && next.1.len() <= all.len());
                    }
                    match previous {
                        Some(before) => {
                            if key < before {
                                series += 1;
                            }
                        },
                        None => {},
                    }
                    if series % 2 == 0 {
                        proof {
                            Self::lemma_room(helper, dealt(read).0, all.len(), self@.len());
                        }
                        helper.append(
                            &record,
                            Ghost(dealt(read).0),
                            Ghost(Seq::empty()),
                            Ghost(c1),
                            Ghost(r1),
                            Ghost(w1),
                            Ghost(false),
                        );
                    } else {
                        proof {
                            Self::lemma_room(other_helper, dealt(read).1, all.len(), self@.len());
                        }
                        other_helper.append(
                            &record,
                            Ghost(dealt(read).1),
                            Ghost(Seq::empty()),
                            Ghost(c2),
                            Ghost(r2),
                            Ghost(w2),
                            Ghost(false),
                        );
                    }
                    previous = Some(key);
                    proof {
                        read = longer;
                    }
                },
                None => {
                    more = false;
                    proof {
                        assert(rest =~= Seq::<T>::empty());
                        assert(read + rest =~= read);
                    }
                },
            }
        }
        let empty_record = T::new();
        proof {
            lemma_dealt(all);
            Self::lemma_room(helper, dealt(all).0, all.len(), self@.len());
            Self::lemma_room(other_helper, dealt(all).1, all.len(), self@.len());
        }
        helper.append(
            &empty_record,
            Ghost(dealt(all).0),
            Ghost(Seq::empty()),
            Ghost(c1),
            Ghost(r1),
            Ghost(w1),
            Ghost(false),
        );
        other_helper.append(
            &empty_record,
            Ghost(dealt(all).1),
            Ghost(Seq::empty()),
            Ghost(c2),
            Ghost(r2),
            Ghost(w2),
            Ghost(false),
        );
        series
    }

    /// A tape that has written no more records than fit `blocks + 1`
    /// blocks stands in a block that its device can hold.
    proof fn lemma_room(tape: &Tape<T>, records: Seq<T>, count: nat, blocks: nat)
        requires
            tape.writes_behind(records),
            0 < T::width() <= tape.spec_block_size(),
            records.len() <= count,
            position_of(count, T::width(), tape.spec_block_size() as nat).0 <= blocks,
            blocks <= u64::MAX,
            can_address(tape.spec_block_size(), blocks as u64),
        ensures
            tape.addressable(tape.spec_lba()),
    {
        let bs = tape.spec_block_size() as nat;
        if records.len() < count {
            lemma_position_order(records.len(), count, T::width(), bs);
        }
        let lba = tape.spec_lba();
        assert((lba + 1) * bs <= (blocks + 1) * bs) by (nonlinear_arith)
            requires
                lba <= blocks,
        ;
    }

    /// Whether the device can hold the blocks that `count` records need.
    pub open spec fn can_hold(&self, count: nat) -> bool {
        count > 0 ==> {
            let last = position_of(
                (count - 1) as nat,
                T::width(),
                self.spec_block_size() as nat,
            ).0;
            last <= u64::MAX && self.addressable(last as u64)
        }
    }

    /// A device that can hold as many blocks as there are records can hold
    /// the blocks that the records need.
    pub proof fn lemma_can_hold(&self, count: nat)
        requires
            0 < T::width() <= self.spec_block_size(),
            count > 0 ==> count - 1 <= u64::MAX && self.addressable((count - 1) as u64),
        ensures
            self.can_hold(count),
    {
        if count > 0 {
            lemma_position_bounds((count - 1) as nat, T::width(), self.spec_block_size() as nat);
            let last = position_of((count - 1) as nat, T::width(), self.spec_block_size() as nat).0;
            crate::device::lemma_can_address_below(
                self.spec_block_size(),
                (count - 1) as u64,
                last as u64,
            );
        }
    }

    /// The records that the tape still holds behind `count` records
    /// written over it from its start: those that it held there, where the
    /// block that the writing ends in keeps what it held. It does where
    /// nothing was written to it, and where it is the first block and the
    /// window showed it before. A block entered for writing keeps nothing
    /// but what is written to it.
    pub open spec fn kept_behind(&self, count: nat) -> Seq<T> {
        let end = position_of(count, T::width(), self.spec_block_size() as nat);
        if count == 0 || end.1 == 0 || (end.0 == 0 && self.spec_lba() == 0 && !self.is_outdated()) {
            records_after::<T>(self@, end.0, end.1, self.spec_block_size() as nat)
        } else {
            Seq::empty()
        }
    }

    /// Merges the records of the two helpers onto the tape, from its start
    /// on, over whatever it holds. Returns the number of series in what was
    /// written. The tape then holds the merged records and, behind them,
    /// the records that it keeps of those it held: none where it held none
    /// in the slot behind the merged records.
    #[verifier::rlimit(80)]
    pub fn join(&mut self, helper: &mut Tape<T>, other_helper: &mut Tape<T>) -> (series: u64)
        requires
            old(self).wf(),
            old(helper).wf(),
            old(other_helper).wf(),
            old(helper).spec_block_size() == old(self).spec_block_size(),
            old(other_helper).spec_block_size() == old(self).spec_block_size(),
            T::width() <= old(self).spec_block_size(),
            old(self).can_hold(
                old(helper).contents().len() + old(other_helper).contents().len(),
            ),
        ensures
            final(self).wf(),
            final(helper).wf(),
            final(other_helper).wf(),
            final(self).spec_block_size() == old(self).spec_block_size(),
            final(helper).spec_block_size() == old(self).spec_block_size(),
            final(other_helper).spec_block_size() == old(self).spec_block_size(),
            final(helper)@ == old(helper)@,
            final(other_helper)@ == old(other_helper)@,
            final(self)@.len() == blocks_with(
                old(self)@.len(),
                old(helper).contents().len() + old(other_helper).contents().len(),
                T::width(),
                old(self).spec_block_size() as nat,
            ),
            holds_prefix(
                final(self)@,
                merged(old(helper).contents(), old(other_helper).contents(), None),
                old(self).spec_block_size() as nat,
            ),
            record_number::<T>(
                old(self)@,
                old(helper).contents().len() + old(other_helper).contents().len(),
                old(self).spec_block_size() as nat,
            ) is None ==> final(self).contents() == merged(
                old(helper).contents(),
                old(other_helper).contents(),
                None,
            ),
            final(self).contents() == merged(
                old(helper).contents(),
                old(other_helper).contents(),
                None,
            ) + old(self).kept_behind(
                old(helper).contents().len() + old(other_helper).contents().len(),
            ),
            series == series_count(
                merged(old(helper).contents(), old(other_helper).contents(), None),
            ),
            final(self).writing(
                old(self).carry(),
                old(self).spec_reads(),
                old(self).spec_writes(),
                old(helper).contents().len() + old(other_helper).contents().len(),
            ),
            final(helper).has_read(
                old(helper).carry(),
                old(helper).spec_reads(),
                old(helper).spec_writes(),
                old(helper).contents().len(),
                old(helper)@.len() == 0,
            ),
            final(other_helper).has_read(
                old(other_helper).carry(),
                old(other_helper).spec_reads(),
                old(other_helper).spec_writes(),
                old(other_helper).contents().len(),
                old(other_helper)@.len() == 0,
            ),
    {
        let mut series: u64 = 1;
        let ghost c0 = self.carry();
        let ghost r0 = self.spec_reads();
        let ghost w0 = self.spec_writes();
        let ghost c1 = helper.carry();
        let ghost r1 = helper.spec_reads();
        let ghost w1 = helper.spec_writes();
        let ghost c2 = other_helper.carry();
        let ghost r2 = other_helper.spec_reads();
        let ghost w2 = other_helper.spec_writes();
        self.rewind();
        helper.rewind();
        other_helper.rewind();
        let ghost bs = self.spec_block_size() as nat;
        let ghost origin = self@;
        let ghost left = helper.contents();
        let ghost right = other_helper.contents();
        let ghost total = left.len() + right.len();
        let ghost mut out: Seq<T> = Seq::empty();
        let ghost mut kept = true;
        let ghost fresh = self.is_outdated();
        proof {
            self.lemma_wf();
            helper.lemma_wf();
            other_helper.lemma_wf();
            T::lemma_width_bounds();
            if total > 0 {
                lemma_position_bounds((total - 1) as nat, T::width(), bs);
                let last = position_of((total - 1) as nat, T::width(), bs);
                assert(last.0 * bs + last.1 < (last.0 + 1) * bs) by (nonlinear_arith)
                    requires
                        last.1 < bs,
                ;
            }
        }
        let mut previous: Option<u64> = None;
        let mut first = helper.read_counted(Ghost(c1), Ghost(r1), Ghost(w1), Ghost(0));
        let mut second = other_helper.read_counted(Ghost(c2), Ghost(r2), Ghost(w2), Ghost(0));
        let ghost mut rest_left = left;
        let ghost mut rest_right = right;
        proof {
            assert(Seq::<T>::empty() + merged(left, right, None) =~= merged(left, right, None));
            if first is Some {
                assert(left =~= seq![first->Some_0] + helper.remaining());
            } else {
                assert(left =~= Seq::<T>::empty());
            }
            if second is Some {
                assert(right =~= seq![second->Some_0] + other_helper.remaining());
            } else {
                assert(right =~= Seq::<T>::empty());
            }
        }
        let mut more = true;
        while more
            invariant
                self.wf(),
                helper.wf(),
                other_helper.wf(),
                0 < T::width() <= bs,
                bs == self.spec_block_size(),
                helper.spec_block_size() == bs,
                other_helper.spec_block_size() == bs,
                helper@ == old(helper)@,
                other_helper@ == old(other_helper)@,
                origin == old(self)@,
                total == left.len() + right.len(),
                total > 0 ==> position_of((total - 1) as nat, T::width(), bs).0 <= u64::MAX
                    && can_address(
                    bs as u64,
                    position_of((total - 1) as nat, T::width(), bs).0 as u64,
                ),
                forall|i: int| 0 <= i < origin.len() ==> (#[trigger] origin[i]).len() == bs,
                total <= u64::MAX,
                self@.len() == blocks_with(origin.len(), out.len(), T::width(), bs),
                left == old(helper).contents(),
                right == old(other_helper).contents(),
                rest_left == if first is Some {
                    seq![first->Some_0] + helper.remaining()
                } else {
                    Seq::empty()
                },
                rest_right == if second is Some {
                    seq![second->Some_0] + other_helper.remaining()
                } else {
                    Seq::empty()
                },
                merged(left, right, None) == out + merged(
                    rest_left,
                    rest_right,
                    if out.len() > 0 {
                        Some(out.last().order_key())
                    } else {
                        None
                    },
                ),
                !more ==> rest_left.len() == 0 && rest_right.len() == 0,
                first is Some ==> first->Some_0 != T::sentinel(),
                second is Some ==> second->Some_0 != T::sentinel(),
                out.len() + rest_left.len() + rest_right.len() == total,
                self.writes_behind(out),
                self.writing(c0, r0, w0, out.len()),
                first is Some ==> helper.reading(
                    c1,
                    r1,
                    w1,
                    (left.len() - rest_left.len() + 1) as nat,
                ),
                first is None ==> helper.has_read(c1, r1, w1, left.len(), old(helper)@.len() == 0),
                second is Some ==> other_helper.reading(
                    c2,
                    r2,
                    w2,
                    (right.len() - rest_right.len() + 1) as nat,
                ),
                second is None ==> other_helper.has_read(
                    c2,
                    r2,
                    w2,
                    right.len(),
                    old(other_helper)@.len() == 0,
                ),
                rest_left.len() <= left.len(),
                rest_right.len() <= right.len(),
                open_end(self@, origin, self.spec_lba() as int, self.spec_offset() as int, kept),
                kept == (out.len() == 0 || self.spec_offset() == 0 || (self.spec_lba() == 0
                    && !fresh)),
                out.len() == 0 ==> self.is_outdated() == fresh,
                out.len() > 0 ==> self.is_outdated() == (self.spec_offset() == 0),
                fresh == (old(self).spec_lba() != 0 || old(self).is_outdated()),
                series == series_count(out),
                series <= out.len() + 1,
                previous is Some == (out.len() > 0),
                previous is Some ==> previous->Some_0 == out.last().order_key(),
            decreases rest_left.len() + rest_right.len() + if more { 1int } else { 0int },
        {
            let ghost floor = if out.len() > 0 {
                Some(out.last().order_key())
            } else {
                None
            };
            let from_first: bool = match (first, second) {
                (None, None) => {
                    more = false;
                    false
                },
                _ => takes_head(
                    &first,
                    &second,
                    previous,
                    Ghost(rest_left),
                    Ghost(rest_right),
                    Ghost(floor),
                ),
            };
            if more {
                let record: T = if from_first {
                    match first {
                        Some(x) => x,
                        None => T::new(),
                    }
                } else {
                    match second {
                        Some(y) => y,
                        None => T::new(),
                    }
                };
                let key = record.sort_key();
                match previous {
                    Some(p) => {
                        if key < p {
                            proof {
                                lemma_descents_bound(out.push(record));
                                assert(out.push(record).drop_last() =~= out);
                                assert(descents(out.push(record)) == descents(out) + 1);
                            }
                            series += 1;
                        }
                    },
                    None => {},
                }
                proof {
                    let m = out.len();
                    assert(m < total);
                    let last = position_of((total - 1) as nat, T::width(), bs);
                    if m < total - 1 {
                        lemma_position_order(m, (total - 1) as nat, T::width(), bs);
                    }
                    if m > 0 {
                        lemma_position_order((m - 1) as nat, m, T::width(), bs);
                        lemma_position_bounds((m - 1) as nat, T::width(), bs);
                    }
                    lemma_position_bounds(m, T::width(), bs);
                    crate::device::lemma_can_address_below(
                        bs as u64,
                        last.0 as u64,
                        self.spec_lba(),
                    );
                    assert(out.push(record).drop_last() =~= out);
                    lemma_descents_bound(out.push(record));
                    lemma_descents_bound(out);
                }
                let ghost was_outdated = self.is_outdated();
                let ghost was_at = self.spec_lba();
                self.append(
                    &record,
                    Ghost(out),
                    Ghost(origin),
                    Ghost(c0),
                    Ghost(r0),
                    Ghost(w0),
                    Ghost(kept),
                );
                proof {
                    kept = self.spec_lba() != was_at || (kept && !was_outdated);
                }
                let ghost tail;
                if from_first {
                    let ghost before = helper.remaining();
                    first = helper.read_counted(
                        Ghost(c1),
                        Ghost(r1),
                        Ghost(w1),
                        Ghost((left.len() - rest_left.len() + 1) as nat),
                    );
                    proof {
                        tail = before;
                        if first is Some {
                            assert(before =~= seq![first->Some_0] + helper.remaining());
                        } else {
                            assert(before =~= Seq::<T>::empty());
                        }
                        assert(rest_left.drop_first() =~= before);
                        rest_left = before;
                    }
                } else {
                    let ghost before = other_helper.remaining();
                    second = other_helper.read_counted(
                        Ghost(c2),
                        Ghost(r2),
                        Ghost(w2),
                        Ghost((right.len() - rest_right.len() + 1) as nat),
                    );
                    proof {
                        tail = before;
                        if second is Some {
                            assert(before =~= seq![second->Some_0] + other_helper.remaining());
                        } else {
                            assert(before =~= Seq::<T>::empty());
                        }
                        assert(rest_right.drop_first() =~= before);
                        rest_right = before;
                    }
                }
                proof {
                    let following = merged(rest_left, rest_right, Some(record.order_key()));
                    assert(out + (seq![record] + following) =~= out.push(record) + following);
                    out = out.push(record);
                }
                previous = Some(key);
            } else {
                proof {
                    assert(rest_left.len() == 0 && rest_right.len() == 0);
                }
            }
        }
        proof {
            self.lemma_wf();
            assert(merged(rest_left, rest_right, if out.len() > 0 {
                Some(out.last().order_key())
            } else {
                None
            }) =~= Seq::<T>::empty());
            assert(out + Seq::<T>::empty() =~= out);
            assert(out.len() == total);
            let end = position_of(total, T::width(), bs);
            lemma_position_bounds(total, T::width(), bs);
            lemma_open_end_tail::<T>(self@, origin, end.0, end.1, bs, kept);
            lemma_prefix_read(self@, out, bs, 0);
            assert(out.subrange(0, out.len() as int) =~= out);
            if total > 0 && end.1 == 0 {
                lemma_position_order((total - 1) as nat, total, T::width(), bs);
                lemma_position_bounds((total - 1) as nat, T::width(), bs);
            }
            if record_number::<T>(origin, total, bs) is None {
                assert(records_after::<T>(origin, end.0, end.1, bs) =~= Seq::<T>::empty());
                assert(out + Seq::<T>::empty() =~= out);
            }
        }
        series
    }
    /// Whether `sort` can be asked of this tape: a record fits a block, and
    /// the device can hold one block more than the tape has.
    pub fn can_sort(&self) -> (b: bool)
        requires
            self.wf(),
        ensures
            b == (T::width() <= self.spec_block_size() && self.has_room()),
    {
        proof {
            self.lemma_wf();
            self.device.lemma_wf();
            T::lemma_width_bounds();
        }
        let block_size = self.device.block_size();
        let stored = self.device.block_count();
        let blocks = if !self.outdated && self.lba >= stored {
            self.lba + 1
        } else {
            stored
        };
        proof {
            assert(blocks == self@.len());
            if blocks < u64::MAX / block_size {
                assert((blocks + 1) * block_size <= u64::MAX) by (nonlinear_arith)
                    requires
                        blocks < u64::MAX / block_size,
                        block_size > 0,
                ;
            } else {
                assert((blocks + 1) * block_size > u64::MAX) by (nonlinear_arith)
                    requires
                        blocks >= u64::MAX / block_size,
                        block_size > 0,
                ;
            }
        }
        T::get_size() <= block_size && blocks < usize::MAX as u64 && blocks < u64::MAX
            / block_size
    }

    /// Sorts the tape by natural merge sort with two helper tapes of its
    /// own making: rounds of `split` and `join`, until one of the two finds
    /// a single series.
    pub fn sort(&mut self) -> (report: SortReport)
        requires
            old(self).wf(),
            T::width() <= old(self).spec_block_size(),
            old(self).has_room(),
        ensures
            final(self).wf(),
            final(self).spec_block_size() == old(self).spec_block_size(),
            final(self).contents() == settled(old(self).contents()),
            is_sorted(final(self).contents()),
            final(self).contents().to_multiset() == old(self).contents().to_multiset(),
            final(self).contents().len() == old(self).contents().len(),
            final(self)@.len() == old(self)@.len(),
            report.runs == rounds(old(self).contents()),
            report.reads == bumped_by(
                old(self).spec_reads(),
                sort_io(
                    old(self).contents(),
                    old(self).carry(),
                    new_carry(),
                    new_carry(),
                    old(self)@.len() == 0,
                    old(self).spec_block_size() as nat,
                ).0,
            ),
            report.writes == bumped_by(
                old(self).spec_writes(),
                sort_io(
                    old(self).contents(),
                    old(self).carry(),
                    new_carry(),
                    new_carry(),
                    old(self)@.len() == 0,
                    old(self).spec_block_size() as nat,
                ).1,
            ),
    {
        proof {
            self.lemma_wf();
        }
        let block_size = self.device.block_size();
        let first_device = match BlockDevice::new(block_size) {
            Ok(device) => device,
            Err(_) => {
                return SortReport { runs: 0, reads: self.reads(), writes: self.writes() };
            },
        };
        let second_device = match BlockDevice::new(block_size) {
            Ok(device) => device,
            Err(_) => {
                return SortReport { runs: 0, reads: self.reads(), writes: self.writes() };
            },
        };
        let mut first_helper = Tape::<T>::new(first_device);
        let mut second_helper = Tape::<T>::new(second_device);
        let ghost start = self.contents();
        let ghost bare = self@.len() == 0;
        let ghost bs = block_size as nat;
        let ghost total = sort_io(start, self.carry(), new_carry(), new_carry(), bare, bs);
        let ghost reads0 = self.spec_reads();
        let ghost writes0 = self.spec_writes();
        let ghost mut spent: (nat, nat, nat, nat, nat, nat) = (0, 0, 0, 0, 0, 0);
        proof {
            lemma_settled(start);
            lemma_descents_bound(start);
            T::lemma_width_bounds();
            lemma_record_count::<T>(self@, block_size as nat);
            lemma_bumped_by(reads0, 0, 0);
            lemma_bumped_by(writes0, 0, 0);
            lemma_bumped_by(0, 0, 0);
        }
        let mut run: u64 = 0;
        let mut done = false;
        while !done
            invariant
                bs == self.spec_block_size(),
                bare == (old(self)@.len() == 0),
                reads0 == old(self).spec_reads(),
                writes0 == old(self).spec_writes(),
                total == sort_io(start, old(self).carry(), new_carry(), new_carry(), bare, bs),
                self.spec_reads() == bumped_by(reads0, spent.0),
                self.spec_writes() == bumped_by(writes0, spent.1),
                first_helper.spec_reads() == bumped_by(0, spent.2),
                first_helper.spec_writes() == bumped_by(0, spent.3),
                second_helper.spec_reads() == bumped_by(0, spent.4),
                second_helper.spec_writes() == bumped_by(0, spent.5),
                done ==> spent.0 + spent.2 + spent.4 == total.0 && spent.1 + spent.3 + spent.5
                    == total.1,
                !done ==> ({
                    let rest = sort_io(
                        self.contents(),
                        self.carry(),
                        first_helper.carry(),
                        second_helper.carry(),
                        bare,
                        bs,
                    );
                    spent.0 + spent.2 + spent.4 + rest.0 == total.0 && spent.1 + spent.3 + spent.5
                        + rest.1 == total.1
                }),
                self.wf(),
                first_helper.wf(),
                second_helper.wf(),
                self.spec_block_size() == old(self).spec_block_size(),
                first_helper.spec_block_size() == self.spec_block_size(),
                second_helper.spec_block_size() == self.spec_block_size(),
                T::width() <= self.spec_block_size(),
                self@.len() == old(self)@.len(),
                self.has_room(),
                start == old(self).contents(),
                start.len() <= u64::MAX,
                settled(self.contents()) == settled(start),
                self.contents().len() == start.len(),
                self.contents().to_multiset() == start.to_multiset(),
                done ==> descents(self.contents()) == 0 && run == rounds(start),
                !done ==> run + rounds(self.contents()) == rounds(start),
            decreases descents(self.contents()) + if done { 0int } else { 1int },
        {
            let ghost current = self.contents();
            proof {
                lemma_pass(current);
                lemma_dealt(current);
                lemma_settled(current);
                lemma_settled(start);
                lemma_descents_bound(start);
            }
            let ghost w = T::width();
            let ghost d = dealt(current);
            let ghost cm = self.carry();
            let ghost c1 = first_helper.carry();
            let ghost c2 = second_helper.carry();
            let ghost read = read_pass(cm, current.len(), w, bs, bare);
            let ghost to_first = write_pass(c1, d.0.len() + 1, w, bs);
            let ghost to_second = write_pass(c2, d.1.len() + 1, w, bs);
            let ghost from_first = read_pass(to_first.1, d.0.len(), w, bs, false);
            let ghost from_second = read_pass(to_second.1, d.1.len(), w, bs, false);
            let ghost back = write_pass(read.2, current.len(), w, bs);
            proof {
                lemma_sort_io(current, cm, c1, c2, bare, bs);
            }
            let series = self.split(&mut first_helper, &mut second_helper);
            proof {
                reveal(Tape::has_read);
                reveal(Tape::writing);
                lemma_bumped_by(reads0, spent.0, read.0);
                lemma_bumped_by(writes0, spent.1, read.1);
                lemma_bumped_by(0, spent.3, to_first.0);
                lemma_bumped_by(0, spent.5, to_second.0);
                spent = (
                    spent.0 + read.0,
                    spent.1 + read.1,
                    spent.2,
                    spent.3 + to_first.0,
                    spent.4,
                    spent.5 + to_second.0,
                );
            }
            if series == 1 {
                done = true;
            } else {
                proof {
                    let bs = self.spec_block_size() as nat;
                    let n = current.len();
                    self.lemma_wf();
                    lemma_contents_are_prefix::<T>(self@, bs);
                    lemma_position_bounds(n, T::width(), bs);
                    if n > 0 {
                        let last = (n - 1) as nat;
                        assert(record_number::<T>(self@, last, bs) == Some(current[last as int]));
                    }
                }
                let series = self.join(&mut first_helper, &mut second_helper);
                proof {
                    lemma_bumped_by(writes0, spent.1, back.0);
                    lemma_bumped_by(0, spent.2, from_first.0);
                    lemma_bumped_by(0, spent.3, from_first.1);
                    lemma_bumped_by(0, spent.4, from_second.0);
                    lemma_bumped_by(0, spent.5, from_second.1);
                    spent = (
                        spent.0,
                        spent.1 + back.0,
                        spent.2 + from_first.0,
                        spent.3 + from_first.1,
                        spent.4 + from_second.0,
                        spent.5 + from_second.1,
                    );
                }
                if series == 1 {
                    done = true;
                } else {
                    run += 1;
                }
            }
        }
        proof {
            lemma_settled(start);
            lemma_counted(reads0, spent.0, spent.2, spent.4);
            lemma_counted(writes0, spent.1, spent.3, spent.5);
        }
        SortReport {
            runs: run,
            reads: add_counts(self.reads(), first_helper.reads(), second_helper.reads()),
            writes: add_counts(self.writes(), first_helper.writes(), second_helper.writes()),
        }
    }

    /// The records of the tape, read from the start. The cursor is left
    /// behind the last of them.
    pub fn records(&mut self) -> (records: Vec<T>)
        requires
            old(self).wf(),
        ensures
            final(self).wf(),
            final(self)@ == old(self)@,
            final(self).spec_block_size() == old(self).spec_block_size(),
            records@ == old(self).contents(),
    {
        self.set_head(0, 0);
        let mut records: Vec<T> = Vec::new();
        let ghost all = self.contents();
        proof {
            assert(records@ + self.remaining() =~= all);
        }
        let mut more = true;
        while more
            invariant
                self.wf(),
                self@ == old(self)@,
                self.spec_block_size() == old(self).spec_block_size(),
                all == old(self).contents(),
                all == records@ + self.remaining(),
                !more ==> self.remaining().len() == 0,
            decreases self.remaining().len() + if more { 1int } else { 0int },
        {
            proof {
                self.lemma_wf();
                T::lemma_width_bounds();
            }
            let ghost rest = self.remaining();
            match self.read_next_record() {
                Some(record) => {
                    proof {
                        assert(rest =~= seq![record] + self.remaining());
                        assert(records@ + rest =~= records@.push(record) + self.remaining());
                    }
                    records.push(record);
                },
                None => {
                    more = false;
                    proof {
                        assert(rest =~= Seq::<T>::empty());
                    }
                },
            }
        }
        proof {
            assert(records@ + self.remaining() =~= records@);
        }
        records
    }
}

} // verus!
