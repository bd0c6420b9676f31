//! A page: the records of one block held in memory, written back to the
//! device only when they were changed.

use vstd::prelude::*;
use vstd::arithmetic::div_mod::lemma_fundamental_div_mod_converse;
use vstd::slice::*;
use crate::bytes::Bytes;
use crate::device::{BlockDevice, DeviceError, bumped, blocks_after_write};

verus! {

/// The bytes of slot `k` of a block whose slots are `width` bytes wide.
pub open spec fn slot(block: Seq<u8>, k: int, width: nat) -> Seq<u8> {
    block.subrange(k * width, (k + 1) * width)
}

/// The records in slots `k..slots` of `block`, up to the first slot that
/// holds the sentinel.
pub open spec fn records_from<R: Bytes>(block: Seq<u8>, k: nat, slots: nat) -> Seq<R>
    decreases slots - k,
{
    if k < slots {
        let record = R::decoding(slot(block, k as int, R::width()));
        if record == R::sentinel() {
            Seq::empty()
        } else {
            seq![record] + records_from::<R>(block, k + 1, slots)
        }
    } else {
        Seq::empty()
    }
}

/// The records that a block holds: those of its whole slots, in order, up
/// to the first slot that holds the sentinel.
pub open spec fn decode_block<R: Bytes>(block: Seq<u8>) -> Seq<R> {
    records_from::<R>(block, 0, block.len() / R::width())
}

/// The block that stores `records`: their encodings in order, then the
/// sentinel in every further whole slot, then zeros.
pub open spec fn encode_block<R: Bytes>(records: Seq<R>, block_size: nat) -> Seq<u8> {
    Seq::new(
        block_size,
        |j: int|
            {
                let k = j / R::width() as int;
                let at = j % R::width() as int;
                if k < records.len() {
                    records[k].encoding()[at]
                } else if (k + 1) * R::width() <= block_size {
                    R::sentinel().encoding()[at]
                } else {
                    0u8
                }
            },
    )
}

/// Whether `records` can be stored in a block and read back: they fit, and
/// none of them is the sentinel.
pub open spec fn storable<R: Bytes>(records: Seq<R>, block_size: nat) -> bool {
    &&& records.len() * R::width() <= block_size
    &&& forall|i: int| 0 <= i < records.len() ==> #[trigger] records[i] != R::sentinel()
}

/// Slot `k` of an encoded block holds record `k`, or the sentinel behind
/// the last record.
pub proof fn lemma_encoded_slot<R: Bytes>(records: Seq<R>, block_size: nat, k: int)
    requires
        0 <= k,
        (k + 1) * R::width() <= block_size,
    ensures
        slot(encode_block(records, block_size), k, R::width()) == if k < records.len() {
            records[k].encoding()
        } else {
            R::sentinel().encoding()
        },
{
    R::lemma_width_bounds();
    let w = R::width() as int;
    let block = encode_block(records, block_size);
    let expected = if k < records.len() {
        records[k].encoding()
    } else {
        R::sentinel().encoding()
    };
    if k < records.len() {
        R::lemma_encoding_len(records[k]);
    } else {
        R::lemma_encoding_len(R::sentinel());
    }
    assert(k * w + w == (k + 1) * w) by (nonlinear_arith);
    assert(0 <= k * w) by (nonlinear_arith)
        requires
            0 <= k,
            0 < w,
    ;
    let s = slot(block, k, R::width());
    assert(s.len() == w);
    assert forall|at: int| 0 <= at < w implies s[at] == expected[at] by {
        let j = k * w + at;
        lemma_fundamental_div_mod_converse(j, w, k, at);
        assert(s[at] == block[j]);
    }
    assert(s =~= expected);
}

/// The records found from slot `k` on in the encoding of `records`.
proof fn lemma_round_trip_from<R: Bytes>(records: Seq<R>, block_size: nat, k: nat)
    requires
        storable(records, block_size),
        k <= records.len(),
    ensures
        records_from::<R>(encode_block(records, block_size), k, block_size / R::width())
            == records.subrange(k as int, records.len() as int),
    decreases records.len() - k,
{
    R::lemma_width_bounds();
    let w = R::width();
    let slots = block_size / w;
    let block = encode_block(records, block_size);
    let found = records_from::<R>(block, k, slots);
    let rest = records.subrange(k as int, records.len() as int);
    assert(records.len() <= slots) by (nonlinear_arith)
        requires
            records.len() * w <= block_size,
            slots == block_size / w,
            w > 0,
    ;
    if k < slots {
        assert((k + 1) * w <= block_size) by (nonlinear_arith)
            requires
                k < slots,
                slots == block_size / w,
                w > 0,
        ;
        lemma_encoded_slot(records, block_size, k as int);
        if k < records.len() {
            R::lemma_round_trip(records[k as int]);
            lemma_round_trip_from(records, block_size, k + 1);
            assert(rest =~= seq![records[k as int]] + records.subrange(
                k as int + 1,
                records.len() as int,
            ));
        } else {
            R::lemma_round_trip(R::sentinel());
            assert(found =~= rest);
        }
    } else {
        assert(found =~= rest);
    }
}

/// Reading back what was stored gives the same records.
pub proof fn lemma_block_round_trip<R: Bytes>(records: Seq<R>, block_size: nat)
    requires
        storable(records, block_size),
    ensures
        encode_block(records, block_size).len() == block_size,
        decode_block::<R>(encode_block(records, block_size)) == records,
{
    lemma_round_trip_from(records, block_size, 0);
    assert(records.subrange(0, records.len() as int) =~= records);
}

/// Decoding finds no more records than there are slots, and never the
/// sentinel.
pub proof fn lemma_records_from_bounds<R: Bytes>(block: Seq<u8>, k: nat, slots: nat)
    ensures
        k <= slots ==> records_from::<R>(block, k, slots).len() <= slots - k,
        k >= slots ==> records_from::<R>(block, k, slots).len() == 0,
        forall|i: int|
            0 <= i < records_from::<R>(block, k, slots).len() ==> #[trigger] records_from::<R>(
                block,
                k,
                slots,
            )[i] != R::sentinel(),
    decreases slots - k,
{
    if k < slots {
        lemma_records_from_bounds::<R>(block, k + 1, slots);
        let found = records_from::<R>(block, k, slots);
        let rest = records_from::<R>(block, k + 1, slots);
        let record = R::decoding(slot(block, k as int, R::width()));
        if record != R::sentinel() {
            assert(found == seq![record] + rest);
            assert forall|i: int| 0 <= i < found.len() implies #[trigger] found[i]
                != R::sentinel() by {
                if i > 0 {
                    assert(found[i] == rest[i - 1]);
                }
            }
        }
    }
}

/// What a block decodes to can be stored again.
pub proof fn lemma_decoded_storable<R: Bytes>(block: Seq<u8>)
    ensures
        storable(decode_block::<R>(block), block.len()),
{
    R::lemma_width_bounds();
    let w = R::width();
    let slots = block.len() / w;
    lemma_records_from_bounds::<R>(block, 0, slots);
    let n = decode_block::<R>(block).len();
    assert(n * w <= block.len()) by (nonlinear_arith)
        requires
            n <= slots,
            slots == block.len() / w,
            w > 0,
    ;
}

/// The records of one block, in memory, with the number of the block,
/// the parent that the page was asked for through, and whether the
/// records were changed since they were read.
pub struct Page<R: Bytes> {
    pub records: Vec<R>,
    pub dirty: bool,
    pub lba: u64,
    pub parent_lba: u64,
}

impl<R: Bytes> Page<R> {
    /// The page of block `lba`. A block that the device does not hold gives
    /// an empty page that is dirty, so that closing it creates the block.
    pub fn new(device: &mut BlockDevice, lba: u64, parent_lba: u64) -> (page: Self)
        requires
            old(device).wf(),
        ensures
            final(device).wf(),
            final(device)@ == old(device)@,
            final(device).spec_block_size() == old(device).spec_block_size(),
            final(device).spec_writes() == old(device).spec_writes(),
            final(device).spec_reads() == bumped(old(device).spec_reads()),
            page.lba == lba,
            page.parent_lba == parent_lba,
            page.dirty == (lba >= old(device)@.len()),
            page.records@ == if lba < old(device)@.len() {
                decode_block::<R>(old(device)@[lba as int])
            } else {
                Seq::<R>::empty()
            },
    {
        let mut page = Page { records: Vec::new(), dirty: false, lba, parent_lba };
        let bytes = match device.read(lba) {
            Ok(bytes) => bytes,
            Err(_) => {
                page.dirty = true;
                return page;
            },
        };
        proof {
            R::lemma_width_bounds();
            device.lemma_wf();
        }
        let size = R::get_size();
        let ghost w = R::width();
        let ghost slots = bytes@.len() / w;
        let mut off: usize = 0;
        let mut k: usize = 0;
        if size > bytes.len() as u64 {
            proof {
                assert(slots == 0) by (nonlinear_arith)
                    requires
                        slots == bytes@.len() / w,
                        w > bytes@.len(),
                ;
            }
            return page;
        }
        let len = size as usize;
        let mut more = true;
        while more && off <= bytes.len() - len
            invariant
                w == R::width(),
                len == w,
                0 < len <= bytes@.len(),
                slots == bytes@.len() / w,
                off == k * w,
                off <= bytes@.len(),
                page.lba == lba,
                page.parent_lba == parent_lba,
                !page.dirty,
                !more ==> records_from::<R>(bytes@, k as nat, slots).len() == 0,
                decode_block::<R>(bytes@) == page.records@ + records_from::<R>(
                    bytes@,
                    k as nat,
                    slots,
                ),
            decreases bytes@.len() - off + if more { 1int } else { 0int },
        {
            proof {
                assert(k < slots) by (nonlinear_arith)
                    requires
                        k * w + w <= bytes@.len(),
                        slots == bytes@.len() / w,
                        w > 0,
                ;
                assert((k + 1) * w == k * w + w) by (nonlinear_arith);
            }
            let record = R::from_bytes(slice_subrange(bytes.as_slice(), off, off + len));
            if record.is_invalid() {
                more = false;
            } else {
                proof {
                    let rest = records_from::<R>(bytes@, (k + 1) as nat, slots);
                    assert(page.records@ + (seq![record] + rest) =~= page.records@.push(record)
                        + rest);
                }
                page.records.push(record);
                off += len;
                k += 1;
            }
        }
        proof {
            if more {
                assert(k >= slots) by (nonlinear_arith)
                    requires
                        k * w + w > bytes@.len(),
                        slots == bytes@.len() / w,
                        w > 0,
                ;
            }
            assert(records_from::<R>(bytes@, k as nat, slots).len() == 0);
            assert(page.records@ + records_from::<R>(bytes@, k as nat, slots) =~= page.records@);
        }
        page
    }

    /// A page for block `lba` that holds nothing yet. It is dirty, so that
    /// closing it creates the block.
    pub fn empty(lba: u64, parent_lba: u64) -> (page: Self)
        ensures
            page.lba == lba,
            page.parent_lba == parent_lba,
            page.dirty,
            page.records@ == Seq::<R>::empty(),
    {
        Page { records: Vec::new(), dirty: true, lba, parent_lba }
    }

    /// The block that the page would be stored as.
    pub fn to_block(&self, block_size: usize) -> (bytes: Vec<u8>)
        requires
            self.records@.len() * R::width() <= block_size,
        ensures
            bytes@ == encode_block(self.records@, block_size as nat),
    {
        proof {
            R::lemma_width_bounds();
        }
        let ghost w = R::width() as int;
        let ghost target = encode_block(self.records@, block_size as nat);
        let size = R::get_size();
        let mut bytes: Vec<u8> = Vec::new();
        if size > block_size as u64 {
            proof {
                assert(self.records@.len() == 0) by (nonlinear_arith)
                    requires
                        self.records@.len() * w <= block_size,
                        w > block_size,
                ;
            }
            while bytes.len() < block_size
                invariant
                    w == R::width(),
                    w > block_size,
                    self.records@.len() == 0,
                    target == encode_block(self.records@, block_size as nat),
                    bytes@.len() <= block_size,
                    forall|j: int| 0 <= j < bytes@.len() ==> #[trigger] bytes@[j] == target[j],
                decreases block_size - bytes@.len(),
            {
                proof {
                    let j = bytes@.len() as int;
                    lemma_fundamental_div_mod_converse(j, w, 0, j);
                    assert((0 + 1) * w > block_size) by (nonlinear_arith)
                        requires
                            w > block_size,
                    ;
                    assert(target[j] == 0);
                }
                bytes.push(0);
            }
            proof {
                assert(bytes@ =~= target);
            }
            return bytes;
        }
        let len = size as usize;
        let mut k: usize = 0;
        while k < self.records.len()
            invariant
                0 <= k <= self.records@.len(),
                self.records@.len() * w <= block_size,
                w == R::width(),
                w > 0,
                target == encode_block(self.records@, block_size as nat),
                bytes@.len() == k * w,
                forall|j: int| 0 <= j < bytes@.len() ==> #[trigger] bytes@[j] == target[j],
            decreases self.records@.len() - k,
        {
            let mut encoded = self.records[k].to_bytes();
            proof {
                R::lemma_encoding_len(self.records@[k as int]);
                assert((k + 1) * w <= block_size) by (nonlinear_arith)
                    requires
                        k < self.records@.len(),
                        self.records@.len() * w <= block_size,
                        w > 0,
                ;
                assert((k + 1) * w == k * w + w) by (nonlinear_arith);
                lemma_encoded_slot(self.records@, block_size as nat, k as int);
                let s = slot(target, k as int, R::width());
                assert forall|j: int| k * w <= j < (k + 1) * w implies target[j] == encoded@[j
                    - k * w] by {
                    assert(s[j - k * w] == target[j]);
                }
            }
            bytes.append(&mut encoded);
            k += 1;
        }
        let filler = R::invalid().to_bytes();
        proof {
            R::lemma_encoding_len(R::sentinel());
        }
        while bytes.len() <= block_size - len
            invariant
                len <= block_size,
                self.records@.len() <= k,
                w == R::width(),
                len == w,
                w > 0,
                filler@ == R::sentinel().encoding(),
                filler@.len() == w,
                target == encode_block(self.records@, block_size as nat),
                bytes@.len() == k * w,
                bytes@.len() <= block_size,
                forall|j: int| 0 <= j < bytes@.len() ==> #[trigger] bytes@[j] == target[j],
            decreases block_size - bytes@.len(),
        {
            let mut i: usize = 0;
            let ghost start = bytes@;
            proof {
                assert((k + 1) * w == k * w + w) by (nonlinear_arith);
                lemma_encoded_slot(self.records@, block_size as nat, k as int);
                let s = slot(target, k as int, R::width());
                assert forall|j: int| k * w <= j < (k + 1) * w implies target[j] == filler@[j
                    - k * w] by {
                    assert(s[j - k * w] == target[j]);
                }
            }
            while i < len
                invariant
                    0 <= i <= len,
                    len == w,
                    filler@.len() == w,
                    bytes@.len() == start.len() + i,
                    start.len() == k * w,
                    start.len() + w <= block_size,
                    forall|j: int| 0 <= j < bytes@.len() ==> #[trigger] bytes@[j] == target[j],
                    forall|j: int|
                        k * w <= j < k * w + w ==> target[j] == #[trigger] filler@[j - k * w],
                decreases len - i,
            {
                proof {
                    let j = k * w + i;
                    assert(target[j] == filler@[j - k * w]);
                }
                bytes.push(filler[i]);
                i += 1;
            }
            proof {
                assert(k < block_size) by (nonlinear_arith)
                    requires
                        k * w + w <= block_size,
                        w > 0,
                ;
            }
            k += 1;
            proof {
                assert(k * w == (k - 1) * w + w) by (nonlinear_arith);
            }
        }
        while bytes.len() < block_size
            invariant
                w == R::width(),
                w > 0,
                target == encode_block(self.records@, block_size as nat),
                self.records@.len() <= k,
                k * w <= bytes@.len() <= block_size,
                k * w + w > block_size,
                forall|j: int| 0 <= j < bytes@.len() ==> #[trigger] bytes@[j] == target[j],
            decreases block_size - bytes@.len(),
        {
            proof {
                let j = bytes@.len() as int;
                let q = j / w;
                vstd::arithmetic::div_mod::lemma_fundamental_div_mod(j, w);
                assert(q >= k) by (nonlinear_arith)
                    requires
                        j == w * q + j % w,
                        0 <= j % w < w,
                        j >= k * w,
                        w > 0,
                ;
                assert((q + 1) * w > block_size) by (nonlinear_arith)
                    requires
                        q >= k,
                        k * w + w > block_size,
                        w > 0,
                ;
                assert(target[j] == 0);
            }
            bytes.push(0);
        }
        proof {
            assert(bytes@ =~= target);
        }
        bytes
    }

    /// Writes the page back if it was changed, and marks it clean. A page
    /// with more records than a block holds is refused and stays as it is.
    pub fn flush(&mut self, device: &mut BlockDevice) -> (r: Result<(), DeviceError>)
        requires
            old(device).wf(),
        ensures
            final(device).wf(),
            final(device).spec_block_size() == old(device).spec_block_size(),
            final(device).spec_reads() == old(device).spec_reads(),
            final(self).records == old(self).records,
            final(self).lba == old(self).lba,
            final(self).parent_lba == old(self).parent_lba,
            !old(self).dirty ==> {
                &&& r is Ok
                &&& *final(self) == *old(self)
                &&& final(device)@ == old(device)@
                &&& final(device).spec_writes() == old(device).spec_writes()
            },
            old(self).dirty && old(self).records@.len() * R::width() > old(device).spec_block_size()
                ==> {
                &&& r == Err::<(), DeviceError>(DeviceError::InvalidSize)
                &&& final(self).dirty
                &&& final(device)@ == old(device)@
                &&& final(device).spec_writes() == old(device).spec_writes()
            },
            old(self).dirty && old(self).records@.len() * R::width() <= old(device).spec_block_size()
                ==> {
                &&& final(device).spec_writes() == bumped(old(device).spec_writes())
                &&& r is Ok <==> old(device).addressable(old(self).lba)
                &&& r is Err ==> r == Err::<(), DeviceError>(DeviceError::Io) && final(self).dirty
                    && final(device)@ == old(device)@
                &&& r is Ok ==> !final(self).dirty && final(device)@ == blocks_after_write(
                    old(device)@,
                    old(self).lba as int,
                    encode_block(old(self).records@, old(device).spec_block_size() as nat),
                )
            },
    {
        if !self.dirty {
            return Ok(());
        }
        proof {
            R::lemma_width_bounds();
            device.lemma_wf();
        }
        let block_size = device.block_size();
        let len = R::get_size();
        if self.records.len() as u64 > block_size / len {
            proof {
                assert(self.records@.len() * R::width() > block_size) by (nonlinear_arith)
                    requires
                        self.records@.len() > block_size / len,
                        len == R::width(),
                        len > 0,
                ;
            }
            return Err(DeviceError::InvalidSize);
        }
        proof {
            assert(self.records@.len() * R::width() <= block_size) by (nonlinear_arith)
                requires
                    self.records@.len() <= block_size / len,
                    len == R::width(),
                    len > 0,
            ;
        }
        let bytes = self.to_block(block_size as usize);
        match device.write(self.lba, &bytes) {
            Ok(_) => {
                self.dirty = false;
                Ok(())
            },
            Err(e) => Err(DeviceError::Io),
        }
    }
}

} // verus!
