//! The block device: an array of blocks of one size, addressed by block
//! number, that counts how often it is read and written.

use vstd::prelude::*;

verus! {

/// Why a device operation failed.
#[derive(Copy, Clone, PartialEq, Eq, Debug)]
pub enum DeviceError {
    /// The block does not exist, or lies beyond what the device can address.
    Io,
    /// A buffer, or the block size itself, has a size the device cannot take.
    InvalidSize,
}

/// A counter after one more event. It stops at the largest number it can hold.
pub open spec fn bumped(count: u64) -> u64 {
    if count < u64::MAX {
        (count + 1) as u64
    } else {
        count
    }
}

/// `len` zeros.
pub open spec fn zeros(len: nat) -> Seq<u8> {
    Seq::new(len, |j: int| 0u8)
}

/// `blocks` after block `lba` was written: grown with blocks of zeros up to
/// `lba` where it was shorter.
pub open spec fn blocks_after_write(blocks: Seq<Seq<u8>>, lba: int, block: Seq<u8>) -> Seq<
    Seq<u8>,
> {
    Seq::new(
        if lba < blocks.len() {
            blocks.len()
        } else {
            (lba + 1) as nat
        },
        |i: int|
            if i == lba {
                block
            } else if i < blocks.len() {
                blocks[i]
            } else {
                zeros(block.len())
            },
    )
}

/// Whether a device of blocks of `block_size` bytes can hold block `lba`:
/// the block number indexes memory, and the size of the device up to that
/// block can be told in 64 bits.
pub open spec fn can_address(block_size: u64, lba: u64) -> bool {
    &&& lba < usize::MAX
    &&& (lba + 1) * block_size <= u64::MAX
}

/// A device that can hold a block can hold every block before it.
pub proof fn lemma_can_address_below(block_size: u64, lba: u64, below: u64)
    requires
        can_address(block_size, lba),
        below <= lba,
    ensures
        can_address(block_size, below),
{
    assert((below + 1) * block_size <= (lba + 1) * block_size) by (nonlinear_arith)
        requires
            below <= lba,
    ;
}

/// Whether a device of blocks of `block_size` bytes can hold block `lba`.
pub fn address_fits(block_size: u64, lba: u64) -> (b: bool)
    requires
        block_size > 0,
    ensures
        b == can_address(block_size, lba),
{
    proof {
        if lba < u64::MAX / block_size {
            assert((lba + 1) * block_size <= u64::MAX) by (nonlinear_arith)
                requires
                    lba < u64::MAX / block_size,
                    block_size > 0,
            ;
        } else {
            assert((lba + 1) * block_size > u64::MAX) by (nonlinear_arith)
                requires
                    lba >= u64::MAX / block_size,
                    block_size > 0,
            ;
        }
    }
    lba < usize::MAX as u64 && lba < u64::MAX / block_size
}

/// A device of blocks of one size, held in memory. It counts the reads
/// and the writes that are asked of it.
pub struct BlockDevice {
    blocks: Vec<Vec<u8>>,
    block_size: u64,
    reads: u64,
    writes: u64,
}

impl View for BlockDevice {
    type V = Seq<Seq<u8>>;

    /// The blocks of the device, in order.
    closed spec fn view(&self) -> Seq<Seq<u8>> {
        Seq::new(self.blocks@.len(), |i: int| self.blocks@[i]@)
    }
}

impl BlockDevice {
    pub closed spec fn spec_block_size(&self) -> u64 {
        self.block_size
    }

    pub closed spec fn spec_reads(&self) -> u64 {
        self.reads
    }

    pub closed spec fn spec_writes(&self) -> u64 {
        self.writes
    }

    /// Every block has the device's block size, and the device's size in
    /// bytes can be told in 64 bits.
    pub closed spec fn wf(&self) -> bool {
        &&& 0 < self.block_size <= usize::MAX
        &&& self.blocks@.len() <= usize::MAX
        &&& self.blocks@.len() * self.block_size <= u64::MAX
        &&& forall|i: int|
            0 <= i < self.blocks@.len() ==> (#[trigger] self.blocks@[i])@.len() == self.block_size
    }

    /// What `wf` says of the view.
    pub proof fn lemma_wf(&self)
        requires
            self.wf(),
        ensures
            0 < self.spec_block_size() <= usize::MAX,
            self@.len() * self.spec_block_size() <= u64::MAX,
            self@.len() <= usize::MAX,
            forall|i: int| 0 <= i < self@.len() ==> (#[trigger] self@[i]).len() == self.spec_block_size(),
    {
        assert(self@.len() <= self@.len() * self.block_size) by (nonlinear_arith)
            requires
                self.block_size >= 1,
        ;
    }

    /// An empty device of blocks of `block_size` bytes.
    pub fn new(block_size: u64) -> (r: Result<BlockDevice, DeviceError>)
        ensures
            r is Ok <==> 0 < block_size <= usize::MAX,
            r is Err ==> r == Err::<BlockDevice, DeviceError>(DeviceError::InvalidSize),
            r is Ok ==> {
                let device = r->Ok_0;
                &&& device.wf()
                &&& device@.len() == 0
                &&& device.spec_block_size() == block_size
                &&& device.spec_reads() == 0
                &&& device.spec_writes() == 0
            },
    {
        if block_size == 0 || block_size > usize::MAX as u64 {
            return Err(DeviceError::InvalidSize);
        }
        Ok(BlockDevice { blocks: Vec::new(), block_size, reads: 0, writes: 0 })
    }

    #[verifier::when_used_as_spec(spec_block_size)]
    pub fn block_size(&self) -> (n: u64)
        ensures
            n == self.spec_block_size(),
    {
        self.block_size
    }

    /// How many reads were counted.
    #[verifier::when_used_as_spec(spec_reads)]
    pub fn reads(&self) -> (n: u64)
        ensures
            n == self.spec_reads(),
    {
        self.reads
    }

    /// How many writes were counted.
    #[verifier::when_used_as_spec(spec_writes)]
    pub fn writes(&self) -> (n: u64)
        ensures
            n == self.spec_writes(),
    {
        self.writes
    }

    /// How many blocks the device holds.
    pub fn block_count(&self) -> (n: u64)
        requires
            self.wf(),
        ensures
            n == self@.len(),
    {
        proof {
            self.lemma_wf();
        }
        self.blocks.len() as u64
    }

    /// The size of the device in bytes.
    pub fn size(&self) -> (n: u64)
        requires
            self.wf(),
        ensures
            n == self@.len() * self.spec_block_size(),
    {
        proof {
            self.lemma_wf();
        }
        self.blocks.len() as u64 * self.block_size
    }

    /// Block `lba`, without counting the read.
    pub fn read_internal(&self, lba: u64) -> (r: Result<Vec<u8>, DeviceError>)
        requires
            self.wf(),
        ensures
            r is Ok <==> lba < self@.len(),
            r is Ok ==> r->Ok_0@ == self@[lba as int],
            r is Err ==> r == Err::<Vec<u8>, DeviceError>(DeviceError::Io),
    {
        if lba >= self.blocks.len() as u64 {
            return Err(DeviceError::Io);
        }
        let block = &self.blocks[lba as usize];
        let mut buf: Vec<u8> = Vec::new();
        let mut i: usize = 0;
        while i < block.len()
            invariant
                0 <= i <= block@.len(),
                buf@ == block@.take(i as int),
            decreases block@.len() - i,
        {
            buf.push(block[i]);
            proof {
                assert(block@.take(i + 1) =~= block@.take(i as int).push(block@[i as int]));
            }
            i += 1;
        }
        proof {
            assert(block@.take(block@.len() as int) =~= block@);
        }
        Ok(buf)
    }

    /// Block `lba`. The read is counted whether or not the block exists.
    pub fn read(&mut self, lba: u64) -> (r: Result<Vec<u8>, DeviceError>)
        requires
            old(self).wf(),
        ensures
            final(self).wf(),
            final(self)@ == old(self)@,
            final(self).spec_block_size() == old(self).spec_block_size(),
            final(self).spec_writes() == old(self).spec_writes(),
            final(self).spec_reads() == bumped(old(self).spec_reads()),
            r is Ok <==> lba < old(self)@.len(),
            r is Ok ==> r->Ok_0@ == old(self)@[lba as int],
            r is Err ==> r == Err::<Vec<u8>, DeviceError>(DeviceError::Io),
    {
        if self.reads < u64::MAX {
            self.reads += 1;
        }
        self.read_internal(lba)
    }

    /// Whether block `lba` can exist on this device: its number indexes
    /// memory and the device's size stays within 64 bits.
    pub open spec fn addressable(&self, lba: u64) -> bool {
        can_address(self.spec_block_size(), lba)
    }

    /// Stores `buf` as block `lba`, without counting the write. A device
    /// that is too short grows, with blocks of zeros below `lba`.
    pub fn write_internal(&mut self, lba: u64, buf: &Vec<u8>) -> (r: Result<usize, DeviceError>)
        requires
            old(self).wf(),
        ensures
            final(self).wf(),
            final(self).spec_block_size() == old(self).spec_block_size(),
            final(self).spec_reads() == old(self).spec_reads(),
            final(self).spec_writes() == old(self).spec_writes(),
            buf@.len() != old(self).spec_block_size() ==> r == Err::<usize, DeviceError>(
                DeviceError::InvalidSize,
            ),
            buf@.len() == old(self).spec_block_size() && !old(self).addressable(lba) ==> r == Err::<
                usize,
                DeviceError,
            >(DeviceError::Io),
            buf@.len() == old(self).spec_block_size() && old(self).addressable(lba) ==> r == Ok::<
                usize,
                DeviceError,
            >(buf@.len() as usize),
            r is Err ==> final(self)@ == old(self)@,
            r is Ok ==> final(self)@ == blocks_after_write(old(self)@, lba as int, buf@),
    {
        if buf.len() as u64 != self.block_size {
            return Err(DeviceError::InvalidSize);
        }
        if lba >= usize::MAX as u64 || lba >= u64::MAX / self.block_size {
            proof {
                if lba < usize::MAX {
                    assert((lba + 1) * self.block_size > u64::MAX) by (nonlinear_arith)
                        requires
                            lba >= u64::MAX / self.block_size,
                            self.block_size > 0,
                    ;
                }
            }
            return Err(DeviceError::Io);
        }
        proof {
            assert((lba + 1) * self.block_size <= u64::MAX) by (nonlinear_arith)
                requires
                    lba < u64::MAX / self.block_size,
                    self.block_size > 0,
            ;
        }
        let ghost before = self@;
        let index = lba as usize;
        while self.blocks.len() <= index
            invariant
                self.wf(),
                self.block_size == old(self).block_size,
                self.reads == old(self).reads,
                self.writes == old(self).writes,
                index == lba,
                lba < usize::MAX,
                (lba + 1) * self.block_size <= u64::MAX,
                before.len() <= self@.len(),
                self@.len() <= index + 1 || self@.len() == before.len(),
                forall|i: int| 0 <= i < before.len() ==> self@[i] == before[i],
                forall|i: int|
                    before.len() <= i < self@.len() ==> #[trigger] self@[i] == zeros(
                        self.block_size as nat,
                    ),
            decreases index + 1 - self.blocks@.len(),
        {
            let filler = zero_block(self.block_size as usize);
            proof {
                assert((self.blocks@.len() + 1) * self.block_size <= (lba + 1) * self.block_size)
                    by (nonlinear_arith)
                    requires
                        self.blocks@.len() <= lba,
                        self.block_size > 0,
                ;
            }
            let ghost prev = self@;
            self.blocks.push(filler);
            proof {
                assert(self@.len() == prev.len() + 1);
                assert forall|i: int| 0 <= i < prev.len() implies self@[i] == prev[i] by {
                    assert(self@[i] == self.blocks@[i]@);
                }
                assert(self@[prev.len() as int] == zeros(self.block_size as nat));
                assert forall|i: int| before.len() <= i < self@.len() implies #[trigger] self@[i]
                    == zeros(self.block_size as nat) by {
                    if i < prev.len() {
                        assert(self@[i] == prev[i]);
                    }
                }
            }
        }
        let mut block: Vec<u8> = Vec::new();
        let mut i: usize = 0;
        while i < buf.len()
            invariant
                0 <= i <= buf@.len(),
                block@ == buf@.take(i as int),
            decreases buf@.len() - i,
        {
            block.push(buf[i]);
            proof {
                assert(buf@.take(i + 1) =~= buf@.take(i as int).push(buf@[i as int]));
            }
            i += 1;
        }
        proof {
            assert(buf@.take(buf@.len() as int) =~= buf@);
        }
        let ghost grown = self@;
        self.blocks.set(index, block);
        proof {
            let after = blocks_after_write(before, lba as int, buf@);
            assert(self@.len() == after.len());
            assert forall|i: int| 0 <= i < after.len() implies self@[i] == after[i] by {
                if i != lba {
                    assert(self@[i] == grown[i]);
                }
            }
            assert(self@ =~= after);
        }
        Ok(buf.len())
    }

    /// Stores `buf` as block `lba`. The write is counted whether or not it
    /// succeeds.
    pub fn write(&mut self, lba: u64, buf: &Vec<u8>) -> (r: Result<usize, DeviceError>)
        requires
            old(self).wf(),
        ensures
            final(self).wf(),
            final(self).spec_block_size() == old(self).spec_block_size(),
            final(self).spec_reads() == old(self).spec_reads(),
            final(self).spec_writes() == bumped(old(self).spec_writes()),
            buf@.len() != old(self).spec_block_size() ==> r == Err::<usize, DeviceError>(
                DeviceError::InvalidSize,
            ),
            buf@.len() == old(self).spec_block_size() && !old(self).addressable(lba) ==> r == Err::<
                usize,
                DeviceError,
            >(DeviceError::Io),
            buf@.len() == old(self).spec_block_size() && old(self).addressable(lba) ==> r == Ok::<
                usize,
                DeviceError,
            >(buf@.len() as usize),
            r is Err ==> final(self)@ == old(self)@,
            r is Ok ==> final(self)@ == blocks_after_write(old(self)@, lba as int, buf@),
    {
        if self.writes < u64::MAX {
            self.writes += 1;
        }
        self.write_internal(lba, buf)
    }
}

/// A block of `len` zeros.
pub fn zero_block(len: usize) -> (block: Vec<u8>)
    ensures
        block@ == zeros(len as nat),
{
    let mut block: Vec<u8> = Vec::new();
    let mut i: usize = 0;
    while i < len
        invariant
            0 <= i <= len,
            block@ == zeros(i as nat),
        decreases len - i,
    {
        block.push(0);
        proof {
            assert(block@ =~= zeros((i + 1) as nat));
        }
        i += 1;
    }
    block
}

} // verus!
