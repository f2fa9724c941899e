//! The disk manager: block-addressed access to the image of the backing
//! file, and the allocation of block numbers.
//!
//! Block `n` occupies bytes `n * BLOCK_SIZE` to `(n + 1) * BLOCK_SIZE` of the
//! image. Freed block numbers wait in a first-in first-out list and are handed
//! out again before the image is made longer. The disk manager counts the
//! block reads that it is asked for.
use vstd::prelude::*;
use vstd::slice::*;
use std::collections::VecDeque;
use crate::block::{lemma_slot_round_trip, padded, parse_slot, Block, BlockView, BLOCK_SIZE};
use crate::error::StorageError;

verus! {

/// The longest image, in bytes, that the disk manager will produce.
pub open spec fn max_image_len() -> nat {
    isize::MAX as nat
}

/// The number of whole blocks in an image.
pub open spec fn block_count(image: Seq<u8>) -> nat {
    image.len() / (BLOCK_SIZE as nat)
}

/// The bytes of slot `n` of an image.
pub open spec fn slot_at(image: Seq<u8>, n: int) -> Seq<u8> {
    image.subrange(n * BLOCK_SIZE, (n + 1) * BLOCK_SIZE)
}

/// The block held in slot `n` of an image, if the slot lies within the image
/// and holds a block.
pub open spec fn block_at(image: Seq<u8>, n: u64) -> Option<BlockView> {
    if n < block_count(image) {
        parse_slot(slot_at(image, n as int))
    } else {
        None
    }
}

/// The image after `slot` is written at block number `n`: an image that ends
/// before the slot is first filled up with zero bytes.
pub open spec fn with_slot(image: Seq<u8>, n: int, slot: Seq<u8>) -> Seq<u8> {
    let base = if image.len() < (n + 1) * BLOCK_SIZE {
        padded(image, ((n + 1) * BLOCK_SIZE) as nat)
    } else {
        image
    };
    base.subrange(0, n * BLOCK_SIZE) + slot + base.subrange((n + 1) * BLOCK_SIZE, base.len() as int)
}

/// The image made one block longer than its last whole block, filled with
/// zero bytes.
pub open spec fn grown(image: Seq<u8>) -> Seq<u8> {
    padded(image, ((block_count(image) + 1) * BLOCK_SIZE) as nat)
}

/// The length of an image that had `len` bytes once it holds `blocks` whole
/// blocks: as many whole blocks exactly if it had to grow, and the length it
/// had if not.
pub open spec fn length_for(len: nat, blocks: nat) -> nat {
    if blocks > len / (BLOCK_SIZE as nat) {
        (blocks * BLOCK_SIZE) as nat
    } else {
        len
    }
}

/// Writing slot `n` puts the written bytes there, keeps every other slot that
/// the image had, and does not make the image shorter.
pub proof fn lemma_with_slot(image: Seq<u8>, n: int, slot: Seq<u8>)
    requires
        0 <= n,
        slot.len() == BLOCK_SIZE,
    ensures
        n < block_count(with_slot(image, n, slot)),
        block_count(with_slot(image, n, slot)) >= block_count(image),
        with_slot(image, n, slot).len() >= image.len(),
        slot_at(with_slot(image, n, slot), n) == slot,
        forall|m: int|
            0 <= m < block_count(image) && m != n ==> #[trigger] slot_at(
                with_slot(image, n, slot),
                m,
            ) == slot_at(image, m),
{
    let after = with_slot(image, n, slot);
    assert(slot_at(after, n) =~= slot);
    assert forall|m: int| 0 <= m < block_count(image) && m != n implies #[trigger] slot_at(
        after,
        m,
    ) == slot_at(image, m) by {
        assert(slot_at(after, m) =~= slot_at(image, m));
    }
}

/// Growing an image adds one block and keeps every slot that it had.
pub proof fn lemma_grown(image: Seq<u8>)
    ensures
        block_count(grown(image)) == block_count(image) + 1,
        grown(image).len() == (block_count(image) + 1) * BLOCK_SIZE,
        forall|m: int|
            0 <= m < block_count(image) ==> #[trigger] slot_at(grown(image), m) == slot_at(
                image,
                m,
            ),
{
    assert forall|m: int| 0 <= m < block_count(image) implies #[trigger] slot_at(grown(image), m)
        == slot_at(image, m) by {
        assert(slot_at(grown(image), m) =~= slot_at(image, m));
    }
}

/// A written block is read back from its slot with its payload padded to the
/// whole payload region, and every other block of the image reads as before.
pub proof fn lemma_block_written(image: Seq<u8>, n: u64, b: BlockView)
    requires
        b.fits(),
    ensures
        block_at(with_slot(image, n as int, b.slot()), n) == Some(b.stored()),
        block_count(with_slot(image, n as int, b.slot())) >= block_count(image),
        n < block_count(image) ==> block_count(with_slot(image, n as int, b.slot()))
            == block_count(image),
        n < block_count(image) ==> with_slot(image, n as int, b.slot()).len() == image.len(),
        forall|m: u64|
            m < block_count(image) && m != n ==> #[trigger] block_at(
                with_slot(image, n as int, b.slot()),
                m,
            ) == block_at(image, m),
{
    lemma_slot_round_trip(b);
    lemma_with_slot(image, n as int, b.slot());
    let after = with_slot(image, n as int, b.slot());
    assert forall|m: u64| m < block_count(image) && m != n implies #[trigger] block_at(after, m)
        == block_at(image, m) by {
        assert(slot_at(after, m as int) == slot_at(image, m as int));
    }
}

/// Every block of an image reads as before after the image has grown.
pub proof fn lemma_block_grown(image: Seq<u8>)
    ensures
        block_count(grown(image)) == block_count(image) + 1,
        forall|m: u64|
            m < block_count(image) ==> #[trigger] block_at(grown(image), m) == block_at(image, m),
{
    lemma_grown(image);
    assert forall|m: u64| m < block_count(image) implies #[trigger] block_at(grown(image), m)
        == block_at(image, m) by {
        assert(slot_at(grown(image), m as int) == slot_at(image, m as int));
    }
}

/// A count of reads after `n` more reads; it stops at the largest `u64`.
pub open spec fn bumped(reads: u64, n: nat) -> u64 {
    if reads + n <= u64::MAX {
        (reads + n) as u64
    } else {
        u64::MAX
    }
}

/// The image of the backing file together with the list of freed blocks and
/// the count of block reads.
pub struct DiskManager {
    image: Vec<u8>,
    free_blocks: VecDeque<u64>,
    reads: u64,
}

impl DiskManager {
    /// The bytes of the image.
    pub closed spec fn image(&self) -> Seq<u8> {
        self.image@
    }

    /// The freed block numbers, oldest first.
    pub closed spec fn free(&self) -> Seq<u64> {
        self.free_blocks@
    }

    /// The number of block reads so far.
    pub closed spec fn reads(&self) -> u64 {
        self.reads
    }

    /// Takes over the image of a backing file. No block is known to be free
    /// and no block has been read.
    pub fn new(image: Vec<u8>) -> (disk: DiskManager)
        ensures
            disk.image() == image@,
            disk.free() == Seq::<u64>::empty(),
            disk.reads() == 0,
    {
        DiskManager { image, free_blocks: VecDeque::new(), reads: 0 }
    }

    /// The number of block reads so far.
    pub fn read_count(&self) -> (r: u64)
        ensures
            r == self.reads(),
    {
        self.reads
    }

    /// The bytes of the image, for the caller to persist.
    pub fn bytes(&self) -> (r: &[u8])
        ensures
            r@ == self.image(),
    {
        self.image.as_slice()
    }

    /// Hands out a block number: the oldest freed one if there is any,
    /// otherwise the number of a new block by which the image is made longer.
    /// Fails with `ResizeFailed` exactly when the image would have to grow
    /// beyond `max_image_len()`, and then changes nothing.
    pub fn allocate_block(&mut self) -> (r: Result<u64, StorageError>)
        ensures
            final(self).reads() == old(self).reads(),
            match r {
                Ok(n) => if old(self).free().len() > 0 {
                    &&& n == old(self).free()[0]
                    &&& final(self).free() == old(self).free().drop_first()
                    &&& final(self).image() == old(self).image()
                } else {
                    &&& n == block_count(old(self).image())
                    &&& (n + 1) * BLOCK_SIZE <= max_image_len()
                    &&& final(self).free() == old(self).free()
                    &&& final(self).image() == grown(old(self).image())
                },
                Err(e) => {
                    &&& e == StorageError::ResizeFailed
                    &&& old(self).free().len() == 0
                    &&& (block_count(old(self).image()) + 1) * BLOCK_SIZE > max_image_len()
                    &&& final(self).free() == old(self).free()
                    &&& final(self).image() == old(self).image()
                },
            },
    {
        if let Some(block_num) = self.free_blocks.pop_front() {
            assert(self.free_blocks@ =~= old(self).free_blocks@.drop_first());
            Ok(block_num)
        } else {
            let count = self.image.len() / BLOCK_SIZE;
            if count >= (isize::MAX as usize) / BLOCK_SIZE {
                return Err(StorageError::ResizeFailed);
            }
            let ghost before = self.image@;
            self.image.resize((count + 1) * BLOCK_SIZE, 0u8);
            assert(self.image@ =~= grown(before)) by {
                assert(self.image@.subrange(0, before.len() as int) == before);
                assert forall|i: int| 0 <= i < before.len() implies self.image@[i] == before[i] by {
                    assert(self.image@.subrange(0, before.len() as int)[i] == before[i]);
                }
            }
            Ok(count as u64)
        }
    }

    /// Reads the block in slot `block_num`, and counts the read. Fails with
    /// `UnexpectedEof` when the slot does not lie within the image, and with
    /// `Corrupt` when it holds no block.
    pub fn read_block(&mut self, block_num: u64) -> (r: Result<Block, StorageError>)
        ensures
            final(self).image() == old(self).image(),
            final(self).free() == old(self).free(),
            final(self).reads() == bumped(old(self).reads(), 1),
            match r {
                Ok(b) => block_at(old(self).image(), block_num) == Some(b@),
                Err(e) => if block_num >= block_count(old(self).image()) {
                    e == StorageError::UnexpectedEof
                } else {
                    e == StorageError::Corrupt && block_at(old(self).image(), block_num) is None
                },
            },
    {
        if self.reads < u64::MAX {
            self.reads = self.reads + 1;
        }
        let count = self.image.len() / BLOCK_SIZE;
        if block_num >= count as u64 {
            return Err(StorageError::UnexpectedEof);
        }
        let start = (block_num as usize) * BLOCK_SIZE;
        let buffer = slice_subrange(self.image.as_slice(), start, start + BLOCK_SIZE);
        assert(buffer@.take(BLOCK_SIZE as int) =~= slot_at(self.image@, block_num as int));
        Block::decode(buffer)
    }

    /// Writes `block` into slot `block_num`, making the image longer if the
    /// slot lies beyond its end. Fails with `InvalidData` when the block does
    /// not fit in a slot, and with `ResizeFailed` when the image would have to
    /// grow beyond `max_image_len()`; either way nothing changes.
    pub fn write_block(&mut self, block_num: u64, block: &Block) -> (r: Result<(), StorageError>)
        ensures
            final(self).free() == old(self).free(),
            final(self).reads() == old(self).reads(),
            match r {
                Ok(_) => {
                    &&& block@.fits()
                    &&& final(self).image() == with_slot(
                        old(self).image(),
                        block_num as int,
                        block@.slot(),
                    )
                },
                Err(e) => {
                    &&& final(self).image() == old(self).image()
                    &&& if !block@.fits() {
                        e == StorageError::InvalidData
                    } else {
                        &&& e == StorageError::ResizeFailed
                        &&& block_num >= block_count(old(self).image())
                        &&& (block_num + 1) * BLOCK_SIZE > max_image_len()
                    }
                },
            },
    {
        let buffer = match block.encode() {
            Ok(buffer) => buffer,
            Err(e) => {
                return Err(e);
            },
        };
        proof {
            lemma_slot_round_trip(block@);
        }
        let ghost before = self.image@;
        if block_num >= (self.image.len() / BLOCK_SIZE) as u64 {
            if block_num >= ((isize::MAX as usize) / BLOCK_SIZE) as u64 {
                return Err(StorageError::ResizeFailed);
            }
            let end = (block_num as usize + 1) * BLOCK_SIZE;
            self.image.resize(end, 0u8);
            assert(self.image@ =~= padded(before, end as nat)) by {
                assert forall|i: int| 0 <= i < before.len() implies self.image@[i] == before[i] by {
                    assert(self.image@.subrange(0, before.len() as int)[i] == before[i]);
                }
            }
        }
        let start = (block_num as usize) * BLOCK_SIZE;
        let ghost base = self.image@;
        let mut i: usize = 0;
        while i < BLOCK_SIZE
            invariant
                i <= BLOCK_SIZE,
                buffer@.len() == BLOCK_SIZE,
                start + BLOCK_SIZE <= usize::MAX,
                base.len() >= start + BLOCK_SIZE,
                self.image@.len() == base.len(),
                self.free_blocks == old(self).free_blocks,
                self.reads == old(self).reads,
                forall|j: int| 0 <= j < start ==> self.image@[j] == base[j],
                forall|j: int| start <= j < start + i ==> self.image@[j] == buffer@[j - start],
                forall|j: int| start + i <= j < base.len() ==> self.image@[j] == base[j],
            decreases BLOCK_SIZE - i,
        {
            self.image[start + i] = buffer[i];
            i += 1;
        }
        assert(self.image@ =~= with_slot(before, block_num as int, block@.slot()));
        Ok(())
    }

    /// Puts `block_num` at the end of the list of freed blocks. The slot's
    /// bytes stay as they are.
    pub fn free_block(&mut self, block_num: u64) -> (r: Result<(), StorageError>)
        ensures
            r is Ok,
            final(self).free() == old(self).free().push(block_num),
            final(self).image() == old(self).image(),
            final(self).reads() == old(self).reads(),
    {
        self.free_blocks.push_back(block_num);
        Ok(())
    }
}

} // verus!
