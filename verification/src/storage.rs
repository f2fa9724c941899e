//! The storage engine: documents stored under string identifiers, on top of
//! the disk manager and the block cache.
use vstd::prelude::*;
use vstd::hash_map::StringHashMap;
use vstd::slice::{slice_subrange, slice_to_vec};
use vstd::utf8::encode_utf8;
use crate::block::{
    lemma_slot_round_trip, padded, Block, BlockMetadata, BlockView, MAX_ID_BYTES,
    PAYLOAD_CAPACITY,
};
use crate::cache::{Cache, CacheView};
use crate::disk::{
    block_at, block_count, bumped, grown, lemma_block_grown, lemma_block_written, lemma_grown,
    lemma_with_slot, length_for, slot_at, with_slot, DiskManager,
};
use crate::error::StorageError;
use crate::chain::{
    blocks_needed, chain_block, chain_payload, chunk, holds_prefix, is_chain, lemma_blocks_needed,
    lemma_chain_holds, lemma_holds_at, lemma_holds_extend, lemma_holds_nothing,
    lemma_stored_extend, lemma_stored_frame, lemma_stored_nothing, stored_prefix,
    lemma_untouched_more, lemma_untouched_wider, linked, payload_at, pieces_end, untouched_but,
};
use crate::layout::{
    all_reserved, installed, lemma_grow, lemma_install, lemma_reserve, lemma_reserved_more,
    lemma_store, lemma_take_free, lemma_unchained, lemma_uninstall, owners_after_install,
    uninstalled, Layout,
};
use crate::traffic::{
    agrees, coherent, forgotten, lemma_coherent_filled, lemma_coherent_frame,
    lemma_coherent_shrunk, lemma_coherent_stored, lemma_write_cached_prefix, piece_block,
    read_misses, read_through, write_cached,
};
use crate::model::{
    lemma_view_wf, lemma_write_continues, lemma_write_done, lemma_write_stops, view_of,
    write_progress, EngineView,
};

verus! {

/// The storage engine.
pub struct StorageEngine {
    disk: DiskManager,
    cache: Cache,
    index: StringHashMap<u64>,
    chains: Ghost<Map<Seq<char>, Seq<u64>>>,
    owner: Ghost<Map<u64, Option<Seq<char>>>>,
}

impl View for StorageEngine {
    type V = EngineView;

    closed spec fn view(&self) -> EngineView {
        view_of(self.layout())
    }
}

impl StorageEngine {
    /// What the engine knows about its image.
    closed spec fn layout(&self) -> Layout {
        Layout {
            image: self.disk.image(),
            free: self.disk.free(),
            index: self.index@,
            chains: self.chains@,
            owner: self.owner@,
        }
    }

    /// The bytes of the image.
    pub closed spec fn image(&self) -> Seq<u8> {
        self.disk.image()
    }

    /// The block cache.
    pub closed spec fn cached(&self) -> CacheView {
        self.cache@
    }

    /// The number of blocks read from the image so far.
    pub closed spec fn reads(&self) -> u64 {
        self.disk.reads()
    }

    /// The invariant of the engine: the layout is well formed, and the cache
    /// is well formed and agrees with the image.
    #[verifier::opaque]
    pub closed spec fn wf(&self) -> bool {
        &&& self.layout().wf()
        &&& self.cache.wf()
        &&& coherent(self.disk.image(), self.cache@)
    }

    /// What callers can tell of a well-formed engine is well formed.
    pub proof fn lemma_wf(&self)
        requires
            self.wf(),
        ensures
            self@.wf(),
            self@.blocks == block_count(self.image()),
            self.cached().wf(),
            coherent(self.image(), self.cached()),
    {
        reveal(StorageEngine::wf);
        lemma_view_wf(self.layout());
    }

    /// The chain of each document is a chain on the image, and the bytes of
    /// the document are the bytes that the chain holds.
    pub proof fn lemma_chain_on_image(&self, id: Seq<char>)
        requires
            self.wf(),
            self@.chains.contains_key(id),
        ensures
            is_chain(self.image(), self@.chains[id]),
            chain_payload(self.image(), self@.chains[id]) == self@.contents[id],
    {
        reveal(StorageEngine::wf);
    }

    /// An engine over the image of a backing file. It knows of no document
    /// and of no free block, whatever the image holds.
    pub fn new(image: Vec<u8>) -> (engine: StorageEngine)
        ensures
            engine.wf(),
            engine.image() == image@,
            engine@ == EngineView::fresh(block_count(image@)),
            engine.cached() == CacheView::empty(),
            engine.reads() == 0,
    {
        let engine = StorageEngine {
            disk: DiskManager::new(image),
            cache: Cache::new(),
            index: StringHashMap::new(),
            chains: Ghost(Map::empty()),
            owner: Ghost(Map::empty()),
        };
        proof {
            reveal(StorageEngine::wf);
            assert(engine@ =~= EngineView::fresh(block_count(image@)));
        }
        engine
    }

    /// The bytes of the image, for the caller to persist.
    pub fn bytes(&self) -> (r: &[u8])
        ensures
            r@ == self.image(),
    {
        self.disk.bytes()
    }

    /// The number of blocks read from the image so far.
    pub fn disk_reads(&self) -> (r: u64)
        ensures
            r == self.reads(),
    {
        self.disk.read_count()
    }

    /// Reads the document stored under `id`: its bytes, or `None` where no
    /// document is stored under `id`. The blocks of its chain are taken from
    /// the cache where it has them and from the image where it has not, and
    /// are then cached. No document changes.
    pub fn read(&mut self, id: &str) -> (r: Result<Option<Vec<u8>>, StorageError>)
        requires
            old(self).wf(),
        ensures
            final(self).wf(),
            final(self)@ == old(self)@,
            final(self).image() == old(self).image(),
            final(self).cached() == if old(self)@.chains.contains_key(id@) {
                read_through(old(self).cached(), old(self).image(), old(self)@.chains[id@])
            } else {
                old(self).cached()
            },
            final(self).reads() == if old(self)@.chains.contains_key(id@) {
                bumped(
                    old(self).reads(),
                    read_misses(old(self).cached(), old(self).image(), old(self)@.chains[id@]),
                )
            } else {
                old(self).reads()
            },
            match r {
                Ok(Some(bytes)) => old(self)@.lookup(id@) == Some(bytes@),
                Ok(None) => old(self)@.lookup(id@) is None,
                Err(_) => false,
            },
    {
        proof {
            reveal(StorageEngine::wf);
        }
        let first_block = match self.index.get(id) {
            Some(first) => *first,
            None => {
                return Ok(None);
            },
        };
        let ghost layout = self.layout();
        let ghost image = layout.image;
        let ghost chain = layout.chains[id@];
        assert(layout.index.contains_key(id@));
        assert(layout.chains.contains_key(id@));
        assert(is_chain(image, chain));
        let ghost cache = self.cache@;
        let ghost reads = self.disk.reads();
        let mut data: Vec<u8> = Vec::new();
        let mut current = first_block;
        let ghost mut i: int = 0;
        assert(chain.take(0) =~= Seq::<u64>::empty());
        loop
            invariant_except_break
                0 <= i < chain.len(),
                current == chain[i],
                data@ == chain_payload(image, chain.take(i)),
                self.cache@ == read_through(cache, image, chain.take(i)),
                self.disk.reads() == bumped(reads, read_misses(cache, image, chain.take(i))),
            invariant
                self.disk.image() == image,
                self.disk.free() == layout.free,
                self.index@ == layout.index,
                self.chains@ == layout.chains,
                self.owner@ == layout.owner,
                layout.wf(),
                image == layout.image,
                is_chain(image, chain),
                self.cache.wf(),
                coherent(image, self.cache@),
            ensures
                self.layout() == layout,
                self.cache.wf(),
                coherent(image, self.cache@),
                data@ == chain_payload(image, chain),
                self.cache@ == read_through(cache, image, chain),
                self.disk.reads() == bumped(reads, read_misses(cache, image, chain)),
            decreases chain.len() - i,
        {
            assert(linked(image, chain, i));
            let ghost stored = block_at(image, current)->Some_0;
            proof {
                lemma_coherent_shrunk(image, self.cache@, current);
                let head = chain.take(i + 1);
                assert(head.drop_last() =~= chain.take(i));
                assert(head.last() == chain[i]);
            }
            let block = match self.cache.get(current) {
                Some(cached) => cached,
                None => {
                    let disk_block = match self.disk.read_block(current) {
                        Ok(block) => block,
                        Err(e) => {
                            return Err(e);
                        },
                    };
                    proof {
                        lemma_coherent_filled(image, self.cache@, current, disk_block@);
                    }
                    self.cache.insert(current, disk_block.clone());
                    disk_block
                },
            };
            assert(agrees(stored, block@));
            let meaningful = slice_subrange(block.data.as_slice(), 0, block.metadata.size);
            let ghost before = data@;
            data.extend_from_slice(meaningful);
            proof {
                assert(data@ =~= before + block@.payload());
                let head = chain.take(i + 1);
                assert(head.drop_last() =~= chain.take(i));
                assert(head.last() == chain[i]);
                assert(payload_at(image, chain[i]) == stored.payload());
            }
            match block.metadata.next_block {
                Some(next) => {
                    current = next;
                    proof {
                        i = i + 1;
                    }
                },
                None => {
                    assert(chain.take(i + 1) =~= chain);
                    break ;
                },
            }
        }
        Ok(Some(data))
    }

    /// Deletes the document stored under `id`: walks its chain on the image,
    /// frees each block and takes it out of the cache, then forgets the
    /// identifier. Where no document is stored under `id`, nothing changes.
    pub fn delete(&mut self, id: &str) -> (r: Result<(), StorageError>)
        requires
            old(self).wf(),
        ensures
            final(self).wf(),
            r is Ok,
            final(self)@ == old(self)@.deleted(id@),
            final(self).image() == old(self).image(),
            final(self).cached() == if old(self)@.chains.contains_key(id@) {
                forgotten(old(self).cached(), old(self)@.chains[id@])
            } else {
                old(self).cached()
            },
            final(self).reads() == if old(self)@.chains.contains_key(id@) {
                bumped(old(self).reads(), old(self)@.chains[id@].len())
            } else {
                old(self).reads()
            },
    {
        proof {
            reveal(StorageEngine::wf);
        }
        let first_block = match self.index.get(id) {
            Some(first) => *first,
            None => {
                return Ok(());
            },
        };
        let ghost layout = self.layout();
        let ghost image = layout.image;
        let ghost chain = layout.chains[id@];
        assert(layout.index.contains_key(id@));
        assert(layout.chains.contains_key(id@));
        assert(is_chain(image, chain));
        let ghost cache = self.cache@;
        let ghost reads = self.disk.reads();
        let mut current = first_block;
        let ghost mut i: int = 0;
        assert(layout.free + chain.take(0) =~= layout.free);
        assert(chain.take(0) =~= Seq::<u64>::empty());
        loop
            invariant_except_break
                self.disk.free() == layout.free + chain.take(i),
                0 <= i < chain.len(),
                current == chain[i],
                self.cache@ == forgotten(cache, chain.take(i)),
                self.disk.reads() == bumped(reads, i as nat),
            invariant
                layout.wf(),
                image == layout.image,
                is_chain(image, chain),
                self.disk.image() == image,
                self.index@ == layout.index,
                self.chains@ == layout.chains,
                self.owner@ == layout.owner,
                self.cache.wf(),
                coherent(image, self.cache@),
            ensures
                self.disk.image() == image,
                self.index@ == layout.index,
                self.chains@ == layout.chains,
                self.owner@ == layout.owner,
                self.disk.free() == layout.free + chain,
                self.cache.wf(),
                coherent(image, self.cache@),
                self.cache@ == forgotten(cache, chain),
                self.disk.reads() == bumped(reads, chain.len()),
            decreases chain.len() - i,
        {
            assert(linked(image, chain, i));
            proof {
                let head = chain.take(i + 1);
                assert(head.drop_last() =~= chain.take(i));
                assert(head.last() == chain[i]);
            }
            let block = match self.disk.read_block(current) {
                Ok(block) => block,
                Err(e) => {
                    return Err(e);
                },
            };
            self.disk.free_block(current)?;
            proof {
                lemma_coherent_shrunk(image, self.cache@, current);
                assert(chain.take(i + 1) =~= chain.take(i).push(current));
                assert(self.disk.free() =~= layout.free + chain.take(i + 1));
            }
            self.cache.remove(current);
            match block.metadata.next_block {
                Some(next) => {
                    current = next;
                    proof {
                        i = i + 1;
                    }
                },
                None => {
                    assert(chain.take(i + 1) =~= chain);
                    break ;
                },
            }
        }
        self.index.remove(id);
        self.chains = Ghost(self.chains@.remove(id@));
        self.owner = Ghost(self.owner@.remove_keys(chain.to_set()));
        proof {
            lemma_uninstall(layout, id@);
            assert(self.layout() == uninstalled(layout, id@));
            assert(self@ =~= view_of(layout).deleted(id@));
        }
        Ok(())
    }

    /// Has a block number handed out and records it as handed out.
    fn reserve_block(&mut self) -> (r: Result<u64, StorageError>)
        requires
            old(self).wf(),
        ensures
            final(self).wf(),
            final(self).cache@ == old(self).cache@,
            final(self).disk.reads() == old(self).disk.reads(),
            final(self).index@ == old(self).index@,
            final(self).chains@ == old(self).chains@,
            block_count(final(self).image()) >= block_count(old(self).image()),
            final(self).image().len() == length_for(
                old(self).image().len(),
                block_count(final(self).image()),
            ),
            forall|m: u64|
                m < block_count(old(self).image()) ==> #[trigger] block_at(final(self).image(), m)
                    == block_at(old(self).image(), m),
            forall|m: u64|
                m < block_count(old(self).image()) ==> #[trigger] slot_at(
                    final(self).image(),
                    m as int,
                ) == slot_at(old(self).image(), m as int),
            forall|m: u64| #[trigger]
                old(self).owner@.contains_key(m) ==> final(self).owner@.contains_key(m)
                    && final(self).owner@[m] == old(self).owner@[m],
            match r {
                Ok(n) => {
                    &&& old(self)@.grantable() >= 1
                    &&& n < block_count(final(self).image())
                    &&& n == old(self)@.handed_out(0)
                    &&& final(self)@ == old(self)@.after_allocation(1)
                    &&& !old(self).owner@.contains_key(n)
                    &&& final(self).owner@.contains_key(n)
                    &&& final(self).owner@[n] is None
                },
                Err(e) => {
                    &&& e == StorageError::ResizeFailed
                    &&& old(self)@.grantable() == 0
                    &&& final(self)@ == old(self)@
                    &&& final(self).owner@ == old(self).owner@
                    &&& final(self).image() == old(self).image()
                },
            },
    {
        proof {
            reveal(StorageEngine::wf);
        }
        let ghost before = self.layout();
        let block_num = match self.disk.allocate_block() {
            Ok(n) => n,
            Err(e) => {
                return Err(e);
            },
        };
        proof {
            let taken = self.layout();
            if before.free.len() > 0 {
                lemma_take_free(before);
                assert(taken == Layout { free: before.free.drop_first(), ..before });
                assert(before.free.skip(1) =~= before.free.drop_first());
            } else {
                lemma_grow(before);
                lemma_block_grown(before.image);
                lemma_grown(before.image);
                lemma_coherent_frame(before.image, taken.image, self.cache@);
                assert(taken == Layout { image: grown(before.image), ..before });
            }
            assert(!taken.free.contains(block_num)) by {
                if taken.free.contains(block_num) {
                    let k = choose|k: int| 0 <= k < taken.free.len() && taken.free[k] == block_num;
                    assert(taken.free[k] == block_num);
                }
            }
            lemma_reserve(taken, block_num);
        }
        self.owner = Ghost(self.owner@.insert(block_num, None));
        proof {
            assert(self@ =~= view_of(before).after_allocation(1));
        }
        Ok(block_num)
    }

    /// Writes a block into a slot that is part of no chain, and caches it.
    fn store_block(&mut self, block_num: u64, block: Block) -> (r: Result<(), StorageError>)
        requires
            old(self).wf(),
            old(self).owner@.contains_key(block_num),
            old(self).owner@[block_num] is None,
        ensures
            final(self).wf(),
            final(self)@ == old(self)@,
            final(self).index@ == old(self).index@,
            final(self).chains@ == old(self).chains@,
            final(self).owner@ == old(self).owner@,
            final(self).disk.reads() == old(self).disk.reads(),
            match r {
                Ok(_) => {
                    &&& block@.fits()
                    &&& final(self).cache@ == old(self).cache@.inserted(block_num, block@)
                    &&& block_count(final(self).image()) == block_count(old(self).image())
                    &&& final(self).image().len() == old(self).image().len()
                    &&& block_at(final(self).image(), block_num) == Some(block@.stored())
                    &&& slot_at(final(self).image(), block_num as int) == block@.slot()
                    &&& forall|m: u64|
                        m != block_num && m < block_count(old(self).image()) ==> #[trigger] block_at(
                            final(self).image(),
                            m,
                        ) == block_at(old(self).image(), m)
                    &&& forall|m: u64|
                        m < block_count(old(self).image()) && m != block_num
                            ==> #[trigger] slot_at(final(self).image(), m as int) == slot_at(
                            old(self).image(),
                            m as int,
                        )
                },
                Err(e) => {
                    &&& !block@.fits()
                    &&& e == StorageError::InvalidData
                    &&& final(self).image() == old(self).image()
                    &&& final(self).cache@ == old(self).cache@
                },
            },
    {
        let ghost before = self.layout();
        proof {
            reveal(StorageEngine::wf);
            lemma_unchained(before, block_num);
        }
        match self.disk.write_block(block_num, &block) {
            Ok(_) => {},
            Err(e) => {
                return Err(e);
            },
        }
        proof {
            lemma_store(before, block_num, block@);
            lemma_block_written(before.image, block_num, block@);
            lemma_slot_round_trip(block@);
            lemma_with_slot(before.image, block_num as int, block@.slot());
            lemma_coherent_stored(before.image, self.cache@, block_num, block@);
            assert(self.layout() == Layout {
                image: with_slot(before.image, block_num as int, block@.slot()),
                ..before
            });
            assert(self@ =~= view_of(before));
        }
        self.cache.insert(block_num, block);
        Ok(())
    }

    /// Adds one block to a chain that is being written: has a block handed
    /// out, writes `piece` into it with no successor, and makes `prev`, the
    /// block before it, name the new block as its successor.
    fn write_piece(&mut self, id: &str, piece: &[u8], prev: Option<u64>) -> (r: Result<
        u64,
        StorageError,
    >)
        requires
            old(self).wf(),
            piece@.len() <= PAYLOAD_CAPACITY,
            prev matches Some(p) ==> {
                &&& old(self).owner@.contains_key(p)
                &&& old(self).owner@[p] is None
                &&& block_at(old(self).image(), p) matches Some(b) && b.id == id@
            },
        ensures
            final(self).wf(),
            final(self).index@ == old(self).index@,
            final(self).chains@ == old(self).chains@,
            forall|m: u64| #[trigger]
                old(self).owner@.contains_key(m) ==> final(self).owner@.contains_key(m)
                    && final(self).owner@[m] == old(self).owner@[m],
            block_count(final(self).image()) >= block_count(old(self).image()),
            final(self).image().len() == length_for(
                old(self).image().len(),
                block_count(final(self).image()),
            ),
            r is Err ==> forall|m: u64|
                m < block_count(old(self).image()) ==> #[trigger] block_at(final(self).image(), m)
                    == block_at(old(self).image(), m),
            r is Err ==> forall|m: u64|
                m < block_count(old(self).image()) ==> #[trigger] slot_at(
                    final(self).image(),
                    m as int,
                ) == slot_at(old(self).image(), m as int),
            match r {
                Ok(n) => {
                    &&& old(self)@.grantable() >= 1
                    &&& encode_utf8(id@).len() <= MAX_ID_BYTES
                    &&& n < block_count(final(self).image())
                    &&& slot_at(final(self).image(), n as int) == (BlockView {
                        id: id@,
                        size: piece@.len(),
                        next: None,
                        data: piece@,
                    }).slot()
                    &&& prev matches Some(p) ==> slot_at(final(self).image(), p as int)
                        == block_at(old(self).image(), p)->Some_0.with_next(Some(n)).slot()
                    &&& forall|m: u64|
                        m < block_count(old(self).image()) && m != n && prev != Some(m)
                            ==> #[trigger] slot_at(final(self).image(), m as int) == slot_at(
                            old(self).image(),
                            m as int,
                        )
                    &&& final(self).cache@ == ({
                        let stored = old(self).cache@.inserted(
                            n,
                            BlockView { id: id@, size: piece@.len(), next: None, data: piece@ },
                        );
                        match prev {
                            Some(p) => stored.inserted(
                                p,
                                block_at(old(self).image(), p)->Some_0.with_next(Some(n)),
                            ),
                            None => stored,
                        }
                    })
                    &&& final(self).disk.reads() == bumped(
                        old(self).disk.reads(),
                        if prev is Some {
                            1nat
                        } else {
                            0nat
                        },
                    )
                    &&& n == old(self)@.handed_out(0)
                    &&& final(self)@ == old(self)@.after_allocation(1)
                    &&& !old(self).owner@.contains_key(n)
                    &&& final(self).owner@.contains_key(n)
                    &&& final(self).owner@[n] is None
                    &&& block_at(final(self).image(), n) == Some(
                        BlockView {
                            id: id@,
                            size: piece@.len(),
                            next: None,
                            data: padded(piece@, PAYLOAD_CAPACITY as nat),
                        },
                    )
                    &&& prev matches Some(p) ==> block_at(final(self).image(), p) == Some(
                        block_at(old(self).image(), p)->Some_0.with_next(Some(n)),
                    )
                    &&& forall|m: u64|
                        m < block_count(old(self).image()) && m != n && prev != Some(m)
                            ==> #[trigger] block_at(final(self).image(), m) == block_at(
                            old(self).image(),
                            m,
                        )
                },
                Err(e) => {
                    &&& final(self).cache@ == old(self).cache@
                    &&& final(self).disk.reads() == old(self).disk.reads()
                    &&& if old(self)@.grantable() == 0 {
                        e == StorageError::ResizeFailed && final(self)@ == old(self)@
                    } else {
                        &&& e == StorageError::InvalidData
                        &&& encode_utf8(id@).len() > MAX_ID_BYTES
                        &&& final(self)@ == old(self)@.after_allocation(1)
                    }
                },
            },
    {
        let ghost before = self.image();
        let block_num = match self.reserve_block() {
            Ok(n) => n,
            Err(e) => {
                return Err(e);
            },
        };
        let ghost reserved = self.image();
        let block = Block {
            metadata: BlockMetadata { id: id.to_owned(), size: piece.len(), next_block: None },
            data: slice_to_vec(piece),
        };
        let ghost new_block = block@;
        match self.store_block(block_num, block) {
            Ok(_) => {},
            Err(e) => {
                return Err(e);
            },
        }
        let ghost stored = self.image();
        if let Some(p) = prev {
            let ghost old_block = block_at(before, p)->Some_0;
            assert(block_at(reserved, p) == block_at(before, p));
            assert(block_at(stored, p) == block_at(reserved, p));
            proof {
                reveal(StorageEngine::wf);
            }
            let ghost linking = self.layout();
            let mut prev_block = match self.disk.read_block(p) {
                Ok(block) => block,
                Err(e) => {
                    return Err(e);
                },
            };
            prev_block.metadata.next_block = Some(block_num);
            proof {
                assert(self.wf()) by {
                    reveal(StorageEngine::wf);
                    assert(self.layout() == linking);
                }
                assert(prev_block@ == old_block.with_next(Some(block_num)));
                assert(prev_block@.stored().data =~= prev_block@.data);
                assert(prev_block@.stored() == prev_block@);
            }
            match self.store_block(p, prev_block) {
                Ok(_) => {},
                Err(e) => {
                    return Err(e);
                },
            }
            assert(block_at(self.image(), block_num) == block_at(stored, block_num));
            assert(slot_at(self.image(), block_num as int) == slot_at(stored, block_num as int));
        }
        proof {
            assert forall|m: u64|
                m < block_count(before) && m != block_num && prev != Some(
                    m,
                ) implies #[trigger] block_at(self.image(), m) == block_at(before, m) by {
                assert(block_at(reserved, m) == block_at(before, m));
                assert(block_at(stored, m) == block_at(reserved, m));
            }
            assert forall|m: u64|
                m < block_count(before) && m != block_num && prev != Some(
                    m,
                ) implies #[trigger] slot_at(self.image(), m as int) == slot_at(
                before,
                m as int,
            ) by {
                assert(slot_at(reserved, m as int) == slot_at(before, m as int));
                assert(slot_at(stored, m as int) == slot_at(reserved, m as int));
            }
        }
        Ok(block_num)
    }

    /// Stores `data` under `id`. The data are cut into pieces of
    /// `PAYLOAD_CAPACITY` bytes; for each piece a block is handed out,
    /// written with no successor and cached, and the block before it is read
    /// back and written again with the new block as its successor. At the end
    /// the index names the first block for `id`. Empty data change nothing.
    /// A write that fails undoes nothing of what it did before it failed.
    pub fn write(&mut self, id: &str, data: &[u8]) -> (r: Result<(), StorageError>)
        requires
            old(self).wf(),
        ensures
            final(self).wf(),
            r == old(self)@.write_outcome(id@, data@),
            final(self)@ == old(self)@.written(id@, data@),
            stored_prefix(
                final(self).image(),
                id@,
                data@,
                old(self)@.allocation(old(self)@.pieces_written(id@, data@)),
                old(self)@.pieces_written(id@, data@) as int,
            ),
            untouched_but(
                old(self).image(),
                final(self).image(),
                old(self)@.allocation(blocks_needed(data@.len())),
            ),
            final(self).image().len() == length_for(
                old(self).image().len(),
                final(self)@.blocks,
            ),
            final(self).cached() == write_cached(
                old(self).cached(),
                id@,
                data@,
                old(self)@.allocation(old(self)@.pieces_written(id@, data@)),
                old(self)@.pieces_written(id@, data@) as int,
            ),
            final(self).reads() == bumped(
                old(self).reads(),
                if old(self)@.pieces_written(id@, data@) > 0 {
                    (old(self)@.pieces_written(id@, data@) - 1) as nat
                } else {
                    0
                },
            ),
    {
        let ghost pre = self@;
        let ghost start = self.image();
        let ghost cache = self.cache@;
        let ghost reads = self.disk.reads();
        let mut offset: usize = 0;
        let mut prev_block_num: Option<u64> = None;
        let mut first_block_num: Option<u64> = None;
        let ghost mut fresh: Seq<u64> = Seq::empty();
        proof {
            assert(pre.after_allocation(0) =~= pre);
            lemma_holds_nothing(self.image(), id@, data@);
            lemma_stored_nothing(self.image(), id@, data@);
        }
        while offset < data.len()
            invariant
                self.wf(),
                pre == old(self)@,
                start == old(self).image(),
                cache == old(self).cache@,
                reads == old(self).disk.reads(),
                self.cache@ == write_cached(cache, id@, data@, fresh, fresh.len() as int),
                self.disk.reads() == bumped(
                    reads,
                    if fresh.len() > 0 {
                        (fresh.len() - 1) as nat
                    } else {
                        0
                    },
                ),
                untouched_but(start, self.image(), fresh),
                self.image().len() == length_for(start.len(), block_count(self.image())),
                write_progress(pre, self@, id@, data@, fresh.len()),
                offset == pieces_end(data@, fresh.len() as int),
                fresh == pre.allocation(fresh.len()),
                fresh.no_duplicates(),
                all_reserved(self.owner@, fresh),
                holds_prefix(self.image(), id@, data@, fresh, fresh.len() as int),
                stored_prefix(self.image(), id@, data@, fresh, fresh.len() as int),
                prev_block_num == (if fresh.len() > 0 {
                    Some(fresh.last())
                } else {
                    None
                }),
                first_block_num == (if fresh.len() > 0 {
                    Some(fresh[0])
                } else {
                    None
                }),
            decreases data.len() - offset,
        {
            let ghost j = fresh.len();
            let ghost before = self.image();
            let ghost now = self@;
            let ghost owner = self.owner@;
            proof {
                assert(offset == j * PAYLOAD_CAPACITY);
                if j > 0 {
                    lemma_holds_at(before, id@, data@, fresh, j as int, j - 1);
                }
            }
            let remaining = data.len() - offset;
            let chunk_size = if remaining < PAYLOAD_CAPACITY {
                remaining
            } else {
                PAYLOAD_CAPACITY
            };
            let piece = slice_subrange(data, offset, offset + chunk_size);
            proof {
                assert((j + 1) * PAYLOAD_CAPACITY == offset + PAYLOAD_CAPACITY);
                assert(piece@ =~= chunk(data@, j as int));
            }
            let block_num = match self.write_piece(id, piece, prev_block_num) {
                Ok(n) => n,
                Err(e) => {
                    proof {
                        lemma_write_stops(pre, now, self@, id@, data@, j, e);
                        let all = pre.allocation(blocks_needed(data@.len()));
                        assert forall|i: int| 0 <= i < fresh.len() implies all.contains(
                            #[trigger] fresh[i],
                        ) by {
                            assert(all[i] == fresh[i]);
                        }
                        assert(untouched_but(start, self.image(), fresh)) by {
                            assert forall|m: u64|
                                m < block_count(start) && !fresh.contains(
                                    m,
                                ) implies #[trigger] block_at(self.image(), m) == block_at(
                                start,
                                m,
                            ) by {
                                assert(block_at(before, m) == block_at(start, m));
                            }
                        }
                        lemma_untouched_wider(start, self.image(), fresh, all);
                        lemma_stored_frame(before, self.image(), id@, data@, fresh, j as int);
                    }
                    return Err(e);
                },
            };
            if first_block_num.is_none() {
                first_block_num = Some(block_num);
            }
            proof {
                lemma_write_continues(pre, now, self@, id@, data@, j);
                lemma_reserved_more(owner, self.owner@, fresh, block_num);
                let longer = fresh.push(block_num);
                lemma_write_cached_prefix(cache, id@, data@, fresh, longer, j as int);
                assert(longer.take(j as int + 1) =~= longer);
                assert(self.cache@ == write_cached(cache, id@, data@, longer, j as int + 1));
                assert(block_at(self.image(), block_num) == Some(
                    chain_block(id@, data@, longer, j as int),
                ));
                if j > 0 {
                    let linked_block = chain_block(id@, data@, fresh, j - 1).with_next(
                        Some(block_num),
                    );
                    assert(linked_block == chain_block(id@, data@, longer, j - 1));
                }
                lemma_holds_extend(before, self.image(), id@, data@, fresh, block_num);
                if j > 0 {
                    assert(fresh[j - 1] == fresh.last());
                }
                assert(chain_block(id@, data@, longer, j as int).slot() =~= piece_block(
                    id@,
                    data@,
                    j as int,
                ).slot());
                lemma_stored_extend(before, self.image(), id@, data@, fresh, block_num);
                lemma_untouched_more(
                    start,
                    before,
                    self.image(),
                    fresh,
                    block_num,
                    prev_block_num,
                );
                assert(longer =~= pre.allocation(longer.len()));
                fresh = longer;
            }
            prev_block_num = Some(block_num);
            offset = offset + chunk_size;
        }
        proof {
            if data@.len() > 0 {
                lemma_write_done(pre, self@, id@, data@, fresh.len());
            } else {
                lemma_blocks_needed(0);
            }
            assert(fresh == pre.allocation(blocks_needed(data@.len())));
        }
        if let Some(first) = first_block_num {
            let ghost layout = self.layout();
            proof {
                reveal(StorageEngine::wf);
                lemma_chain_holds(layout.image, id@, data@, fresh);
                lemma_install(layout, id@, fresh);
            }
            self.index.insert(id.to_owned(), first);
            self.chains = Ghost(self.chains@.insert(id@, fresh));
            self.owner = Ghost(owners_after_install(self.owner@, id@, fresh));
            proof {
                assert(self.layout() == installed(layout, id@, fresh));
                assert(self@ =~= pre.written(id@, data@));
            }
        }
        Ok(())
    }
}

} // verus!
