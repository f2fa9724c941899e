//! What passes through the block cache: how the cache stands to the image,
//! and what reads, writes and deletes leave in it.
use vstd::prelude::*;
use crate::block::{lemma_slot_round_trip, BlockView};
use crate::cache::{
    drop_key, lemma_drop_key_at, lemma_evicted, lemma_inserted, lemma_touched, CacheView,
    CACHE_SIZE,
};
use crate::chain::{chain_block, chunk};
use crate::disk::{block_at, block_count, lemma_block_written, with_slot};

verus! {

/// The cached copy agrees with the block on the image in all that is
/// meaningful: identifier, size, successor and the first `size` payload bytes.
pub open spec fn agrees(stored: BlockView, cached: BlockView) -> bool {
    &&& stored.id == cached.id
    &&& stored.size == cached.size
    &&& stored.next == cached.next
    &&& cached.size <= cached.data.len()
    &&& stored.size <= stored.data.len()
    &&& stored.payload() == cached.payload()
}

/// Every cached copy agrees with the block on the image.
pub open spec fn coherent(image: Seq<u8>, cache: CacheView) -> bool {
    forall|n: u64| #[trigger]
        cache.blocks.contains_key(n) ==> match block_at(image, n) {
            Some(stored) => agrees(stored, cache.blocks[n]),
            None => false,
        }
}

/// A change of the image that leaves the blocks it had as they were keeps
/// the cache coherent.
pub proof fn lemma_coherent_frame(a: Seq<u8>, b: Seq<u8>, cache: CacheView)
    requires
        coherent(a, cache),
        forall|n: u64| n < block_count(a) ==> #[trigger] block_at(b, n) == block_at(a, n),
    ensures
        coherent(b, cache),
{
    assert forall|n: u64| #[trigger] cache.blocks.contains_key(n) implies match block_at(b, n) {
        Some(stored) => agrees(stored, cache.blocks[n]),
        None => false,
    } by {
        assert(block_at(a, n) is Some);
        assert(block_at(b, n) == block_at(a, n));
    }
}

/// Writing a block to the image and storing it in the cache under the same
/// number keeps the cache coherent.
pub proof fn lemma_coherent_stored(image: Seq<u8>, cache: CacheView, n: u64, b: BlockView)
    requires
        coherent(image, cache),
        b.fits(),
    ensures
        coherent(with_slot(image, n as int, b.slot()), cache.inserted(n, b)),
{
    lemma_block_written(image, n, b);
    lemma_slot_round_trip(b);
    let after = with_slot(image, n as int, b.slot());
    let c = cache.inserted(n, b);
    assert forall|k: u64| #[trigger] c.blocks.contains_key(k) implies match block_at(after, k) {
        Some(stored) => agrees(stored, c.blocks[k]),
        None => false,
    } by {
        if k != n {
            assert(cache.blocks.contains_key(k));
            assert(block_at(image, k) is Some);
            assert(block_at(after, k) == block_at(image, k));
        }
    }
}

/// Storing in the cache what the image holds keeps the cache coherent.
pub proof fn lemma_coherent_filled(image: Seq<u8>, cache: CacheView, n: u64, b: BlockView)
    requires
        coherent(image, cache),
        block_at(image, n) == Some(b),
    ensures
        coherent(image, cache.inserted(n, b)),
{
    let c = cache.inserted(n, b);
    assert forall|k: u64| #[trigger] c.blocks.contains_key(k) implies match block_at(image, k) {
        Some(stored) => agrees(stored, c.blocks[k]),
        None => false,
    } by {
        if k != n {
            assert(cache.blocks.contains_key(k));
        }
    }
}

/// Looking a block up, or taking one out, keeps the cache coherent.
pub proof fn lemma_coherent_shrunk(image: Seq<u8>, cache: CacheView, n: u64)
    requires
        coherent(image, cache),
    ensures
        coherent(image, cache.touched(n)),
        coherent(image, cache.removed(n)),
{
    let c = cache.removed(n);
    assert forall|k: u64| #[trigger] c.blocks.contains_key(k) implies match block_at(image, k) {
        Some(stored) => agrees(stored, c.blocks[k]),
        None => false,
    } by {
        assert(cache.blocks.contains_key(k));
    }
}

/// The cache after block `n` is read through it: a cached block is touched,
/// and a block that is not cached is stored as it reads from the image.
pub open spec fn read_one(cache: CacheView, image: Seq<u8>, n: u64) -> CacheView {
    if cache.blocks.contains_key(n) {
        cache.touched(n)
    } else {
        match block_at(image, n) {
            Some(b) => cache.inserted(n, b),
            None => cache,
        }
    }
}

/// The cache after the blocks of `chain` are read through it, in order.
pub open spec fn read_through(cache: CacheView, image: Seq<u8>, chain: Seq<u64>) -> CacheView
    decreases chain.len(),
{
    if chain.len() == 0 {
        cache
    } else {
        read_one(read_through(cache, image, chain.drop_last()), image, chain.last())
    }
}

/// How many blocks of `chain` are read from the image when the chain is read
/// through the cache, in order: those that are not cached when their turn
/// comes.
pub open spec fn read_misses(cache: CacheView, image: Seq<u8>, chain: Seq<u64>) -> nat
    decreases chain.len(),
{
    if chain.len() == 0 {
        0
    } else {
        let before = read_through(cache, image, chain.drop_last());
        read_misses(cache, image, chain.drop_last()) + if before.blocks.contains_key(
            chain.last(),
        ) {
            0nat
        } else {
            1nat
        }
    }
}

/// The cache after the blocks of `chain` are taken out of it.
pub open spec fn forgotten(cache: CacheView, chain: Seq<u64>) -> CacheView
    decreases chain.len(),
{
    if chain.len() == 0 {
        cache
    } else {
        forgotten(cache, chain.drop_last()).removed(chain.last())
    }
}

/// The block that holds the `i`-th piece of `data` as it is first written:
/// without successor, and with no more payload than the piece.
pub open spec fn piece_block(id: Seq<char>, data: Seq<u8>, i: int) -> BlockView {
    BlockView { id, size: chunk(data, i).len(), next: None, data: chunk(data, i) }
}

/// The cache after the first `j` pieces of `data` are written to `blocks`:
/// each new block is stored as it is first written, and then the block
/// before it as it reads from the image once it names its successor.
pub open spec fn write_cached(
    cache: CacheView,
    id: Seq<char>,
    data: Seq<u8>,
    blocks: Seq<u64>,
    j: int,
) -> CacheView
    decreases j,
{
    if j <= 0 {
        cache
    } else {
        let stored = write_cached(cache, id, data, blocks, j - 1).inserted(
            blocks[j - 1],
            piece_block(id, data, j - 1),
        );
        if j >= 2 {
            stored.inserted(blocks[j - 2], chain_block(id, data, blocks.take(j), j - 2))
        } else {
            stored
        }
    }
}

/// What the first `j` pieces leave in the cache depends on the first `j`
/// blocks only.
pub proof fn lemma_write_cached_prefix(
    cache: CacheView,
    id: Seq<char>,
    data: Seq<u8>,
    blocks: Seq<u64>,
    more: Seq<u64>,
    j: int,
)
    requires
        0 <= j <= blocks.len(),
        blocks.is_prefix_of(more),
    ensures
        write_cached(cache, id, data, more, j) == write_cached(cache, id, data, blocks, j),
    decreases j,
{
    if j > 0 {
        lemma_write_cached_prefix(cache, id, data, blocks, more, j - 1);
        assert(more[j - 1] == blocks[j - 1]);
        if j >= 2 {
            assert(more[j - 2] == blocks[j - 2]);
            assert(more.take(j) =~= blocks.take(j));
        }
    }
}

/// Reading a chain through the cache keeps the cache well formed and in
/// agreement with the image.
pub proof fn lemma_read_through(cache: CacheView, image: Seq<u8>, chain: Seq<u64>)
    requires
        cache.wf(),
        coherent(image, cache),
    ensures
        read_through(cache, image, chain).wf(),
        coherent(image, read_through(cache, image, chain)),
    decreases chain.len(),
{
    if chain.len() > 0 {
        let rest = chain.drop_last();
        lemma_read_through(cache, image, rest);
        let before = read_through(cache, image, rest);
        let n = chain.last();
        lemma_touched(before, n);
        lemma_coherent_shrunk(image, before, n);
        if !before.blocks.contains_key(n) {
            match block_at(image, n) {
                Some(b) => {
                    lemma_inserted(before, n, b);
                    lemma_coherent_filled(image, before, n, b);
                },
                None => {},
            }
        }
    }
}

/// A chain whose blocks are all cached is read without a read from the
/// image, and every cached copy stays as it is.
pub proof fn lemma_cached_chain_read(cache: CacheView, image: Seq<u8>, chain: Seq<u64>)
    requires
        forall|i: int| 0 <= i < chain.len() ==> cache.blocks.contains_key(#[trigger] chain[i]),
    ensures
        read_misses(cache, image, chain) == 0,
        read_through(cache, image, chain).blocks == cache.blocks,
    decreases chain.len(),
{
    if chain.len() > 0 {
        let rest = chain.drop_last();
        assert forall|i: int| 0 <= i < rest.len() implies cache.blocks.contains_key(
            #[trigger] rest[i],
        ) by {
            assert(rest[i] == chain[i]);
        }
        lemma_cached_chain_read(cache, image, rest);
        assert(chain.last() == chain[chain.len() - 1]);
    }
}

/// `k` stands among the first `b` places of the order of use.
pub open spec fn within(order: Seq<u64>, k: u64, b: int) -> bool {
    exists|p: int| 0 <= p < b && p < order.len() && #[trigger] order[p] == k
}

/// Where a cached block stands after another block is stored: one place
/// further back, or where it stood if the stored block stood before it.
proof fn lemma_inserted_place(s: CacheView, n: u64, block: BlockView, k: u64, p: int)
    requires
        s.wf(),
        0 <= p < s.order.len(),
        s.order[p] == k,
        k != n,
        p < CACHE_SIZE - 1,
    ensures
        ({
            let t = s.inserted(n, block);
            if exists|q: int| 0 <= q < p && s.order[q] == n {
                p < t.order.len() && t.order[p] == k
            } else {
                p + 1 < t.order.len() && t.order[p + 1] == k
            }
        }),
{
    let room = s.evicted();
    lemma_evicted(s);
    assert(p < room.order.len() && room.order[p] == k);
    let d = drop_key(room.order, n);
    let t = s.inserted(n, block);
    assert(t.order == seq![n] + d);
    if room.order.contains(n) {
        let q = room.order.index_of(n);
        lemma_drop_key_at(room.order, n, q);
        assert(s.order[q] == n);
        if q < p {
            assert(d[p - 1] == k);
            assert(t.order[p] == d[p - 1]);
        } else {
            assert(d[p] == k);
            assert(t.order[p + 1] == d[p]);
            if exists|q2: int| 0 <= q2 < p && s.order[q2] == n {
                let q2 = choose|q2: int| 0 <= q2 < p && s.order[q2] == n;
                assert(room.order[q2] == n);
            }
        }
    } else {
        assert(t.order[p + 1] == d[p]);
        if exists|q2: int| 0 <= q2 < p && s.order[q2] == n {
            let q2 = choose|q2: int| 0 <= q2 < p && s.order[q2] == n;
            assert(room.order[q2] == n);
        }
    }
}

/// A block among the first `b` places is among the first `b + 1` after
/// another block is stored, and still among the first `b` if the stored
/// block was among the first `b` itself.
proof fn lemma_within_inserted(s: CacheView, n: u64, block: BlockView, k: u64, b: int)
    requires
        s.wf(),
        within(s.order, k, b),
        b < CACHE_SIZE,
    ensures
        within(s.inserted(n, block).order, k, b + 1),
        within(s.order, n, b) ==> within(s.inserted(n, block).order, k, b),
{
    let t = s.inserted(n, block);
    lemma_inserted(s, n, block);
    let p = choose|p: int| 0 <= p < b && p < s.order.len() && #[trigger] s.order[p] == k;
    if k == n {
        assert(t.order[0] == k);
    } else {
        lemma_inserted_place(s, n, block, k, p);
        if exists|q: int| 0 <= q < p && s.order[q] == n {
            assert(t.order[p] == k);
        } else {
            assert(t.order[p + 1] == k);
            if within(s.order, n, b) {
                let q = choose|q: int| 0 <= q < b && q < s.order.len() && #[trigger] s.order[q] == n;
                assert(q > p);
            }
        }
    }
}

/// The blocks of a chain of fewer than `CACHE_SIZE` blocks all stand in the
/// cache once the chain is written, among the most recently used.
pub proof fn lemma_written_chain_cached(
    cache: CacheView,
    id: Seq<char>,
    data: Seq<u8>,
    blocks: Seq<u64>,
    j: int,
)
    requires
        cache.wf(),
        blocks.no_duplicates(),
        0 <= j <= blocks.len(),
        j < CACHE_SIZE,
    ensures
        write_cached(cache, id, data, blocks, j).wf(),
        forall|i: int|
            0 <= i < j ==> within(write_cached(cache, id, data, blocks, j).order, blocks[i], j),
        forall|i: int|
            0 <= i < j ==> write_cached(cache, id, data, blocks, j).blocks.contains_key(
                #[trigger] blocks[i],
            ),
    decreases j,
{
    if j > 0 {
        lemma_written_chain_cached(cache, id, data, blocks, j - 1);
        let before = write_cached(cache, id, data, blocks, j - 1);
        let n = blocks[j - 1];
        let piece = piece_block(id, data, j - 1);
        let stored = before.inserted(n, piece);
        lemma_inserted(before, n, piece);
        assert forall|i: int| 0 <= i < j implies within(stored.order, blocks[i], j) by {
            if i < j - 1 {
                lemma_within_inserted(before, n, piece, blocks[i], j - 1);
            } else {
                assert(stored.order[0] == n);
            }
        }
        let after = write_cached(cache, id, data, blocks, j);
        if j >= 2 {
            let p = blocks[j - 2];
            let relinked = chain_block(id, data, blocks.take(j), j - 2);
            assert(after == stored.inserted(p, relinked));
            lemma_inserted(stored, p, relinked);
            assert forall|i: int| 0 <= i < j implies within(after.order, blocks[i], j) by {
                assert(within(stored.order, p, j));
                lemma_within_inserted(stored, p, relinked, blocks[i], j);
            }
        } else {
            assert(after == stored);
        }
        assert forall|i: int| 0 <= i < j implies after.blocks.contains_key(
            #[trigger] blocks[i],
        ) by {
            assert(within(after.order, blocks[i], j));
            let p = choose|p: int| 0 <= p < j && p < after.order.len() && #[trigger] after.order[p] == blocks[i];
            assert(after.order.contains(blocks[i]));
        }
    }
}

/// A document of fewer than `CACHE_SIZE` blocks is read right after it was
/// written without a read from the image.
pub proof fn lemma_read_after_write_is_cached(
    cache: CacheView,
    image: Seq<u8>,
    id: Seq<char>,
    data: Seq<u8>,
    blocks: Seq<u64>,
)
    requires
        cache.wf(),
        blocks.no_duplicates(),
        blocks.len() < CACHE_SIZE,
    ensures
        read_misses(
            write_cached(cache, id, data, blocks, blocks.len() as int),
            image,
            blocks,
        ) == 0,
{
    lemma_written_chain_cached(cache, id, data, blocks, blocks.len() as int);
    lemma_cached_chain_read(
        write_cached(cache, id, data, blocks, blocks.len() as int),
        image,
        blocks,
    );
}

} // verus!
