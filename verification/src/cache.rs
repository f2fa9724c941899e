//! The block cache: a bounded set of recently touched blocks, keyed by block
//! number and ordered from most to least recently used.
use vstd::prelude::*;
use std::collections::HashMap;
use std::collections::VecDeque;
use crate::block::{Block, BlockView};

verus! {

broadcast use vstd::std_specs::hash::group_hash_axioms;

/// The number of blocks that the cache holds at most.
pub const CACHE_SIZE: usize = 1000;

/// `order` without `n`.
pub open spec fn drop_key(order: Seq<u64>, n: u64) -> Seq<u64> {
    if order.contains(n) {
        order.remove(order.index_of(n))
    } else {
        order
    }
}

/// The cache as a mathematical value.
pub struct CacheView {
    /// The cached block numbers, most recently used first.
    pub order: Seq<u64>,
    /// The cached copy of each of those blocks.
    pub blocks: Map<u64, BlockView>,
}

impl CacheView {
    /// The cache that holds nothing.
    pub open spec fn empty() -> CacheView {
        CacheView { order: Seq::empty(), blocks: Map::empty() }
    }

    /// Each cached block number stands once in the order, the order lists
    /// cached blocks only, and there are at most `CACHE_SIZE` of them.
    pub open spec fn wf(self) -> bool {
        &&& self.order.no_duplicates()
        &&& self.order.len() <= CACHE_SIZE
        &&& forall|k: u64| self.order.contains(k) <==> self.blocks.contains_key(k)
    }

    /// The cached copy of block `n`, if there is one.
    pub open spec fn lookup(self, n: u64) -> Option<BlockView> {
        if self.blocks.contains_key(n) {
            Some(self.blocks[n])
        } else {
            None
        }
    }

    /// The cache after a lookup of `n`: a cached `n` becomes the most
    /// recently used.
    pub open spec fn touched(self, n: u64) -> CacheView {
        if self.blocks.contains_key(n) {
            CacheView { order: seq![n] + drop_key(self.order, n), blocks: self.blocks }
        } else {
            self
        }
    }

    /// The cache after it has made room: a full cache loses its least
    /// recently used block.
    pub open spec fn evicted(self) -> CacheView {
        if self.order.len() >= CACHE_SIZE {
            CacheView {
                order: self.order.drop_last(),
                blocks: self.blocks.remove(self.order.last()),
            }
        } else {
            self
        }
    }

    /// The cache after `block` is stored under `n`: room is made first, then
    /// `n` becomes the most recently used.
    pub open spec fn inserted(self, n: u64, block: BlockView) -> CacheView {
        let room = self.evicted();
        CacheView { order: seq![n] + drop_key(room.order, n), blocks: room.blocks.insert(n, block) }
    }

    /// The cache after `n` is taken out.
    pub open spec fn removed(self, n: u64) -> CacheView {
        CacheView { order: drop_key(self.order, n), blocks: self.blocks.remove(n) }
    }
}

/// In an order without repetitions, `n` stands at one place only.
pub proof fn lemma_drop_key_at(order: Seq<u64>, n: u64, i: int)
    requires
        order.no_duplicates(),
        0 <= i < order.len(),
        order[i] == n,
    ensures
        drop_key(order, n) == order.remove(i),
{
    assert(order.contains(n));
    assert(order.index_of(n) == i);
}

/// Dropping `n` from an order without repetitions leaves the other numbers,
/// still without repetitions.
pub proof fn lemma_drop_key(order: Seq<u64>, n: u64)
    requires
        order.no_duplicates(),
    ensures
        drop_key(order, n).no_duplicates(),
        !drop_key(order, n).contains(n),
        forall|k: u64| k != n ==> (drop_key(order, n).contains(k) <==> order.contains(k)),
        drop_key(order, n).len() == if order.contains(n) {
            order.len() - 1
        } else {
            order.len() as int
        },
{
    let d = drop_key(order, n);
    if order.contains(n) {
        let i = order.index_of(n);
        assert forall|a: int, b: int| 0 <= a < d.len() && 0 <= b < d.len() && a != b implies d[a]
            != d[b] by {
            let a0 = if a < i { a } else { a + 1 };
            let b0 = if b < i { b } else { b + 1 };
            assert(d[a] == order[a0]);
            assert(d[b] == order[b0]);
        }
        assert forall|k: u64| k != n implies (d.contains(k) <==> order.contains(k)) by {
            if d.contains(k) {
                let a = choose|a: int| 0 <= a < d.len() && d[a] == k;
                let a0 = if a < i { a } else { a + 1 };
                assert(order[a0] == k);
            }
            if order.contains(k) {
                let a0 = choose|a0: int| 0 <= a0 < order.len() && order[a0] == k;
                let a = if a0 < i { a0 } else { a0 - 1 };
                assert(d[a] == k);
            }
        }
        if d.contains(n) {
            let a = choose|a: int| 0 <= a < d.len() && d[a] == n;
            let a0 = if a < i { a } else { a + 1 };
            assert(order[a0] == n);
        }
    }
}

/// Putting `n` in front of an order that lacks it keeps it free of
/// repetitions.
pub proof fn lemma_promote(order: Seq<u64>, n: u64)
    requires
        order.no_duplicates(),
        !order.contains(n),
    ensures
        (seq![n] + order).no_duplicates(),
        forall|k: u64| (seq![n] + order).contains(k) <==> (k == n || order.contains(k)),
{
    let p = seq![n] + order;
    assert forall|a: int, b: int| 0 <= a < p.len() && 0 <= b < p.len() && a != b implies p[a]
        != p[b] by {
        if a > 0 {
            assert(p[a] == order[a - 1]);
            assert(order.contains(p[a]));
        }
        if b > 0 {
            assert(p[b] == order[b - 1]);
            assert(order.contains(p[b]));
        }
    }
    assert forall|k: u64| p.contains(k) <==> (k == n || order.contains(k)) by {
        if p.contains(k) {
            let a = choose|a: int| 0 <= a < p.len() && p[a] == k;
            if a > 0 {
                assert(order[a - 1] == k);
            }
        }
        if k == n {
            assert(p[0] == n);
        }
        if order.contains(k) {
            let a = choose|a: int| 0 <= a < order.len() && order[a] == k;
            assert(p[a + 1] == k);
        }
    }
}

/// A lookup keeps the cache well formed and keeps every cached copy.
pub proof fn lemma_touched(s: CacheView, n: u64)
    requires
        s.wf(),
    ensures
        s.touched(n).wf(),
        s.touched(n).blocks == s.blocks,
        s.blocks.contains_key(n) ==> s.touched(n).order[0] == n,
{
    if s.blocks.contains_key(n) {
        lemma_drop_key(s.order, n);
        lemma_promote(drop_key(s.order, n), n);
        let t = s.touched(n);
        assert forall|k: u64| t.order.contains(k) <==> t.blocks.contains_key(k) by {
            assert(t.order.contains(k) <==> (k == n || drop_key(s.order, n).contains(k)));
            if k != n {
                assert(drop_key(s.order, n).contains(k) <==> s.order.contains(k));
            }
            assert(s.order.contains(k) <==> s.blocks.contains_key(k));
        }
    }
}

/// Making room keeps the cache well formed and leaves it short of full.
pub proof fn lemma_evicted(s: CacheView)
    requires
        s.wf(),
    ensures
        s.evicted().wf(),
        s.evicted().order.len() < CACHE_SIZE,
{
    if s.order.len() >= CACHE_SIZE {
        let e = s.evicted();
        let last = s.order.last();
        assert(e.order =~= s.order.remove(s.order.len() - 1));
        lemma_drop_key_at(s.order, last, s.order.len() - 1);
        lemma_drop_key(s.order, last);
        assert forall|k: u64| e.order.contains(k) <==> e.blocks.contains_key(k) by {
            if k != last {
                assert(e.order.contains(k) <==> s.order.contains(k));
            }
            assert(s.order.contains(k) <==> s.blocks.contains_key(k));
        }
    }
}

/// Storing a block keeps the cache well formed, makes the block the most
/// recently used, and makes a lookup of it find what was stored.
pub proof fn lemma_inserted(s: CacheView, n: u64, block: BlockView)
    requires
        s.wf(),
    ensures
        s.inserted(n, block).wf(),
        s.inserted(n, block).order[0] == n,
        s.inserted(n, block).lookup(n) == Some(block),
{
    lemma_evicted(s);
    let room = s.evicted();
    lemma_drop_key(room.order, n);
    lemma_promote(drop_key(room.order, n), n);
    let t = s.inserted(n, block);
    assert forall|k: u64| t.order.contains(k) <==> t.blocks.contains_key(k) by {
        assert(t.order.contains(k) <==> (k == n || drop_key(room.order, n).contains(k)));
        if k != n {
            assert(drop_key(room.order, n).contains(k) <==> room.order.contains(k));
        }
        assert(room.order.contains(k) <==> room.blocks.contains_key(k));
    }
}

/// Taking a block out keeps the cache well formed and leaves the others.
pub proof fn lemma_removed(s: CacheView, n: u64)
    requires
        s.wf(),
    ensures
        s.removed(n).wf(),
        s.removed(n).lookup(n) is None,
        forall|k: u64| k != n ==> s.removed(n).lookup(k) == s.lookup(k),
{
    lemma_drop_key(s.order, n);
    let t = s.removed(n);
    assert forall|k: u64| t.order.contains(k) <==> t.blocks.contains_key(k) by {
        if k != n {
            assert(t.order.contains(k) <==> s.order.contains(k));
            assert(s.order.contains(k) <==> s.blocks.contains_key(k));
        }
    }
}

/// Storing a block that is not cached in a full cache evicts the least
/// recently used block and no other: every other block stays cached with the
/// copy it had, and the cache stays full.
pub proof fn lemma_insert_evicts_least_recent(s: CacheView, n: u64, block: BlockView)
    requires
        s.wf(),
        s.order.len() == CACHE_SIZE,
        !s.blocks.contains_key(n),
    ensures
        s.inserted(n, block).lookup(s.order.last()) is None,
        forall|k: u64|
            s.blocks.contains_key(k) && k != s.order.last() ==> s.inserted(n, block).lookup(k)
                == s.lookup(k),
        s.inserted(n, block).order == seq![n] + s.order.drop_last(),
{
    lemma_evicted(s);
    assert(s.order.contains(s.order.last()));
    assert(!s.evicted().order.contains(n));
}

/// Storing a block in a cache that is not full evicts nothing.
pub proof fn lemma_insert_keeps_all(s: CacheView, n: u64, block: BlockView)
    requires
        s.wf(),
        s.order.len() < CACHE_SIZE,
    ensures
        forall|k: u64| k != n ==> s.inserted(n, block).lookup(k) == s.lookup(k),
{
}

/// A lookup of a cached block finds its copy, and finds it again afterwards.
pub proof fn lemma_lookup_after_touch(s: CacheView, n: u64, k: u64)
    requires
        s.wf(),
    ensures
        s.touched(n).lookup(k) == s.lookup(k),
{
}

/// The cache after `blocks` are stored in it under `keys`, one after the
/// other.
pub open spec fn filled(s: CacheView, keys: Seq<u64>, blocks: Seq<BlockView>) -> CacheView
    decreases keys.len(),
{
    if keys.len() == 0 {
        s
    } else {
        filled(s, keys.drop_last(), blocks.drop_last()).inserted(keys.last(), blocks.last())
    }
}

/// How many of `n` blocks stored in an empty cache are kept.
pub open spec fn kept(n: int) -> int {
    if n <= CACHE_SIZE {
        n
    } else {
        CACHE_SIZE as int
    }
}

/// Capacity: of distinct blocks stored in an empty cache one after the
/// other, the cache keeps the `CACHE_SIZE` that were stored last, the last
/// one first in the order of use; the blocks stored before them were evicted,
/// the least recently used first. A lookup finds each kept block as it was
/// stored.
pub proof fn lemma_fill_keeps_most_recent(keys: Seq<u64>, blocks: Seq<BlockView>)
    requires
        keys.no_duplicates(),
        keys.len() == blocks.len(),
    ensures
        ({
            let c = filled(CacheView::empty(), keys, blocks);
            let n = keys.len() as int;
            &&& c.wf()
            &&& c.order.len() == kept(n)
            &&& forall|p: int| 0 <= p < kept(n) ==> c.order[p] == keys[n - 1 - p]
            &&& forall|i: int|
                0 <= i < n ==> c.lookup(#[trigger] keys[i]) == if i >= n - kept(n) {
                    Some(blocks[i])
                } else {
                    None
                }
        }),
    decreases keys.len(),
{
    let n = keys.len() as int;
    let c = filled(CacheView::empty(), keys, blocks);
    if n == 0 {
    } else {
        let rest = keys.drop_last();
        let rest_blocks = blocks.drop_last();
        let k = keys.last();
        let b = blocks.last();
        assert forall|x: int, y: int| 0 <= x < rest.len() && 0 <= y < rest.len() && x != y implies rest[x]
            != rest[y] by {
            assert(rest[x] == keys[x] && rest[y] == keys[y]);
        }
        lemma_fill_keeps_most_recent(rest, rest_blocks);
        let c0 = filled(CacheView::empty(), rest, rest_blocks);
        let m = n - 1;
        assert(c == c0.inserted(k, b));
        lemma_inserted(c0, k, b);
        lemma_evicted(c0);
        let room = c0.evicted();
        assert(!c0.order.contains(k)) by {
            if c0.order.contains(k) {
                let p = choose|p: int| 0 <= p < c0.order.len() && c0.order[p] == k;
                assert(c0.order[p] == rest[m - 1 - p]);
                assert(keys[m - 1 - p] == keys[n - 1]);
            }
        }
        assert(!room.order.contains(k)) by {
            if room.order.contains(k) {
                let p = choose|p: int| 0 <= p < room.order.len() && room.order[p] == k;
                assert(c0.order[p] == k);
            }
        }
        assert(drop_key(room.order, k) == room.order);
        assert(c.order == seq![k] + room.order);
        assert forall|p: int| 0 <= p < kept(n) implies c.order[p] == keys[n - 1 - p] by {
            if p > 0 {
                assert(c.order[p] == room.order[p - 1]);
                assert(room.order[p - 1] == c0.order[p - 1]);
                assert(c0.order[p - 1] == rest[m - 1 - (p - 1)]);
            }
        }
        assert forall|i: int| 0 <= i < n implies c.lookup(#[trigger] keys[i]) == if i >= n - kept(
            n,
        ) {
            Some(blocks[i])
        } else {
            None
        } by {
            if i == n - 1 {
            } else {
                assert(keys[i] == rest[i]);
                assert(keys[i] != k);
                assert(c0.lookup(rest[i]) == if i >= m - kept(m) {
                    Some(rest_blocks[i])
                } else {
                    None
                });
                assert(rest_blocks[i] == blocks[i]);
                if c0.order.len() >= CACHE_SIZE {
                    let last = c0.order.last();
                    assert(last == rest[m - 1 - (kept(m) - 1)]);
                    assert(last == keys[m - kept(m)]);
                    if i == m - kept(m) {
                    } else {
                        assert(keys[i] != last);
                    }
                }
            }
        }
    }
}

/// The block cache.
pub struct Cache {
    blocks: HashMap<u64, Block>,
    lru: VecDeque<u64>,
}

/// The first place at which `block_num` stands in `lru`.
fn position(lru: &VecDeque<u64>, block_num: u64) -> (r: Option<usize>)
    ensures
        match r {
            Some(i) => i < lru@.len() && lru@[i as int] == block_num,
            None => !lru@.contains(block_num),
        },
{
    let mut i: usize = 0;
    while i < lru.len()
        invariant
            i <= lru@.len(),
            forall|j: int| 0 <= j < i ==> lru@[j] != block_num,
        decreases lru@.len() - i,
    {
        if lru[i] == block_num {
            return Some(i);
        }
        i += 1;
    }
    None
}

impl View for Cache {
    type V = CacheView;

    closed spec fn view(&self) -> CacheView {
        CacheView { order: self.lru@, blocks: self.blocks@.map_values(|b: Block| b@) }
    }
}

impl Cache {
    /// The invariant of the cache: see `CacheView::wf`.
    pub open spec fn wf(&self) -> bool {
        self@.wf()
    }

    /// The empty cache.
    pub fn new() -> (cache: Cache)
        ensures
            cache.wf(),
            cache@ == CacheView::empty(),
    {
        let cache = Cache { blocks: HashMap::new(), lru: VecDeque::new() };
        assert(cache@.blocks =~= Map::empty());
        cache
    }

    /// Looks block `block_num` up. A cached block becomes the most recently
    /// used and a copy of it is returned; for a block that is not cached
    /// nothing changes.
    pub fn get(&mut self, block_num: u64) -> (r: Option<Block>)
        requires
            old(self).wf(),
        ensures
            final(self).wf(),
            final(self)@ == old(self)@.touched(block_num),
            match r {
                Some(b) => old(self)@.lookup(block_num) == Some(b@),
                None => old(self)@.lookup(block_num) is None,
            },
    {
        proof {
            lemma_touched(self@, block_num);
        }
        if let Some(index) = position(&self.lru, block_num) {
            proof {
                lemma_drop_key_at(self.lru@, block_num, index as int);
            }
            self.lru.remove(index);
            self.lru.push_front(block_num);
        }
        match self.blocks.get(&block_num) {
            Some(block) => Some(block.clone()),
            None => None,
        }
    }

    /// Stores `block` under `block_num`. A cache that is full first drops its
    /// least recently used block; then the stored block becomes the most
    /// recently used. Nothing is written anywhere else.
    pub fn insert(&mut self, block_num: u64, block: Block)
        requires
            old(self).wf(),
        ensures
            final(self).wf(),
            final(self)@ == old(self)@.inserted(block_num, block@),
    {
        proof {
            lemma_inserted(self@, block_num, block@);
            lemma_evicted(self@);
        }
        if self.lru.len() >= CACHE_SIZE {
            if let Some(evicted) = self.lru.pop_back() {
                self.blocks.remove(&evicted);
            }
        }
        assert(self@ =~= old(self)@.evicted()) by {
            assert(self@.blocks =~= old(self)@.evicted().blocks);
        }
        if let Some(index) = position(&self.lru, block_num) {
            proof {
                lemma_drop_key_at(self.lru@, block_num, index as int);
            }
            self.lru.remove(index);
        }
        let ghost stored = block@;
        self.blocks.insert(block_num, block);
        self.lru.push_front(block_num);
        assert(self@.blocks =~= old(self)@.evicted().blocks.insert(block_num, stored));
    }

    /// Takes block `block_num` out of the cache, wherever it stands in the
    /// order of use.
    pub fn remove(&mut self, block_num: u64)
        requires
            old(self).wf(),
        ensures
            final(self).wf(),
            final(self)@ == old(self)@.removed(block_num),
    {
        proof {
            lemma_removed(self@, block_num);
        }
        if let Some(index) = position(&self.lru, block_num) {
            proof {
                lemma_drop_key_at(self.lru@, block_num, index as int);
            }
            self.lru.remove(index);
        }
        self.blocks.remove(&block_num);
        assert(self@.blocks =~= old(self)@.blocks.remove(block_num));
    }
}

} // verus!
