//! What the engine knows about its image: which blocks form the chain of
//! which document, which blocks are free, and which were handed out.
use vstd::prelude::*;
use crate::block::BlockView;
use crate::chain::{chain_payload, is_chain, lemma_chain_frame};
use crate::disk::{
    block_at, block_count, grown, lemma_block_grown, lemma_block_written, with_slot,
};

verus! {

/// What the engine knows about its image.
pub struct Layout {
    /// The bytes of the image.
    pub image: Seq<u8>,
    /// The freed block numbers, oldest first.
    pub free: Seq<u64>,
    /// The first block of each document.
    pub index: Map<Seq<char>, u64>,
    /// The blocks of each document, in order.
    pub chains: Map<Seq<char>, Seq<u64>>,
    /// The blocks that were handed out and not freed since: each with the
    /// document whose chain it is part of, or none where it is part of no
    /// chain.
    pub owner: Map<u64, Option<Seq<char>>>,
}

impl Layout {
    /// Place `i` of the chain of `id`.
    pub open spec fn chained(self, id: Seq<char>, i: int) -> bool {
        self.chains.contains_key(id) && 0 <= i < self.chains[id].len()
    }

    /// The index and the chains speak of the same documents; each chain is a
    /// chain on the image and starts where the index says; each block of a
    /// chain is owned by that chain's document, so that no two chains share a
    /// block; no freed block is listed twice, is owned, or lies beyond the
    /// image; and no owned block lies beyond the image.
    pub open spec fn wf(self) -> bool {
        &&& forall|id: Seq<char>| self.index.contains_key(id) <==> self.chains.contains_key(id)
        &&& forall|id: Seq<char>| #[trigger]
            self.chains.contains_key(id) ==> is_chain(self.image, self.chains[id])
                && self.chains[id][0] == self.index[id]
        &&& forall|id: Seq<char>, i: int| #[trigger]
            self.chained(id, i) ==> self.owner.contains_key(self.chains[id][i])
                && self.owner[self.chains[id][i]] == Some(id)
        &&& self.free.no_duplicates()
        &&& forall|k: int|
            0 <= k < self.free.len() ==> !self.owner.contains_key(#[trigger] self.free[k])
                && self.free[k] < block_count(self.image)
        &&& forall|n: u64| #[trigger] self.owner.contains_key(n) ==> n < block_count(self.image)
    }

    /// The bytes stored under each identifier.
    pub open spec fn contents(self) -> Map<Seq<char>, Seq<u8>> {
        Map::new(
            |id: Seq<char>| self.chains.contains_key(id),
            |id: Seq<char>| chain_payload(self.image, self.chains[id]),
        )
    }

    /// The block `n` is part of no chain.
    pub open spec fn unchained(self, n: u64) -> bool {
        forall|id: Seq<char>, i: int| #[trigger] self.chained(id, i) ==> self.chains[id][i] != n
    }
}

/// A block that is not owned by a document is part of no chain.
pub proof fn lemma_unchained(l: Layout, n: u64)
    requires
        l.wf(),
        !l.owner.contains_key(n) || l.owner[n] is None,
    ensures
        l.unchained(n),
{
    assert forall|id: Seq<char>, i: int| #[trigger] l.chained(id, i) implies l.chains[id][i]
        != n by {
        assert(l.owner[l.chains[id][i]] == Some(id));
    }
}

/// A change of the image that leaves the blocks of every chain as they were,
/// and does not shorten the image, keeps the layout well formed and leaves
/// each document's bytes as they were.
pub proof fn lemma_layout_frame(l: Layout, image: Seq<u8>)
    requires
        l.wf(),
        block_count(image) >= block_count(l.image),
        forall|id: Seq<char>, i: int| #[trigger]
            l.chained(id, i) ==> block_at(image, l.chains[id][i]) == block_at(
                l.image,
                l.chains[id][i],
            ),
    ensures
        (Layout { image, ..l }).wf(),
        (Layout { image, ..l }).contents() == l.contents(),
{
    let m = Layout { image, ..l };
    assert forall|id: Seq<char>| #[trigger] m.chains.contains_key(id) implies is_chain(
        m.image,
        m.chains[id],
    ) && chain_payload(m.image, m.chains[id]) == chain_payload(l.image, l.chains[id]) by {
        let blocks = l.chains[id];
        assert forall|i: int| 0 <= i < blocks.len() implies block_at(image, #[trigger] blocks[i])
            == block_at(l.image, blocks[i]) by {
            assert(l.chained(id, i));
        }
        lemma_chain_frame(l.image, image, blocks);
    }
    assert forall|id: Seq<char>, i: int| #[trigger] m.chained(id, i) implies m.owner.contains_key(
        m.chains[id][i],
    ) && m.owner[m.chains[id][i]] == Some(id) by {
        assert(l.chained(id, i));
    }
    assert(m.contents() =~= l.contents());
}

/// Taking the oldest freed block off the list keeps the layout well formed;
/// that block is not owned, lies within the image, and is no longer listed.
pub proof fn lemma_take_free(l: Layout)
    requires
        l.wf(),
        l.free.len() > 0,
    ensures
        (Layout { free: l.free.drop_first(), ..l }).wf(),
        !l.owner.contains_key(l.free[0]),
        l.free[0] < block_count(l.image),
        !l.free.drop_first().contains(l.free[0]),
{
    let m = Layout { free: l.free.drop_first(), ..l };
    assert forall|k: int| 0 <= k < m.free.len() implies !m.owner.contains_key(#[trigger] m.free[k])
        && m.free[k] < block_count(m.image) by {
        assert(m.free[k] == l.free[k + 1]);
    }
    assert forall|a: int, b: int| 0 <= a < m.free.len() && 0 <= b < m.free.len() && a != b implies m.free[a]
        != m.free[b] by {
        assert(m.free[a] == l.free[a + 1]);
        assert(m.free[b] == l.free[b + 1]);
    }
    assert forall|id: Seq<char>, i: int| #[trigger] m.chained(id, i) implies m.owner.contains_key(
        m.chains[id][i],
    ) && m.owner[m.chains[id][i]] == Some(id) by {
        assert(l.chained(id, i));
    }
    if l.free.drop_first().contains(l.free[0]) {
        let k = choose|k: int| 0 <= k < m.free.len() && m.free[k] == l.free[0];
        assert(l.free[k + 1] == l.free[0]);
    }
}

/// Growing the image by one block keeps the layout well formed and each
/// document's bytes; the new block is not owned.
pub proof fn lemma_grow(l: Layout)
    requires
        l.wf(),
    ensures
        (Layout { image: grown(l.image), ..l }).wf(),
        (Layout { image: grown(l.image), ..l }).contents() == l.contents(),
        block_count(grown(l.image)) == block_count(l.image) + 1,
        forall|n: u64| n == block_count(l.image) ==> !l.owner.contains_key(n),
{
    lemma_block_grown(l.image);
    assert forall|id: Seq<char>, i: int| #[trigger] l.chained(id, i) implies block_at(
        grown(l.image),
        l.chains[id][i],
    ) == block_at(l.image, l.chains[id][i]) by {
        assert(l.owner.contains_key(l.chains[id][i]));
    }
    lemma_layout_frame(l, grown(l.image));
}

/// Recording a block that lies within the image, is not owned and is not
/// listed as free as handed out keeps the layout well formed.
pub proof fn lemma_reserve(l: Layout, n: u64)
    requires
        l.wf(),
        n < block_count(l.image),
        !l.owner.contains_key(n),
        !l.free.contains(n),
    ensures
        (Layout { owner: l.owner.insert(n, None), ..l }).wf(),
        (Layout { owner: l.owner.insert(n, None), ..l }).contents() == l.contents(),
{
    let m = Layout { owner: l.owner.insert(n, None), ..l };
    assert forall|id: Seq<char>, i: int| #[trigger] m.chained(id, i) implies m.owner.contains_key(
        m.chains[id][i],
    ) && m.owner[m.chains[id][i]] == Some(id) by {
        assert(l.chained(id, i));
    }
    assert forall|k: int| 0 <= k < m.free.len() implies !m.owner.contains_key(#[trigger] m.free[k])
        && m.free[k] < block_count(m.image) by {
        assert(l.free.contains(l.free[k]));
    }
    assert(m.contents() =~= l.contents());
}

/// Writing a block that fits into a slot that is part of no chain keeps the
/// layout well formed and each document's bytes.
pub proof fn lemma_store(l: Layout, n: u64, b: BlockView)
    requires
        l.wf(),
        l.unchained(n),
        n < block_count(l.image),
        b.fits(),
    ensures
        (Layout { image: with_slot(l.image, n as int, b.slot()), ..l }).wf(),
        (Layout { image: with_slot(l.image, n as int, b.slot()), ..l }).contents() == l.contents(),
        block_count(with_slot(l.image, n as int, b.slot())) == block_count(l.image),
{
    lemma_block_written(l.image, n, b);
    let image = with_slot(l.image, n as int, b.slot());
    assert forall|id: Seq<char>, i: int| #[trigger] l.chained(id, i) implies block_at(
        image,
        l.chains[id][i],
    ) == block_at(l.image, l.chains[id][i]) by {
        assert(l.owner.contains_key(l.chains[id][i]));
    }
    lemma_layout_frame(l, image);
}

/// The blocks of a chain that is being written were handed out and are part
/// of no chain yet.
pub open spec fn all_reserved(owner: Map<u64, Option<Seq<char>>>, blocks: Seq<u64>) -> bool {
    forall|i: int|
        0 <= i < blocks.len() ==> owner.contains_key(#[trigger] blocks[i])
            && owner[blocks[i]] is None
}

/// Blocks that were handed out stay so when more blocks are handed out, and
/// a block that is handed out was not handed out before.
pub proof fn lemma_reserved_more(
    before: Map<u64, Option<Seq<char>>>,
    after: Map<u64, Option<Seq<char>>>,
    blocks: Seq<u64>,
    n: u64,
)
    requires
        all_reserved(before, blocks),
        forall|m: u64| #[trigger]
            before.contains_key(m) ==> after.contains_key(m) && after[m] == before[m],
        !before.contains_key(n),
        after.contains_key(n),
        after[n] is None,
    ensures
        all_reserved(after, blocks.push(n)),
        !blocks.contains(n),
{
    let longer = blocks.push(n);
    assert forall|i: int| 0 <= i < longer.len() implies after.contains_key(#[trigger] longer[i])
        && after[longer[i]] is None by {
        if i < blocks.len() {
            assert(longer[i] == blocks[i]);
            assert(before.contains_key(blocks[i]));
        }
    }
    if blocks.contains(n) {
        let i = choose|i: int| 0 <= i < blocks.len() && blocks[i] == n;
        assert(before.contains_key(blocks[i]));
    }
}

/// The owners after the chain `blocks` is entered for `id`: its blocks are
/// owned by `id`, and what `id` owned before is owned by no document.
pub open spec fn owners_after_install(
    owner: Map<u64, Option<Seq<char>>>,
    id: Seq<char>,
    blocks: Seq<u64>,
) -> Map<u64, Option<Seq<char>>> {
    Map::new(
        |n: u64| owner.contains_key(n),
        |n: u64|
            if blocks.contains(n) {
                Some(id)
            } else if owner[n] == Some(id) {
                None
            } else {
                owner[n]
            },
    )
}

/// The layout after the chain `blocks` is entered for `id`.
pub open spec fn installed(l: Layout, id: Seq<char>, blocks: Seq<u64>) -> Layout {
    Layout {
        index: l.index.insert(id, blocks[0]),
        chains: l.chains.insert(id, blocks),
        owner: owners_after_install(l.owner, id, blocks),
        ..l
    }
}

/// Entering a chain of handed-out blocks that belong to no chain keeps the
/// layout well formed; the document then holds the chain's bytes and the
/// other documents hold what they held.
pub proof fn lemma_install(l: Layout, id: Seq<char>, blocks: Seq<u64>)
    requires
        l.wf(),
        is_chain(l.image, blocks),
        forall|i: int|
            0 <= i < blocks.len() ==> l.owner.contains_key(#[trigger] blocks[i])
                && l.owner[blocks[i]] is None,
    ensures
        installed(l, id, blocks).wf(),
        installed(l, id, blocks).contents() == l.contents().insert(
            id,
            chain_payload(l.image, blocks),
        ),
{
    let m = installed(l, id, blocks);
    assert forall|other: Seq<char>, i: int| #[trigger] m.chained(other, i) implies m.owner.contains_key(
        m.chains[other][i],
    ) && m.owner[m.chains[other][i]] == Some(other) by {
        if other == id {
            assert(blocks.contains(blocks[i]));
        } else {
            assert(l.chained(other, i));
            let n = l.chains[other][i];
            assert(l.owner[n] == Some(other));
            if blocks.contains(n) {
                let j = choose|j: int| 0 <= j < blocks.len() && blocks[j] == n;
                assert(l.owner[blocks[j]] is None);
            }
        }
    }
    assert forall|k: int| 0 <= k < m.free.len() implies !m.owner.contains_key(#[trigger] m.free[k])
        && m.free[k] < block_count(m.image) by {
        assert(!l.owner.contains_key(l.free[k]));
    }
    assert(m.contents() =~= l.contents().insert(id, chain_payload(l.image, blocks)));
}

/// The layout after the chain of `id` is taken out and its blocks are freed.
pub open spec fn uninstalled(l: Layout, id: Seq<char>) -> Layout {
    Layout {
        free: l.free + l.chains[id],
        index: l.index.remove(id),
        chains: l.chains.remove(id),
        owner: l.owner.remove_keys(l.chains[id].to_set()),
        ..l
    }
}

/// Taking a document's chain out and freeing its blocks keeps the layout
/// well formed; the other documents hold what they held.
pub proof fn lemma_uninstall(l: Layout, id: Seq<char>)
    requires
        l.wf(),
        l.chains.contains_key(id),
    ensures
        uninstalled(l, id).wf(),
        uninstalled(l, id).contents() == l.contents().remove(id),
{
    let m = uninstalled(l, id);
    let blocks = l.chains[id];
    assert(is_chain(l.image, blocks));
    assert forall|other: Seq<char>, i: int| #[trigger] m.chained(other, i) implies m.owner.contains_key(
        m.chains[other][i],
    ) && m.owner[m.chains[other][i]] == Some(other) by {
        assert(l.chained(other, i));
        let n = l.chains[other][i];
        if blocks.to_set().contains(n) {
            let j = choose|j: int| 0 <= j < blocks.len() && blocks[j] == n;
            assert(l.chained(id, j));
        }
    }
    assert forall|k: int| 0 <= k < m.free.len() implies !m.owner.contains_key(#[trigger] m.free[k])
        && m.free[k] < block_count(m.image) by {
        if k < l.free.len() {
            assert(m.free[k] == l.free[k]);
        } else {
            let j = k - l.free.len();
            assert(m.free[k] == blocks[j]);
            assert(l.chained(id, j));
            assert(blocks.to_set().contains(blocks[j]));
        }
    }
    assert forall|a: int, b: int| 0 <= a < m.free.len() && 0 <= b < m.free.len() && a != b implies m.free[a]
        != m.free[b] by {
        let fa = m.free[a];
        let fb = m.free[b];
        if a < l.free.len() && b < l.free.len() {
            assert(fa == l.free[a] && fb == l.free[b]);
        } else if a >= l.free.len() && b >= l.free.len() {
            assert(fa == blocks[a - l.free.len()] && fb == blocks[b - l.free.len()]);
        } else if a < l.free.len() {
            assert(fa == l.free[a]);
            assert(fb == blocks[b - l.free.len()]);
            assert(l.chained(id, b - l.free.len()));
        } else {
            assert(fb == l.free[b]);
            assert(fa == blocks[a - l.free.len()]);
            assert(l.chained(id, a - l.free.len()));
        }
    }
    assert(m.contents() =~= l.contents().remove(id));
}

} // verus!
