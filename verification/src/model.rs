//! The storage engine as a mathematical value, the steps that its
//! operations take on that value, and what follows from them.
use vstd::prelude::*;
use vstd::utf8::encode_utf8;
use crate::block::{BLOCK_SIZE, MAX_ID_BYTES, PAYLOAD_CAPACITY};
use crate::chain::{
    blocks_needed, is_chain, lemma_blocks_enough, lemma_blocks_more, lemma_blocks_needed,
};
use crate::disk::{block_count, max_image_len};
use crate::error::StorageError;
use crate::layout::Layout;

verus! {

/// What the storage engine holds, as far as its callers can tell.
#[verifier::ext_equal]
pub struct EngineView {
    /// The bytes stored under each identifier.
    pub contents: Map<Seq<char>, Seq<u8>>,
    /// The numbers of the blocks that hold each document, in order.
    pub chains: Map<Seq<char>, Seq<u64>>,
    /// The freed block numbers, oldest first.
    pub free: Seq<u64>,
    /// The number of whole blocks in the image.
    pub blocks: nat,
}

/// The largest number of whole blocks in an image.
pub open spec fn max_blocks() -> nat {
    max_image_len() / (BLOCK_SIZE as nat)
}

impl EngineView {
    /// The engine that holds no document, over an image of `blocks` blocks.
    pub open spec fn fresh(blocks: nat) -> EngineView {
        EngineView { contents: Map::empty(), chains: Map::empty(), free: Seq::empty(), blocks }
    }

    /// Place `i` of the chain of `id`.
    pub open spec fn chained(self, id: Seq<char>, i: int) -> bool {
        self.chains.contains_key(id) && 0 <= i < self.chains[id].len()
    }

    /// The documents that have bytes are those that have a chain; a chain has
    /// at least one block and no block twice; no two chains share a block;
    /// no block of a chain is listed as free; no freed block is listed twice;
    /// and every block of a chain and every freed block lies within the image.
    pub open spec fn wf(self) -> bool {
        &&& forall|id: Seq<char>| self.contents.contains_key(id) <==> self.chains.contains_key(id)
        &&& forall|id: Seq<char>| #[trigger]
            self.chains.contains_key(id) ==> self.chains[id].len() > 0
                && self.chains[id].no_duplicates()
        &&& forall|a: Seq<char>, i: int, b: Seq<char>, j: int|
            #[trigger] self.chained(a, i) && #[trigger] self.chained(b, j) && a != b
                ==> self.chains[a][i] != self.chains[b][j]
        &&& forall|id: Seq<char>, i: int| #[trigger]
            self.chained(id, i) ==> self.chains[id][i] < self.blocks && !self.free.contains(
                self.chains[id][i],
            )
        &&& self.free.no_duplicates()
        &&& forall|k: int| 0 <= k < self.free.len() ==> #[trigger] self.free[k] < self.blocks
    }

    /// What a read of `id` returns: the bytes stored under it, or nothing.
    pub open spec fn lookup(self, id: Seq<char>) -> Option<Seq<u8>> {
        if self.contents.contains_key(id) {
            Some(self.contents[id])
        } else {
            None
        }
    }

    /// How many blocks can be handed out before the image would have to grow
    /// beyond its largest length: the freed ones, and those by which the
    /// image can still grow.
    pub open spec fn grantable(self) -> nat {
        self.free.len() + if self.blocks <= max_blocks() {
            (max_blocks() - self.blocks) as nat
        } else {
            0
        }
    }

    /// The `i`-th block number that is handed out from here: the freed
    /// blocks first, oldest first, then the blocks past the end of the image.
    pub open spec fn handed_out(self, i: int) -> u64 {
        if i < self.free.len() {
            self.free[i]
        } else {
            (self.blocks + (i - self.free.len())) as u64
        }
    }

    /// The first `k` block numbers that are handed out from here.
    pub open spec fn allocation(self, k: nat) -> Seq<u64> {
        Seq::new(k, |i: int| self.handed_out(i))
    }

    /// The engine after `k` block numbers have been handed out.
    pub open spec fn after_allocation(self, k: nat) -> EngineView {
        if k <= self.free.len() {
            EngineView { free: self.free.skip(k as int), ..self }
        } else {
            EngineView {
                free: Seq::empty(),
                blocks: (self.blocks + (k - self.free.len())) as nat,
                ..self
            }
        }
    }

    /// How a write of `data` under `id` ends. Empty data are accepted and
    /// change nothing. Otherwise a first block is asked for, which fails if
    /// none can be handed out; then the identifier must be short enough for a
    /// header; then all the blocks that the data need must be had.
    pub open spec fn write_outcome(self, id: Seq<char>, data: Seq<u8>) -> Result<
        (),
        StorageError,
    > {
        if data.len() == 0 {
            Ok(())
        } else if self.grantable() == 0 {
            Err(StorageError::ResizeFailed)
        } else if encode_utf8(id).len() > MAX_ID_BYTES {
            Err(StorageError::InvalidData)
        } else if blocks_needed(data.len()) > self.grantable() {
            Err(StorageError::ResizeFailed)
        } else {
            Ok(())
        }
    }

    /// How many pieces of `data` a write under `id` writes to the image
    /// before it ends: all of them when it succeeds, none when the identifier
    /// is too long, and as many as blocks can be had when these run out.
    pub open spec fn pieces_written(self, id: Seq<char>, data: Seq<u8>) -> nat {
        if data.len() == 0 {
            0
        } else {
            match self.write_outcome(id, data) {
                Ok(_) => blocks_needed(data.len()),
                Err(StorageError::InvalidData) => 0,
                Err(_) => self.grantable(),
            }
        }
    }

    /// The engine after a write of `data` under `id`. A write that succeeds
    /// with data that are not empty enters a chain of newly handed-out blocks
    /// for `id`, in place of any chain that `id` had, whose blocks are then
    /// neither part of a chain nor free. A write that fails keeps the blocks
    /// that were handed out before it failed, and every document as it was.
    pub open spec fn written(self, id: Seq<char>, data: Seq<u8>) -> EngineView {
        if data.len() == 0 {
            self
        } else {
            match self.write_outcome(id, data) {
                Ok(_) => {
                    let k = blocks_needed(data.len());
                    EngineView {
                        contents: self.contents.insert(id, data),
                        chains: self.chains.insert(id, self.allocation(k)),
                        ..self.after_allocation(k)
                    }
                },
                Err(StorageError::InvalidData) => self.after_allocation(1),
                Err(_) => self.after_allocation(self.grantable()),
            }
        }
    }

    /// The engine after `id` is deleted: its document is gone and the blocks
    /// of its chain are freed, in the order of the chain.
    pub open spec fn deleted(self, id: Seq<char>) -> EngineView {
        if self.chains.contains_key(id) {
            EngineView {
                contents: self.contents.remove(id),
                chains: self.chains.remove(id),
                free: self.free + self.chains[id],
                ..self
            }
        } else {
            self
        }
    }
}

/// What callers can tell of a layout.
pub open spec fn view_of(l: Layout) -> EngineView {
    EngineView {
        contents: l.contents(),
        chains: l.chains,
        free: l.free,
        blocks: block_count(l.image),
    }
}

/// What callers can tell of a well-formed layout is well formed.
pub proof fn lemma_view_wf(l: Layout)
    requires
        l.wf(),
    ensures
        view_of(l).wf(),
{
    let v = view_of(l);
    assert forall|id: Seq<char>| #[trigger] v.chains.contains_key(id) implies v.chains[id].len() > 0
        && v.chains[id].no_duplicates() by {
        assert(is_chain(l.image, l.chains[id]));
    }
    assert forall|a: Seq<char>, i: int, b: Seq<char>, j: int|
        #[trigger] v.chained(a, i) && #[trigger] v.chained(b, j) && a != b implies v.chains[a][i]
        != v.chains[b][j] by {
        assert(l.chained(a, i));
        assert(l.chained(b, j));
    }
    assert forall|id: Seq<char>, i: int| #[trigger] v.chained(id, i) implies v.chains[id][i]
        < v.blocks && !v.free.contains(v.chains[id][i]) by {
        assert(l.chained(id, i));
        let n = l.chains[id][i];
        assert(l.owner.contains_key(n));
        if l.free.contains(n) {
            let k = choose|k: int| 0 <= k < l.free.len() && l.free[k] == n;
            assert(!l.owner.contains_key(l.free[k]));
        }
    }
}

/// Handing out one more block after `j` blocks is handing out `j + 1`
/// blocks: the block is the `j`-th one, and one fewer can be had afterwards.
pub proof fn lemma_allocation_step(s: EngineView, j: nat)
    requires
        j <= s.grantable(),
    ensures
        s.after_allocation(j).grantable() == s.grantable() - j,
        s.after_allocation(j).handed_out(0) == s.handed_out(j as int),
        j < s.grantable() ==> s.after_allocation(j).after_allocation(1) == s.after_allocation(
            j + 1,
        ),
        s.after_allocation(j).contents == s.contents,
        s.after_allocation(j).chains == s.chains,
{
    let t = s.after_allocation(j);
    if j < s.grantable() {
        if j < s.free.len() {
            assert(s.free.skip(j as int).skip(1) =~= s.free.skip(j as int + 1));
        }
        assert(t.after_allocation(1) =~= s.after_allocation(j + 1));
    }
}

/// How far a write of `data` under `id` has come when it has written `j`
/// pieces: `j` blocks were handed out, and no document has changed yet.
pub open spec fn write_progress(
    pre: EngineView,
    now: EngineView,
    id: Seq<char>,
    data: Seq<u8>,
    j: nat,
) -> bool {
    &&& now == pre.after_allocation(j)
    &&& j <= pre.grantable()
    &&& j <= blocks_needed(data.len())
    &&& j > 0 ==> encode_utf8(id).len() <= MAX_ID_BYTES
}

/// A write that cannot have its next block, or whose identifier is found
/// too long when its first block is written, ends as `write_outcome` and
/// `written` say.
pub proof fn lemma_write_stops(
    pre: EngineView,
    now: EngineView,
    after: EngineView,
    id: Seq<char>,
    data: Seq<u8>,
    j: nat,
    e: StorageError,
)
    requires
        write_progress(pre, now, id, data, j),
        j * PAYLOAD_CAPACITY < data.len(),
        if now.grantable() == 0 {
            e == StorageError::ResizeFailed && after == now
        } else {
            &&& e == StorageError::InvalidData
            &&& encode_utf8(id).len() > MAX_ID_BYTES
            &&& after == now.after_allocation(1)
        },
    ensures
        pre.write_outcome(id, data) == Err::<(), StorageError>(e),
        after == pre.written(id, data),
        pre.pieces_written(id, data) == j,
{
    lemma_blocks_needed(data.len());
    lemma_allocation_step(pre, j);
    lemma_blocks_more(data.len(), j);
    if now.grantable() == 0 {
        assert(pre.grantable() == j);
    } else {
        assert(j == 0);
        assert(pre.after_allocation(0) =~= pre);
    }
}

/// A write that has written one more piece has come one step further, and
/// the block it was given is the next one that the engine hands out.
pub proof fn lemma_write_continues(
    pre: EngineView,
    now: EngineView,
    after: EngineView,
    id: Seq<char>,
    data: Seq<u8>,
    j: nat,
)
    requires
        write_progress(pre, now, id, data, j),
        j * PAYLOAD_CAPACITY < data.len(),
        now.grantable() >= 1,
        encode_utf8(id).len() <= MAX_ID_BYTES,
        after == now.after_allocation(1),
    ensures
        write_progress(pre, after, id, data, j + 1),
        now.handed_out(0) == pre.handed_out(j as int),
{
    lemma_blocks_needed(data.len());
    lemma_blocks_more(data.len(), j);
    lemma_allocation_step(pre, j);
}

/// A write that has written all its pieces succeeds, and what it leaves is
/// what `written` says once the chain is entered for the identifier.
pub proof fn lemma_write_done(
    pre: EngineView,
    now: EngineView,
    id: Seq<char>,
    data: Seq<u8>,
    j: nat,
)
    requires
        write_progress(pre, now, id, data, j),
        data.len() > 0,
        j * PAYLOAD_CAPACITY >= data.len(),
    ensures
        j == blocks_needed(data.len()),
        pre.pieces_written(id, data) == j,
        pre.write_outcome(id, data) is Ok,
        pre.written(id, data) == (EngineView {
            contents: now.contents.insert(id, data),
            chains: now.chains.insert(id, pre.allocation(j)),
            ..now
        }),
{
    lemma_blocks_needed(data.len());
    lemma_blocks_enough(data.len(), j);
    lemma_allocation_step(pre, j);
}

/// The blocks that are handed out are distinct, lie within the image as it
/// is afterwards, are part of no chain, and are no longer listed as free.
pub proof fn lemma_allocation(s: EngineView, k: nat)
    requires
        s.wf(),
        k <= s.grantable(),
    ensures
        s.after_allocation(k).wf(),
        s.allocation(k).no_duplicates(),
        forall|i: int|
            0 <= i < k ==> (#[trigger] s.allocation(k)[i]) < s.after_allocation(k).blocks
                && !s.after_allocation(k).free.contains(s.allocation(k)[i]),
        forall|id: Seq<char>, j: int, i: int|
            #[trigger] s.chained(id, j) && 0 <= i < k ==> s.chains[id][j]
                != #[trigger] s.allocation(k)[i],
{
    let t = s.after_allocation(k);
    let a = s.allocation(k);
    let f = s.free.len();
    assert forall|i: int| 0 <= i < k implies a[i] == s.handed_out(i) by {}
    assert forall|x: int, y: int| 0 <= x < k && 0 <= y < k && x != y implies a[x] != a[y] by {
        if x < f && y >= f {
            assert(s.free[x] < s.blocks);
        }
        if y < f && x >= f {
            assert(s.free[y] < s.blocks);
        }
    }
    assert forall|i: int| 0 <= i < k implies (#[trigger] a[i]) < t.blocks && !t.free.contains(
        a[i],
    ) by {
        if i < f {
            assert(s.free[i] < s.blocks);
            if t.free.contains(a[i]) {
                let m = choose|m: int| 0 <= m < t.free.len() && t.free[m] == a[i];
                assert(t.free[m] == s.free[m + k]);
            }
        }
    }
    assert forall|id: Seq<char>, j: int, i: int| #[trigger]
        s.chained(id, j) && 0 <= i < k implies s.chains[id][j] != #[trigger] a[i] by {
        if i < f {
            assert(s.free.contains(s.free[i]));
        }
    }
    assert forall|id: Seq<char>, i: int| #[trigger] t.chained(id, i) implies t.chains[id][i]
        < t.blocks && !t.free.contains(t.chains[id][i]) by {
        assert(s.chained(id, i));
        if t.free.contains(t.chains[id][i]) {
            let m = choose|m: int| 0 <= m < t.free.len() && t.free[m] == t.chains[id][i];
            assert(t.free[m] == s.free[m + k]);
            assert(s.free.contains(s.free[m + k]));
        }
    }
    assert forall|a: Seq<char>, i: int, b: Seq<char>, j: int|
        #[trigger] t.chained(a, i) && #[trigger] t.chained(b, j) && a != b implies t.chains[a][i]
        != t.chains[b][j] by {
        assert(s.chained(a, i) && s.chained(b, j));
    }
    if k <= f {
        assert forall|x: int, y: int|
            0 <= x < t.free.len() && 0 <= y < t.free.len() && x != y implies t.free[x]
            != t.free[y] by {
            assert(t.free[x] == s.free[x + k]);
            assert(t.free[y] == s.free[y + k]);
        }
        assert forall|m: int| 0 <= m < t.free.len() implies #[trigger] t.free[m] < t.blocks by {
            assert(t.free[m] == s.free[m + k]);
        }
    }
}

/// A write keeps the engine well formed, however it ends.
pub proof fn lemma_written_wf(s: EngineView, id: Seq<char>, data: Seq<u8>)
    requires
        s.wf(),
    ensures
        s.written(id, data).wf(),
{
    if data.len() > 0 {
        lemma_blocks_needed(data.len());
        match s.write_outcome(id, data) {
            Ok(_) => {
                let k = blocks_needed(data.len());
                lemma_allocation(s, k);
                let t = s.written(id, data);
                let a = s.allocation(k);
                assert forall|x: Seq<char>, i: int, y: Seq<char>, j: int|
                    #[trigger] t.chained(x, i) && #[trigger] t.chained(y, j) && x
                        != y implies t.chains[x][i] != t.chains[y][j] by {
                    if x == id {
                        assert(s.chained(y, j));
                        assert(s.chains[y][j] != a[i]);
                    } else if y == id {
                        assert(s.chained(x, i));
                        assert(s.chains[x][i] != a[j]);
                    } else {
                        assert(s.chained(x, i) && s.chained(y, j));
                    }
                }
                assert forall|x: Seq<char>, i: int| #[trigger] t.chained(x, i) implies t.chains[x][i]
                    < t.blocks && !t.free.contains(t.chains[x][i]) by {
                    if x == id {
                        assert(a[i] < t.blocks);
                    } else {
                        assert(s.after_allocation(k).chained(x, i));
                    }
                }
            },
            Err(StorageError::InvalidData) => {
                lemma_allocation(s, 1);
            },
            Err(_) => {
                lemma_allocation(s, s.grantable());
            },
        }
    }
}

/// A delete keeps the engine well formed.
pub proof fn lemma_deleted_wf(s: EngineView, id: Seq<char>)
    requires
        s.wf(),
    ensures
        s.deleted(id).wf(),
{
    if s.chains.contains_key(id) {
        let t = s.deleted(id);
        let chain = s.chains[id];
        let f = s.free.len();
        assert forall|x: int, y: int|
            0 <= x < t.free.len() && 0 <= y < t.free.len() && x != y implies t.free[x]
            != t.free[y] by {
            if x >= f {
                assert(s.chained(id, x - f));
            }
            if y >= f {
                assert(s.chained(id, y - f));
            }
            if x < f {
                assert(s.free.contains(s.free[x]));
            }
            if y < f {
                assert(s.free.contains(s.free[y]));
            }
        }
        assert forall|m: int| 0 <= m < t.free.len() implies #[trigger] t.free[m] < t.blocks by {
            if m >= f {
                assert(s.chained(id, m - f));
            }
        }
        assert forall|x: Seq<char>, i: int| #[trigger] t.chained(x, i) implies t.chains[x][i]
            < t.blocks && !t.free.contains(t.chains[x][i]) by {
            assert(s.chained(x, i));
            if t.free.contains(t.chains[x][i]) {
                let m = choose|m: int| 0 <= m < t.free.len() && t.free[m] == t.chains[x][i];
                if m < f {
                    assert(s.free.contains(s.free[m]));
                } else {
                    assert(s.chained(id, m - f));
                }
            }
        }
        assert forall|x: Seq<char>, i: int, y: Seq<char>, j: int|
            #[trigger] t.chained(x, i) && #[trigger] t.chained(y, j) && x != y implies t.chains[x][i]
            != t.chains[y][j] by {
            assert(s.chained(x, i) && s.chained(y, j));
        }
    }
}

/// Round trip: after a write of data that are not empty has succeeded, a
/// read of the same identifier returns exactly those data.
pub proof fn lemma_write_then_read(s: EngineView, id: Seq<char>, data: Seq<u8>)
    requires
        data.len() >= 1,
        s.write_outcome(id, data) is Ok,
    ensures
        s.written(id, data).lookup(id) == Some(data),
{
}

/// Chaining: data longer than one block's payload are stored in a chain of
/// more than one block, as many as the data need, and are read back whole.
pub proof fn lemma_long_write_chains(s: EngineView, id: Seq<char>, data: Seq<u8>)
    requires
        data.len() > PAYLOAD_CAPACITY,
        s.write_outcome(id, data) is Ok,
    ensures
        s.written(id, data).chains[id].len() > 1,
        s.written(id, data).chains[id].len() == blocks_needed(data.len()),
        s.written(id, data).lookup(id) == Some(data),
{
    lemma_blocks_needed(data.len());
    lemma_blocks_more(data.len(), 1);
}

/// Not found: an engine that was just made holds nothing under any
/// identifier, and a write or a delete under one identifier does not change
/// what a read of another returns.
pub proof fn lemma_read_absent(
    s: EngineView,
    blocks: nat,
    id: Seq<char>,
    other: Seq<char>,
    data: Seq<u8>,
)
    requires
        id != other,
    ensures
        EngineView::fresh(blocks).lookup(id) is None,
        s.written(other, data).lookup(id) == s.lookup(id),
        s.deleted(other).lookup(id) == s.lookup(id),
{
}

/// Delete then read: after a delete a read of the same identifier finds
/// nothing, and the blocks of the deleted chain stand at the end of the list
/// of freed blocks, in the order of the chain.
pub proof fn lemma_delete_then_read(s: EngineView, id: Seq<char>)
    requires
        s.wf(),
    ensures
        s.deleted(id).lookup(id) is None,
        s.chains.contains_key(id) ==> s.deleted(id).free == s.free + s.chains[id],
        s.deleted(id).blocks == s.blocks,
{
}

/// Reuse: a write that succeeds takes its blocks from the list of freed
/// blocks, oldest first, as far as that list reaches, and the image grows
/// only by the blocks that the list could not give. After a delete from an
/// engine without freed blocks, the next write therefore reuses the blocks of
/// the deleted chain, in the order of that chain.
pub proof fn lemma_freed_blocks_reused(
    s: EngineView,
    id: Seq<char>,
    other: Seq<char>,
    data: Seq<u8>,
)
    requires
        s.wf(),
        data.len() >= 1,
        s.write_outcome(other, data) is Ok,
    ensures
        forall|i: int|
            0 <= i < blocks_needed(data.len()) && i < s.free.len() ==> s.written(
                other,
                data,
            ).chains[other][i] == s.free[i],
        blocks_needed(data.len()) <= s.free.len() ==> s.written(other, data).blocks == s.blocks,
        blocks_needed(data.len()) > s.free.len() ==> s.written(other, data).blocks == s.blocks
            + blocks_needed(data.len()) - s.free.len(),
        s.chains.contains_key(id) && s.free.len() == 0 && s.deleted(id).write_outcome(other, data)
            is Ok ==> forall|i: int|
            0 <= i < blocks_needed(data.len()) && i < s.chains[id].len() ==> s.deleted(
                id,
            ).written(other, data).chains[other][i] == s.chains[id][i],
{
    if s.chains.contains_key(id) && s.free.len() == 0 && s.deleted(id).write_outcome(other, data)
        is Ok {
        let t = s.deleted(id);
        assert(t.free =~= s.chains[id]);
        assert forall|i: int|
            0 <= i < blocks_needed(data.len()) && i < s.chains[id].len() implies t.written(
            other,
            data,
        ).chains[other][i] == s.chains[id][i] by {
            assert(t.allocation(blocks_needed(data.len()))[i] == t.handed_out(i));
        }
    }
}

/// Independence: two writes under two different identifiers give two chains
/// that share no block; each document reads back as it was written, and
/// still does after the other one is deleted.
pub proof fn lemma_writes_independent(
    s: EngineView,
    a: Seq<char>,
    x: Seq<u8>,
    b: Seq<char>,
    y: Seq<u8>,
)
    requires
        s.wf(),
        a != b,
        x.len() >= 1,
        y.len() >= 1,
        s.write_outcome(a, x) is Ok,
        s.written(a, x).write_outcome(b, y) is Ok,
    ensures
        ({
            let u = s.written(a, x).written(b, y);
            &&& u.wf()
            &&& u.lookup(a) == Some(x)
            &&& u.lookup(b) == Some(y)
            &&& forall|i: int, j: int|
                0 <= i < u.chains[a].len() && 0 <= j < u.chains[b].len() ==> u.chains[a][i]
                    != u.chains[b][j]
            &&& u.deleted(b).lookup(a) == Some(x)
            &&& u.deleted(a).lookup(b) == Some(y)
        }),
{
    let t = s.written(a, x);
    let u = t.written(b, y);
    lemma_written_wf(s, a, x);
    lemma_written_wf(t, b, y);
    assert forall|i: int, j: int|
        0 <= i < u.chains[a].len() && 0 <= j < u.chains[b].len() implies u.chains[a][i]
        != u.chains[b][j] by {
        assert(u.chained(a, i) && u.chained(b, j));
    }
}

} // verus!
