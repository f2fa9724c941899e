//! Chains of blocks on the image, and how data are cut into the pieces that
//! the blocks of a chain hold.
use vstd::prelude::*;
use vstd::arithmetic::div_mod::{
    lemma_div_pos_is_pos, lemma_fundamental_div_mod, lemma_mod_pos_bound,
};
use vstd::utf8::encode_utf8;
use crate::block::{lemma_slot_round_trip, padded, BlockView, MAX_ID_BYTES, PAYLOAD_CAPACITY};
use crate::disk::{block_at, block_count, slot_at};

verus! {

/// The successor of the block at place `i` of a chain.
pub open spec fn link(blocks: Seq<u64>, i: int) -> Option<u64> {
    if i + 1 < blocks.len() {
        Some(blocks[i + 1])
    } else {
        None
    }
}

/// The block at place `i` of `blocks` reads from the image and names the
/// block at place `i + 1` as its successor, or none at the end.
pub open spec fn linked(image: Seq<u8>, blocks: Seq<u64>, i: int) -> bool {
    match block_at(image, blocks[i]) {
        Some(b) => b.next == link(blocks, i),
        None => false,
    }
}

/// `blocks` is a chain on the image: at least one block, none twice, each
/// pointing to the one after it and the last one to none.
pub open spec fn is_chain(image: Seq<u8>, blocks: Seq<u64>) -> bool {
    &&& blocks.len() > 0
    &&& blocks.no_duplicates()
    &&& forall|i: int| 0 <= i < blocks.len() ==> #[trigger] linked(image, blocks, i)
}

/// The meaningful payload of block `n` of the image.
pub open spec fn payload_at(image: Seq<u8>, n: u64) -> Seq<u8> {
    match block_at(image, n) {
        Some(b) => b.payload(),
        None => Seq::empty(),
    }
}

/// The bytes that a chain holds: the meaningful payloads of its blocks, in
/// order.
pub open spec fn chain_payload(image: Seq<u8>, blocks: Seq<u64>) -> Seq<u8>
    decreases blocks.len(),
{
    if blocks.len() == 0 {
        Seq::empty()
    } else {
        chain_payload(image, blocks.drop_last()) + payload_at(image, blocks.last())
    }
}

/// A chain and its bytes depend on the blocks of the chain only.
pub proof fn lemma_chain_frame(a: Seq<u8>, b: Seq<u8>, blocks: Seq<u64>)
    requires
        forall|i: int|
            0 <= i < blocks.len() ==> block_at(b, #[trigger] blocks[i]) == block_at(a, blocks[i]),
    ensures
        is_chain(a, blocks) == is_chain(b, blocks),
        chain_payload(a, blocks) == chain_payload(b, blocks),
    decreases blocks.len(),
{
    assert forall|i: int| 0 <= i < blocks.len() implies linked(a, blocks, i) == linked(
        b,
        blocks,
        i,
    ) by {
        assert(block_at(b, blocks[i]) == block_at(a, blocks[i]));
    }
    if is_chain(a, blocks) {
        assert forall|i: int| 0 <= i < blocks.len() implies #[trigger] linked(b, blocks, i) by {
            assert(linked(a, blocks, i));
        }
    }
    if is_chain(b, blocks) {
        assert forall|i: int| 0 <= i < blocks.len() implies #[trigger] linked(a, blocks, i) by {
            assert(linked(b, blocks, i));
        }
    }
    if blocks.len() > 0 {
        let rest = blocks.drop_last();
        assert forall|i: int| 0 <= i < rest.len() implies block_at(b, #[trigger] rest[i])
            == block_at(a, rest[i]) by {
            assert(rest[i] == blocks[i]);
        }
        lemma_chain_frame(a, b, rest);
        assert(blocks.last() == blocks[blocks.len() - 1]);
    }
}

/// The number of blocks that hold `len` bytes.
pub open spec fn blocks_needed(len: nat) -> nat {
    ((len + PAYLOAD_CAPACITY - 1) / (PAYLOAD_CAPACITY as int)) as nat
}

/// The `i`-th piece of `data` when it is cut into pieces of
/// `PAYLOAD_CAPACITY` bytes, the last one possibly shorter.
pub open spec fn chunk(data: Seq<u8>, i: int) -> Seq<u8> {
    data.subrange(
        i * PAYLOAD_CAPACITY,
        if (i + 1) * PAYLOAD_CAPACITY <= data.len() {
            (i + 1) * PAYLOAD_CAPACITY
        } else {
            data.len() as int
        },
    )
}

/// The block at place `i` of the chain `blocks` that holds `data` for `id`,
/// as it reads from its slot.
pub open spec fn chain_block(id: Seq<char>, data: Seq<u8>, blocks: Seq<u64>, i: int) -> BlockView {
    BlockView {
        id,
        size: chunk(data, i).len(),
        next: link(blocks, i),
        data: padded(chunk(data, i), PAYLOAD_CAPACITY as nat),
    }
}

/// The first `j` blocks of the chain that holds `data` are on the image.
#[verifier::opaque]
pub open spec fn holds_prefix(
    image: Seq<u8>,
    id: Seq<char>,
    data: Seq<u8>,
    blocks: Seq<u64>,
    j: int,
) -> bool {
    forall|i: int|
        0 <= i < j ==> block_at(image, #[trigger] blocks[i]) == Some(
            chain_block(id, data, blocks, i),
        )
}

/// The quotient of `len + c - 1` by `c` is the least number of pieces of
/// `c` bytes that hold `len` bytes.
proof fn lemma_ceiling(len: int, c: int)
    requires
        len >= 0,
        c > 0,
    ensures
        ({
            let k = (len + c - 1) / c;
            &&& k >= 0
            &&& k * c >= len
            &&& len > 0 ==> k >= 1 && (k - 1) * c < len
            &&& len == 0 ==> k == 0
        }),
{
    let x = len + c - 1;
    let k = x / c;
    lemma_fundamental_div_mod(x, c);
    lemma_mod_pos_bound(x, c);
    lemma_div_pos_is_pos(x, c);
    assert(k * c == c * k) by (nonlinear_arith);
    assert((k - 1) * c == k * c - c) by (nonlinear_arith);
    if len == 0 {
        assert(k == 0) by (nonlinear_arith)
            requires
                k >= 0,
                c > 0,
                c * k <= c - 1,
        ;
    } else {
        assert(k >= 1) by (nonlinear_arith)
            requires
                k >= 0,
                c > 0,
                k * c >= len,
                len > 0,
        ;
    }
}

/// The blocks needed for `len` bytes are just enough to hold them.
pub proof fn lemma_blocks_needed(len: nat)
    ensures
        blocks_needed(len) * PAYLOAD_CAPACITY >= len,
        len > 0 ==> blocks_needed(len) >= 1 && (blocks_needed(len) - 1) * PAYLOAD_CAPACITY < len,
        len == 0 ==> blocks_needed(len) == 0,
{
    lemma_ceiling(len as int, PAYLOAD_CAPACITY as int);
}

/// Bytes that `j` blocks cannot hold need more than `j` blocks.
pub proof fn lemma_blocks_more(len: nat, j: nat)
    requires
        j * PAYLOAD_CAPACITY < len,
    ensures
        j < blocks_needed(len),
{
    lemma_ceiling(len as int, PAYLOAD_CAPACITY as int);
    let k = blocks_needed(len) as int;
    let c = PAYLOAD_CAPACITY as int;
    assert(j < k) by (nonlinear_arith)
        requires
            j * c < k * c,
            c > 0,
    ;
}

/// Bytes that `j` blocks can hold need no more than `j` blocks.
pub proof fn lemma_blocks_at_most(len: nat, j: nat)
    requires
        len <= j * PAYLOAD_CAPACITY,
    ensures
        blocks_needed(len) <= j,
{
    lemma_ceiling(len as int, PAYLOAD_CAPACITY as int);
    let k = blocks_needed(len) as int;
    let c = PAYLOAD_CAPACITY as int;
    if len > 0 {
        assert(k - 1 < j) by (nonlinear_arith)
            requires
                (k - 1) * c < j * c,
                c > 0,
        ;
    }
}

/// Bytes that `j` blocks can hold, but no fewer, need `j` blocks.
pub proof fn lemma_blocks_enough(len: nat, j: nat)
    requires
        len > 0,
        j * PAYLOAD_CAPACITY >= len,
        j <= blocks_needed(len),
    ensures
        j == blocks_needed(len),
{
    lemma_ceiling(len as int, PAYLOAD_CAPACITY as int);
    let k = blocks_needed(len) as int;
    let c = PAYLOAD_CAPACITY as int;
    assert(j > k - 1) by (nonlinear_arith)
        requires
            j * c > (k - 1) * c,
            c > 0,
    ;
}

/// The end of the first `j` pieces of `data`.
pub open spec fn pieces_end(data: Seq<u8>, j: int) -> int {
    if j * PAYLOAD_CAPACITY <= data.len() {
        j * PAYLOAD_CAPACITY
    } else {
        data.len() as int
    }
}

/// The bytes of the first `j` blocks of a chain that holds `data`.
proof fn lemma_prefix_payload(
    image: Seq<u8>,
    id: Seq<char>,
    data: Seq<u8>,
    blocks: Seq<u64>,
    j: int,
)
    requires
        0 <= j <= blocks.len(),
        j > 0 ==> (j - 1) * PAYLOAD_CAPACITY < data.len(),
        holds_prefix(image, id, data, blocks, j),
    ensures
        chain_payload(image, blocks.take(j)) == data.take(pieces_end(data, j)),
    decreases j,
{
    reveal(holds_prefix);
    if j == 0 {
        assert(data.take(0) =~= Seq::<u8>::empty());
        assert(blocks.take(0) =~= Seq::<u64>::empty());
    } else {
        let i = j - 1;
        lemma_prefix_payload(image, id, data, blocks, i);
        let head = blocks.take(j);
        assert(head.drop_last() =~= blocks.take(i));
        assert(head.last() == blocks[i]);
        let b = chain_block(id, data, blocks, i);
        assert(block_at(image, blocks[i]) == Some(b));
        let piece = chunk(data, i);
        assert(piece.len() == pieces_end(data, j) - i * PAYLOAD_CAPACITY);
        assert(b.payload() =~= piece);
        assert(payload_at(image, blocks[i]) == piece);
        assert(pieces_end(data, i) == i * PAYLOAD_CAPACITY);
        assert(data.take(i * PAYLOAD_CAPACITY) + piece =~= data.take(pieces_end(data, j)));
    }
}

/// Blocks that hold the pieces of `data` in order, each pointing to the
/// next, form a chain whose bytes are `data`.
pub proof fn lemma_chain_holds(image: Seq<u8>, id: Seq<char>, data: Seq<u8>, blocks: Seq<u64>)
    requires
        data.len() > 0,
        blocks.len() == blocks_needed(data.len()),
        blocks.no_duplicates(),
        holds_prefix(image, id, data, blocks, blocks.len() as int),
    ensures
        is_chain(image, blocks),
        chain_payload(image, blocks) == data,
{
    reveal(holds_prefix);
    lemma_blocks_needed(data.len());
    assert forall|i: int| 0 <= i < blocks.len() implies #[trigger] linked(image, blocks, i) by {
        assert(block_at(image, blocks[i]) == Some(chain_block(id, data, blocks, i)));
    }
    lemma_prefix_payload(image, id, data, blocks, blocks.len() as int);
    assert(blocks.take(blocks.len() as int) =~= blocks);
    assert(pieces_end(data, blocks.len() as int) == data.len());
    assert(data.take(data.len() as int) =~= data);
}

/// No block of no chain is on any image.
pub proof fn lemma_holds_nothing(image: Seq<u8>, id: Seq<char>, data: Seq<u8>)
    ensures
        holds_prefix(image, id, data, Seq::<u64>::empty(), 0),
{
    reveal(holds_prefix);
}

/// The block at place `i` of a chain that is on the image.
pub proof fn lemma_holds_at(
    image: Seq<u8>,
    id: Seq<char>,
    data: Seq<u8>,
    blocks: Seq<u64>,
    j: int,
    i: int,
)
    requires
        holds_prefix(image, id, data, blocks, j),
        0 <= i < j,
    ensures
        block_at(image, blocks[i]) == Some(chain_block(id, data, blocks, i)),
{
    reveal(holds_prefix);
}

/// Every block that the image `before` had, but for those listed in
/// `blocks`, reads the same from the image `after`, which is no shorter.
pub open spec fn untouched_but(before: Seq<u8>, after: Seq<u8>, blocks: Seq<u64>) -> bool {
    &&& block_count(after) >= block_count(before)
    &&& forall|m: u64|
        m < block_count(before) && !blocks.contains(m) ==> #[trigger] block_at(after, m)
            == block_at(before, m)
}

/// One more step that changes the blocks `n` and `p` only, of which `p` is
/// listed already, leaves untouched what is not listed once `n` is listed.
pub proof fn lemma_untouched_more(
    before: Seq<u8>,
    now: Seq<u8>,
    after: Seq<u8>,
    blocks: Seq<u64>,
    n: u64,
    p: Option<u64>,
)
    requires
        untouched_but(before, now, blocks),
        block_count(after) >= block_count(now),
        p matches Some(m) ==> blocks.contains(m),
        forall|m: u64|
            m < block_count(now) && m != n && p != Some(m) ==> #[trigger] block_at(after, m)
                == block_at(now, m),
    ensures
        untouched_but(before, after, blocks.push(n)),
{
    let longer = blocks.push(n);
    assert forall|m: u64| m < block_count(before) && !longer.contains(m) implies #[trigger] block_at(
        after,
        m,
    ) == block_at(before, m) by {
        assert(longer[blocks.len() as int] == n);
        if blocks.contains(m) {
            let i = choose|i: int| 0 <= i < blocks.len() && blocks[i] == m;
            assert(longer[i] == m);
        }
        assert(block_at(now, m) == block_at(before, m));
    }
}

/// What is untouched but for some blocks is untouched but for more blocks.
pub proof fn lemma_untouched_wider(
    before: Seq<u8>,
    after: Seq<u8>,
    blocks: Seq<u64>,
    more: Seq<u64>,
)
    requires
        untouched_but(before, after, blocks),
        forall|i: int| 0 <= i < blocks.len() ==> more.contains(#[trigger] blocks[i]),
    ensures
        untouched_but(before, after, more),
{
    assert forall|m: u64| m < block_count(before) && !more.contains(m) implies #[trigger] block_at(
        after,
        m,
    ) == block_at(before, m) by {
        if blocks.contains(m) {
            let i = choose|i: int| 0 <= i < blocks.len() && blocks[i] == m;
            assert(more.contains(blocks[i]));
        }
    }
}

/// One more block of a chain that is being written: once the new block is
/// on the image and the block before it points to it, the chain that holds
/// the data is one block longer.
pub proof fn lemma_holds_extend(
    before: Seq<u8>,
    after: Seq<u8>,
    id: Seq<char>,
    data: Seq<u8>,
    blocks: Seq<u64>,
    n: u64,
)
    requires
        holds_prefix(before, id, data, blocks, blocks.len() as int),
        blocks.no_duplicates(),
        !blocks.contains(n),
        forall|m: u64|
            m < block_count(before) && m != n && (blocks.len() > 0 ==> m != blocks.last())
                ==> #[trigger] block_at(after, m) == block_at(before, m),
        block_at(after, n) == Some(chain_block(id, data, blocks.push(n), blocks.len() as int)),
        blocks.len() > 0 ==> block_at(after, blocks.last()) == Some(
            chain_block(id, data, blocks.push(n), blocks.len() - 1),
        ),
    ensures
        holds_prefix(after, id, data, blocks.push(n), blocks.len() as int + 1),
        blocks.push(n).no_duplicates(),
{
    reveal(holds_prefix);
    let longer = blocks.push(n);
    assert forall|i: int| 0 <= i < longer.len() implies block_at(after, #[trigger] longer[i])
        == Some(chain_block(id, data, longer, i)) by {
        if i == blocks.len() {
            assert(longer[i] == n);
        } else {
            assert(longer[i] == blocks[i]);
            assert(blocks.contains(blocks[i]));
            assert(block_at(before, blocks[i]) == Some(chain_block(id, data, blocks, i)));
            if i == blocks.len() - 1 {
            } else {
                assert(blocks[i] != blocks.last());
                assert(block_at(after, blocks[i]) == block_at(before, blocks[i]));
                assert(link(longer, i) == link(blocks, i));
            }
        }
    }
    assert forall|a: int, b: int| 0 <= a < longer.len() && 0 <= b < longer.len() && a != b implies longer[a]
        != longer[b] by {
        if a < blocks.len() {
            assert(blocks.contains(blocks[a]));
        }
        if b < blocks.len() {
            assert(blocks.contains(blocks[b]));
        }
    }
}

/// The slots of the first `j` blocks of the chain that holds `data` hold, byte
/// for byte, the blocks of that chain.
#[verifier::opaque]
pub open spec fn stored_prefix(
    image: Seq<u8>,
    id: Seq<char>,
    data: Seq<u8>,
    blocks: Seq<u64>,
    j: int,
) -> bool {
    forall|i: int|
        0 <= i < j ==> (#[trigger] blocks[i]) < block_count(image) && slot_at(
            image,
            blocks[i] as int,
        ) == chain_block(id, data, blocks, i).slot()
}

/// No slot of no chain is on any image.
pub proof fn lemma_stored_nothing(image: Seq<u8>, id: Seq<char>, data: Seq<u8>)
    ensures
        stored_prefix(image, id, data, Seq::<u64>::empty(), 0),
{
    reveal(stored_prefix);
}

/// Slots that hold the blocks of a chain read as the blocks of that chain,
/// where the identifier is short enough for a header.
pub proof fn lemma_stored_holds(
    image: Seq<u8>,
    id: Seq<char>,
    data: Seq<u8>,
    blocks: Seq<u64>,
    j: int,
)
    requires
        stored_prefix(image, id, data, blocks, j),
        encode_utf8(id).len() <= MAX_ID_BYTES,
        j <= blocks.len(),
        j > 0 ==> (j - 1) * PAYLOAD_CAPACITY < data.len(),
    ensures
        holds_prefix(image, id, data, blocks, j),
{
    reveal(stored_prefix);
    reveal(holds_prefix);
    assert forall|i: int| 0 <= i < j implies block_at(image, #[trigger] blocks[i]) == Some(
        chain_block(id, data, blocks, i),
    ) by {
        let b = chain_block(id, data, blocks, i);
        assert(i * PAYLOAD_CAPACITY <= (j - 1) * PAYLOAD_CAPACITY);
        assert(chunk(data, i).len() <= PAYLOAD_CAPACITY);
        lemma_slot_round_trip(b);
        assert(b.stored().data =~= b.data);
    }
}

/// The slot of the block at place `i` of a chain whose slots are on the
/// image.
pub proof fn lemma_stored_at(
    image: Seq<u8>,
    id: Seq<char>,
    data: Seq<u8>,
    blocks: Seq<u64>,
    j: int,
    i: int,
)
    requires
        stored_prefix(image, id, data, blocks, j),
        0 <= i < j,
    ensures
        blocks[i] < block_count(image),
        slot_at(image, blocks[i] as int) == chain_block(id, data, blocks, i).slot(),
{
    reveal(stored_prefix);
}

/// Slots of a chain that are on one image are on every image that has the
/// same bytes in the slots of the first.
pub proof fn lemma_stored_frame(
    before: Seq<u8>,
    after: Seq<u8>,
    id: Seq<char>,
    data: Seq<u8>,
    blocks: Seq<u64>,
    j: int,
)
    requires
        stored_prefix(before, id, data, blocks, j),
        block_count(after) >= block_count(before),
        forall|m: u64|
            m < block_count(before) ==> #[trigger] slot_at(after, m as int) == slot_at(
                before,
                m as int,
            ),
    ensures
        stored_prefix(after, id, data, blocks, j),
{
    reveal(stored_prefix);
}

/// One more slot of a chain that is being written: once the new block is in
/// its slot and the block before it, naming its successor, is in its own,
/// the slots of the chain that holds the data are one more.
pub proof fn lemma_stored_extend(
    before: Seq<u8>,
    after: Seq<u8>,
    id: Seq<char>,
    data: Seq<u8>,
    blocks: Seq<u64>,
    n: u64,
)
    requires
        stored_prefix(before, id, data, blocks, blocks.len() as int),
        blocks.no_duplicates(),
        !blocks.contains(n),
        block_count(after) >= block_count(before),
        n < block_count(after),
        forall|m: u64|
            m < block_count(before) && m != n && (blocks.len() > 0 ==> m != blocks.last())
                ==> #[trigger] slot_at(after, m as int) == slot_at(before, m as int),
        slot_at(after, n as int) == chain_block(
            id,
            data,
            blocks.push(n),
            blocks.len() as int,
        ).slot(),
        blocks.len() > 0 ==> slot_at(after, blocks.last() as int) == chain_block(
            id,
            data,
            blocks.push(n),
            blocks.len() - 1,
        ).slot(),
    ensures
        stored_prefix(after, id, data, blocks.push(n), blocks.len() as int + 1),
{
    reveal(stored_prefix);
    let longer = blocks.push(n);
    assert forall|i: int| 0 <= i < longer.len() implies (#[trigger] longer[i]) < block_count(after)
        && slot_at(after, longer[i] as int) == chain_block(id, data, longer, i).slot() by {
        if i == blocks.len() {
            assert(longer[i] == n);
        } else {
            assert(longer[i] == blocks[i]);
            assert(blocks.contains(blocks[i]));
            assert(blocks[i] < block_count(before));
            if i == blocks.len() - 1 {
            } else {
                assert(blocks[i] != blocks.last());
                assert(slot_at(after, blocks[i] as int) == slot_at(before, blocks[i] as int));
                assert(link(longer, i) == link(blocks, i));
            }
        }
    }
}

} // verus!
