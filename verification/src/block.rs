//! Blocks and their on-disk layout.
//!
//! A slot is `BLOCK_SIZE` bytes. Its first `HEADER_SIZE` bytes hold the
//! header: the owner's identifier, the number of meaningful payload bytes and
//! the number of the next block of the chain, in bincode's fixed-width
//! little-endian encoding, zero-padded. The remaining `PAYLOAD_CAPACITY`
//! bytes hold the payload, zero-padded.
use vstd::prelude::*;
use vstd::bytes::*;
use vstd::utf8::*;
use vstd::slice::*;
use vstd::string::*;
use crate::error::StorageError;

verus! {

/// Size of one slot of the backing file, in bytes.
pub const BLOCK_SIZE: usize = 4096;

/// Bytes at the front of each slot that are reserved for the header.
pub const HEADER_SIZE: usize = 128;

/// Payload bytes that one block can hold.
pub const PAYLOAD_CAPACITY: usize = BLOCK_SIZE - HEADER_SIZE;

/// Longest identifier, in UTF-8 bytes, whose header fits in `HEADER_SIZE`
/// whether or not the block has a successor.
pub const MAX_ID_BYTES: usize = HEADER_SIZE - 25;

/// The header of a block as a mathematical value.
pub struct HeaderView {
    pub id: Seq<char>,
    pub size: u64,
    pub next: Option<u64>,
}

/// The encoding of a header: the identifier's byte length as eight
/// little-endian bytes, the identifier's UTF-8 bytes, the payload size as
/// eight little-endian bytes, then one tag byte, 0 for a block without
/// successor and 1 for a block with one, followed in the latter case by the
/// successor's number as eight little-endian bytes.
pub open spec fn header_bytes(h: HeaderView) -> Seq<u8> {
    spec_u64_to_le_bytes(encode_utf8(h.id).len() as u64) + encode_utf8(h.id)
        + spec_u64_to_le_bytes(h.size) + match h.next {
        None => seq![0u8],
        Some(n) => seq![1u8] + spec_u64_to_le_bytes(n),
    }
}

/// The kind of failure that bincode reports. Nothing is known of its inside;
/// the codec below turns every such failure into a `StorageError`.
#[verifier::external_type_specification]
#[verifier::external_body]
pub struct ExErrorKind(bincode::ErrorKind);

/// Calls `bincode::serialize` on the triple of identifier, size and
/// successor.
///
/// Trusted: bincode writes a tuple as its fields in order, a string as its
/// byte length followed by its bytes, a `u64` as eight little-endian bytes
/// and an `Option` as a tag byte followed by the value if there is one. With
/// a vector as the sink and no size limit the call does not fail.
#[verifier::external_body]
fn serialize_header(id: &str, size: u64, next: Option<u64>) -> (r: Result<Vec<u8>, bincode::Error>)
    ensures
        r is Ok,
        r matches Ok(bytes) ==> bytes@ == header_bytes(HeaderView { id: id@, size, next }),
{
    bincode::serialize(&(id, size, next))
}

/// Calls `bincode::deserialize` for a triple of identifier, size and
/// successor.
///
/// Trusted: bincode reads the three fields from the front of the slice and
/// ignores what follows them. It succeeds exactly when the slice starts with
/// the encoding of some header, and then returns that header; it fails when
/// the slice is too short, the identifier is not UTF-8 or the tag byte is
/// neither 0 nor 1, which are the slices that start with no header's encoding.
#[verifier::external_body]
fn deserialize_header(bytes: &[u8]) -> (r: Result<(String, u64, Option<u64>), bincode::Error>)
    ensures
        match r {
            Ok(t) => header_bytes(HeaderView { id: t.0@, size: t.1, next: t.2 }).is_prefix_of(
                bytes@,
            ),
            Err(_) => forall|h: HeaderView| !(#[trigger] header_bytes(h)).is_prefix_of(bytes@),
        },
{
    bincode::deserialize(bytes)
}

/// The header that a byte sequence starts with, if it starts with one.
pub open spec fn parse_header(bytes: Seq<u8>) -> Option<HeaderView> {
    if exists|h: HeaderView| #[trigger] header_bytes(h).is_prefix_of(bytes) {
        Some(choose|h: HeaderView| #[trigger] header_bytes(h).is_prefix_of(bytes))
    } else {
        None
    }
}

/// The length of a header's encoding.
pub proof fn lemma_header_len(h: HeaderView)
    ensures
        header_bytes(h).len() == encode_utf8(h.id).len() + match h.next {
            None => 17int,
            Some(_) => 25int,
        },
{
    lemma_auto_spec_u64_to_from_le_bytes();
}

/// A byte sequence starts with the encoding of at most one header.
pub proof fn lemma_header_unique(a: HeaderView, b: HeaderView, bytes: Seq<u8>)
    requires
        header_bytes(a).is_prefix_of(bytes),
        header_bytes(b).is_prefix_of(bytes),
        bytes.len() <= u64::MAX,
    ensures
        a == b,
{
    lemma_auto_spec_u64_to_from_le_bytes();
    lemma_header_len(a);
    lemma_header_len(b);
    let ia = encode_utf8(a.id);
    let ib = encode_utf8(b.id);
    let ea = header_bytes(a);
    let eb = header_bytes(b);
    let la = spec_u64_to_le_bytes(ia.len() as u64);
    let lb = spec_u64_to_le_bytes(ib.len() as u64);
    assert(la =~= lb) by {
        assert forall|i: int| 0 <= i < 8 implies la[i] == lb[i] by {
            assert(ea[i] == la[i]);
            assert(eb[i] == lb[i]);
            assert(ea[i] == bytes[i]);
            assert(eb[i] == bytes[i]);
        }
    }
    assert(ia.len() as u64 == ib.len() as u64) by {
        assert(spec_u64_from_le_bytes(la) == ia.len() as u64);
        assert(spec_u64_from_le_bytes(lb) == ib.len() as u64);
    }
    let n = ia.len() as int;
    assert(ib.len() == n);
    assert(ia =~= ib) by {
        assert forall|i: int| 0 <= i < n implies ia[i] == ib[i] by {
            assert(ea[8 + i] == ia[i]);
            assert(eb[8 + i] == ib[i]);
            assert(ea[8 + i] == bytes[8 + i]);
            assert(eb[8 + i] == bytes[8 + i]);
        }
    }
    assert(a.id == b.id) by {
        encode_utf8_decode_utf8(a.id);
        encode_utf8_decode_utf8(b.id);
    }
    let sa = spec_u64_to_le_bytes(a.size);
    let sb = spec_u64_to_le_bytes(b.size);
    assert(sa =~= sb) by {
        assert forall|i: int| 0 <= i < 8 implies sa[i] == sb[i] by {
            assert(ea[8 + n + i] == sa[i]);
            assert(eb[8 + n + i] == sb[i]);
            assert(ea[8 + n + i] == bytes[8 + n + i]);
            assert(eb[8 + n + i] == bytes[8 + n + i]);
        }
    }
    assert(a.size == b.size) by {
        assert(spec_u64_from_le_bytes(sa) == a.size);
        assert(spec_u64_from_le_bytes(sb) == b.size);
    }
    assert(ea[16 + n] == bytes[16 + n]);
    assert(eb[16 + n] == bytes[16 + n]);
    assert(ea[16 + n] == if a.next is Some { 1u8 } else { 0u8 });
    assert(eb[16 + n] == if b.next is Some { 1u8 } else { 0u8 });
    if a.next is Some {
        let na = spec_u64_to_le_bytes(a.next->Some_0);
        let nb = spec_u64_to_le_bytes(b.next->Some_0);
        assert(na =~= nb) by {
            assert forall|i: int| 0 <= i < 8 implies na[i] == nb[i] by {
                assert(ea[17 + n + i] == na[i]);
                assert(eb[17 + n + i] == nb[i]);
                assert(ea[17 + n + i] == bytes[17 + n + i]);
                assert(eb[17 + n + i] == bytes[17 + n + i]);
            }
        }
        assert(spec_u64_from_le_bytes(na) == a.next->Some_0);
        assert(spec_u64_from_le_bytes(nb) == b.next->Some_0);
    }
}

/// A byte sequence that starts with a header's encoding parses as that header.
pub proof fn lemma_parse_header(bytes: Seq<u8>, h: HeaderView)
    requires
        header_bytes(h).is_prefix_of(bytes),
        bytes.len() <= u64::MAX,
    ensures
        parse_header(bytes) == Some(h),
{
    let c = choose|c: HeaderView| #[trigger] header_bytes(c).is_prefix_of(bytes);
    lemma_header_unique(c, h, bytes);
}

/// The header of a block: who owns it, how much of its payload is
/// meaningful, and which block follows it in its chain.
#[derive(Debug)]
pub struct BlockMetadata {
    pub id: String,
    pub size: usize,
    pub next_block: Option<u64>,
}

/// One unit of storage: a header and payload bytes, of which the first
/// `metadata.size` are meaningful.
#[derive(Debug)]
pub struct Block {
    pub metadata: BlockMetadata,
    pub data: Vec<u8>,
}

/// A block as a mathematical value.
pub struct BlockView {
    pub id: Seq<char>,
    pub size: nat,
    pub next: Option<u64>,
    pub data: Seq<u8>,
}

/// `n` zero bytes.
pub open spec fn zeros(n: nat) -> Seq<u8> {
    Seq::new(n, |i: int| 0u8)
}

/// `s` followed by as many zero bytes as it takes to reach length `n`.
pub open spec fn padded(s: Seq<u8>, n: nat) -> Seq<u8> {
    s + zeros((n - s.len()) as nat)
}

impl BlockView {
    /// The header fields.
    pub open spec fn header(self) -> HeaderView {
        HeaderView { id: self.id, size: self.size as u64, next: self.next }
    }

    /// Whether the block can be laid out in one slot: the identifier is short
    /// enough for the header region, the payload is no longer than the payload
    /// region, and the meaningful part is no longer than the payload.
    pub open spec fn fits(self) -> bool {
        &&& encode_utf8(self.id).len() <= MAX_ID_BYTES
        &&& self.size <= self.data.len()
        &&& self.data.len() <= PAYLOAD_CAPACITY
    }

    /// The bytes of the slot that holds this block.
    pub open spec fn slot(self) -> Seq<u8> {
        padded(header_bytes(self.header()), HEADER_SIZE as nat) + padded(
            self.data,
            PAYLOAD_CAPACITY as nat,
        )
    }

    /// The meaningful payload bytes.
    pub open spec fn payload(self) -> Seq<u8> {
        self.data.take(self.size as int)
    }

    /// The same block with another successor.
    pub open spec fn with_next(self, next: Option<u64>) -> BlockView {
        BlockView { next, ..self }
    }

    /// The block as it is read back from its slot: the payload region whole.
    pub open spec fn stored(self) -> BlockView {
        BlockView { data: padded(self.data, PAYLOAD_CAPACITY as nat), ..self }
    }
}

/// The block that a slot of `BLOCK_SIZE` bytes holds, if its header region
/// starts with a header that declares no more payload than a block can hold.
pub open spec fn parse_slot(slot: Seq<u8>) -> Option<BlockView> {
    match parse_header(slot.take(HEADER_SIZE as int)) {
        Some(h) => if h.size <= PAYLOAD_CAPACITY {
            Some(
                BlockView {
                    id: h.id,
                    size: h.size as nat,
                    next: h.next,
                    data: slot.subrange(HEADER_SIZE as int, BLOCK_SIZE as int),
                },
            )
        } else {
            None
        },
        None => None,
    }
}

/// The slot of a block that fits has `BLOCK_SIZE` bytes and holds that block,
/// with its payload padded to the whole payload region.
pub proof fn lemma_slot_round_trip(b: BlockView)
    requires
        b.fits(),
    ensures
        b.slot().len() == BLOCK_SIZE,
        parse_slot(b.slot()) == Some(b.stored()),
        b.stored().fits(),
        b.stored().payload() == b.payload(),
{
    let h = b.header();
    lemma_header_len(h);
    let head = b.slot().take(HEADER_SIZE as int);
    assert(header_bytes(h).is_prefix_of(head));
    lemma_parse_header(head, h);
    assert(b.slot().subrange(HEADER_SIZE as int, BLOCK_SIZE as int) =~= padded(
        b.data,
        PAYLOAD_CAPACITY as nat,
    ));
    assert(b.stored().payload() =~= b.payload());
}

impl View for Block {
    type V = BlockView;

    open spec fn view(&self) -> BlockView {
        BlockView {
            id: self.metadata.id@,
            size: self.metadata.size as nat,
            next: self.metadata.next_block,
            data: self.data@,
        }
    }
}

impl Clone for BlockMetadata {
    /// A copy with the same identifier, size and successor.
    fn clone(&self) -> (r: Self)
        ensures
            r.id@ == self.id@,
            r.size == self.size,
            r.next_block == self.next_block,
    {
        BlockMetadata { id: self.id.clone(), size: self.size, next_block: self.next_block }
    }
}

impl Clone for Block {
    /// A copy with the same identifier, size, successor and payload.
    fn clone(&self) -> (r: Self)
        ensures
            r@ == self@,
    {
        Block { metadata: self.metadata.clone(), data: slice_to_vec(self.data.as_slice()) }
    }
}

impl Block {
    /// Lays the block out as the `BLOCK_SIZE` bytes of its slot. Fails with
    /// `InvalidData` exactly when the block does not fit in a slot.
    pub fn encode(&self) -> (r: Result<Vec<u8>, StorageError>)
        ensures
            match r {
                Ok(buf) => self@.fits() && buf@ == self@.slot(),
                Err(e) => !self@.fits() && e == StorageError::InvalidData,
            },
    {
        let id = self.metadata.id.as_str();
        if id.len() > MAX_ID_BYTES || self.data.len() > PAYLOAD_CAPACITY || self.metadata.size
            > self.data.len() {
            return Err(StorageError::InvalidData);
        }
        let mut buf = match serialize_header(id, self.metadata.size as u64, self.metadata.next_block) {
            Ok(bytes) => bytes,
            Err(_) => {
                return Err(StorageError::InvalidData);
            },
        };
        let ghost head = buf@;
        proof {
            lemma_header_len(self@.header());
        }
        buf.resize(HEADER_SIZE, 0u8);
        assert(buf@ =~= padded(head, HEADER_SIZE as nat));
        let ghost region = buf@;
        buf.extend_from_slice(self.data.as_slice());
        assert(buf@ =~= region + self.data@);
        let ghost filled = buf@;
        buf.resize(BLOCK_SIZE, 0u8);
        assert(buf@ =~= self@.slot()) by {
            let slot = self@.slot();
            assert(slot.len() == BLOCK_SIZE);
            assert forall|i: int| 0 <= i < BLOCK_SIZE implies buf@[i] == slot[i] by {
                if i < filled.len() {
                    assert(buf@.subrange(0, filled.len() as int)[i] == filled[i]);
                }
            }
        }
        Ok(buf)
    }

    /// Reads a block from the first `BLOCK_SIZE` bytes of `slot`. Fails with
    /// `UnexpectedEof` when there are fewer bytes than that, and with `Corrupt`
    /// when the bytes hold no block.
    pub fn decode(slot: &[u8]) -> (r: Result<Block, StorageError>)
        ensures
            match r {
                Ok(b) => slot@.len() >= BLOCK_SIZE && parse_slot(slot@.take(BLOCK_SIZE as int))
                    == Some(b@),
                Err(e) => if slot@.len() < BLOCK_SIZE {
                    e == StorageError::UnexpectedEof
                } else {
                    e == StorageError::Corrupt && parse_slot(slot@.take(BLOCK_SIZE as int))
                        is None
                },
            },
    {
        if slot.len() < BLOCK_SIZE {
            return Err(StorageError::UnexpectedEof);
        }
        let head = slice_subrange(slot, 0, HEADER_SIZE);
        assert(head@ =~= slot@.take(BLOCK_SIZE as int).take(HEADER_SIZE as int));
        match deserialize_header(head) {
            Ok((id, size, next_block)) => {
                proof {
                    lemma_parse_header(head@, HeaderView { id: id@, size, next: next_block });
                }
                if size > PAYLOAD_CAPACITY as u64 {
                    return Err(StorageError::Corrupt);
                }
                let data = slice_to_vec(slice_subrange(slot, HEADER_SIZE, BLOCK_SIZE));
                assert(data@ =~= slot@.take(BLOCK_SIZE as int).subrange(
                    HEADER_SIZE as int,
                    BLOCK_SIZE as int,
                ));
                Ok(Block { metadata: BlockMetadata { id, size: size as usize, next_block }, data })
            },
            Err(_) => Err(StorageError::Corrupt),
        }
    }
}

} // verus!
