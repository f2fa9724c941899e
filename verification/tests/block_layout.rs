use docstore::block::{
    Block, BlockMetadata, BLOCK_SIZE, HEADER_SIZE, MAX_ID_BYTES, PAYLOAD_CAPACITY,
};
use docstore::error::StorageError;

fn block(id: &str, size: usize, next_block: Option<u64>, data: Vec<u8>) -> Block {
    Block { metadata: BlockMetadata { id: id.to_string(), size, next_block }, data }
}

fn slot_with_header(header: &[u8]) -> Vec<u8> {
    let mut slot = vec![0u8; BLOCK_SIZE];
    slot[..header.len()].copy_from_slice(header);
    slot
}

#[test]
fn layout_constants() {
    assert_eq!(BLOCK_SIZE, 4096);
    assert_eq!(HEADER_SIZE, 128);
    assert_eq!(PAYLOAD_CAPACITY, 3968);
    assert_eq!(MAX_ID_BYTES, 103);
}

#[test]
fn encode_lays_out_header_then_payload() {
    let slot = block("ab", 3, Some(5), vec![9, 8, 7]).encode().unwrap();
    assert_eq!(slot.len(), BLOCK_SIZE);
    let mut expected = vec![0u8; BLOCK_SIZE];
    expected[0] = 2;
    expected[8] = b'a';
    expected[9] = b'b';
    expected[10] = 3;
    expected[18] = 1;
    expected[19] = 5;
    expected[HEADER_SIZE] = 9;
    expected[HEADER_SIZE + 1] = 8;
    expected[HEADER_SIZE + 2] = 7;
    assert_eq!(slot, expected);
}

#[test]
fn encode_without_successor_writes_tag_zero() {
    let slot = block("ab", 1, None, vec![4]).encode().unwrap();
    let mut expected = vec![0u8; BLOCK_SIZE];
    expected[0] = 2;
    expected[8] = b'a';
    expected[9] = b'b';
    expected[10] = 1;
    expected[HEADER_SIZE] = 4;
    assert_eq!(slot, expected);
}

#[test]
fn encode_writes_numbers_little_endian() {
    let slot = block("", 0x0102, Some(0x0a0b_0c0d_0e0f_1011), vec![0u8; 0x0102]).encode().unwrap();
    assert_eq!(&slot[0..8], &[0u8; 8]);
    assert_eq!(&slot[8..16], &[0x02, 0x01, 0, 0, 0, 0, 0, 0]);
    assert_eq!(slot[16], 1);
    assert_eq!(&slot[17..25], &[0x11, 0x10, 0x0f, 0x0e, 0x0d, 0x0c, 0x0b, 0x0a]);
}

#[test]
fn decode_returns_what_encode_was_given() {
    let written = block("doc-1", 4, Some(17), vec![1, 2, 3, 4]);
    let slot = written.encode().unwrap();
    let read = Block::decode(&slot).unwrap();
    assert_eq!(read.metadata.id, "doc-1");
    assert_eq!(read.metadata.size, 4);
    assert_eq!(read.metadata.next_block, Some(17));
    assert_eq!(read.data.len(), PAYLOAD_CAPACITY);
    assert_eq!(&read.data[..4], &[1, 2, 3, 4]);
    assert!(read.data[4..].iter().all(|b| *b == 0));
}

#[test]
fn decode_keeps_a_multibyte_identifier() {
    let written = block("dépôt-文書", 2, None, vec![7, 7]);
    let read = Block::decode(&written.encode().unwrap()).unwrap();
    assert_eq!(read.metadata.id, "dépôt-文書");
    assert_eq!(read.metadata.next_block, None);
}

#[test]
fn zero_slot_decodes_as_empty_block() {
    let read = Block::decode(&vec![0u8; BLOCK_SIZE]).unwrap();
    assert_eq!(read.metadata.id, "");
    assert_eq!(read.metadata.size, 0);
    assert_eq!(read.metadata.next_block, None);
    assert_eq!(read.data, vec![0u8; PAYLOAD_CAPACITY]);
}

#[test]
fn decode_ignores_bytes_after_the_slot() {
    let mut bytes = block("a", 1, None, vec![5]).encode().unwrap();
    bytes.extend_from_slice(&[0xff; 10]);
    let read = Block::decode(&bytes).unwrap();
    assert_eq!(read.metadata.id, "a");
    assert_eq!(read.data.len(), PAYLOAD_CAPACITY);
}

#[test]
fn decode_short_slot_is_unexpected_eof() {
    let r = Block::decode(&vec![0u8; BLOCK_SIZE - 1]);
    assert_eq!(r.err(), Some(StorageError::UnexpectedEof));
    assert_eq!(Block::decode(&[]).err(), Some(StorageError::UnexpectedEof));
}

#[test]
fn decode_rejects_identifier_longer_than_header() {
    let r = Block::decode(&vec![0xffu8; BLOCK_SIZE]);
    assert_eq!(r.err(), Some(StorageError::Corrupt));
}

#[test]
fn decode_rejects_identifier_that_is_not_utf8() {
    let mut header = vec![0u8; 18];
    header[0] = 1;
    header[8] = 0xff;
    let r = Block::decode(&slot_with_header(&header));
    assert_eq!(r.err(), Some(StorageError::Corrupt));
}

#[test]
fn decode_rejects_unknown_successor_tag() {
    let mut header = vec![0u8; 18];
    header[0] = 1;
    header[8] = b'a';
    header[17] = 2;
    let r = Block::decode(&slot_with_header(&header));
    assert_eq!(r.err(), Some(StorageError::Corrupt));
}

#[test]
fn decode_rejects_size_beyond_capacity() {
    let mut header = vec![0u8; 17];
    let size = (PAYLOAD_CAPACITY as u64 + 1).to_le_bytes();
    header[8..16].copy_from_slice(&size);
    let r = Block::decode(&slot_with_header(&header));
    assert_eq!(r.err(), Some(StorageError::Corrupt));
}

#[test]
fn decode_accepts_size_equal_to_capacity() {
    let mut header = vec![0u8; 17];
    let size = (PAYLOAD_CAPACITY as u64).to_le_bytes();
    header[8..16].copy_from_slice(&size);
    let read = Block::decode(&slot_with_header(&header)).unwrap();
    assert_eq!(read.metadata.size, PAYLOAD_CAPACITY);
}

#[test]
fn encode_accepts_longest_identifier_with_successor() {
    let id = "x".repeat(MAX_ID_BYTES);
    let written = block(&id, 1, Some(u64::MAX), vec![3]);
    let slot = written.encode().unwrap();
    assert_eq!(slot.len(), BLOCK_SIZE);
    assert_eq!(slot[HEADER_SIZE - 1], 0xff);
    assert_eq!(slot[HEADER_SIZE], 3);
    let read = Block::decode(&slot).unwrap();
    assert_eq!(read.metadata.id, id);
    assert_eq!(read.metadata.next_block, Some(u64::MAX));
}

#[test]
fn encode_rejects_identifier_too_long() {
    let id = "x".repeat(MAX_ID_BYTES + 1);
    assert_eq!(block(&id, 0, None, vec![]).encode().err(), Some(StorageError::InvalidData));
}

#[test]
fn encode_rejects_payload_beyond_capacity() {
    let r = block("a", 0, None, vec![0u8; PAYLOAD_CAPACITY + 1]).encode();
    assert_eq!(r.err(), Some(StorageError::InvalidData));
}

#[test]
fn encode_rejects_size_beyond_payload() {
    let r = block("a", 3, None, vec![1, 2]).encode();
    assert_eq!(r.err(), Some(StorageError::InvalidData));
}

#[test]
fn encode_accepts_full_payload() {
    let data: Vec<u8> = (0..PAYLOAD_CAPACITY).map(|i| (i % 251) as u8).collect();
    let slot = block("a", PAYLOAD_CAPACITY, None, data.clone()).encode().unwrap();
    assert_eq!(&slot[HEADER_SIZE..], &data[..]);
}

#[test]
fn clone_keeps_every_field() {
    let written = block("doc", 2, Some(3), vec![1, 2, 3]);
    let copy = written.clone();
    assert_eq!(copy.metadata.id, "doc");
    assert_eq!(copy.metadata.size, 2);
    assert_eq!(copy.metadata.next_block, Some(3));
    assert_eq!(copy.data, vec![1, 2, 3]);
}

#[test]
fn error_kinds() {
    assert!(StorageError::UnexpectedEof.is_io());
    assert!(StorageError::ResizeFailed.is_io());
    assert!(StorageError::InvalidData.is_io());
    assert!(!StorageError::Corrupt.is_io());
}
