use docstore::block::{Block, BlockMetadata, BLOCK_SIZE, HEADER_SIZE, MAX_ID_BYTES};
use docstore::disk::DiskManager;
use docstore::error::StorageError;

fn sample(id: &str, next_block: Option<u64>, data: &[u8]) -> Block {
    Block {
        metadata: BlockMetadata { id: id.to_string(), size: data.len(), next_block },
        data: data.to_vec(),
    }
}

#[test]
fn new_disk_keeps_the_image() {
    let disk = DiskManager::new(vec![1, 2, 3]);
    assert_eq!(disk.bytes(), &[1, 2, 3]);
}

#[test]
fn allocate_extends_empty_image_by_one_block() {
    let mut disk = DiskManager::new(Vec::new());
    assert_eq!(disk.allocate_block(), Ok(0));
    assert_eq!(disk.bytes().len(), BLOCK_SIZE);
    assert_eq!(disk.allocate_block(), Ok(1));
    assert_eq!(disk.bytes().len(), 2 * BLOCK_SIZE);
    assert!(disk.bytes().iter().all(|b| *b == 0));
}

#[test]
fn allocate_rounds_a_ragged_image_up() {
    let mut disk = DiskManager::new(vec![7u8; 5000]);
    assert_eq!(disk.allocate_block(), Ok(1));
    assert_eq!(disk.bytes().len(), 2 * BLOCK_SIZE);
    assert!(disk.bytes()[..5000].iter().all(|b| *b == 7));
    assert!(disk.bytes()[5000..].iter().all(|b| *b == 0));
}

#[test]
fn allocate_prefers_freed_blocks_oldest_first() {
    let mut disk = DiskManager::new(vec![0u8; 4 * BLOCK_SIZE]);
    assert_eq!(disk.free_block(2), Ok(()));
    assert_eq!(disk.free_block(0), Ok(()));
    assert_eq!(disk.free_block(3), Ok(()));
    assert_eq!(disk.allocate_block(), Ok(2));
    assert_eq!(disk.allocate_block(), Ok(0));
    assert_eq!(disk.allocate_block(), Ok(3));
    assert_eq!(disk.bytes().len(), 4 * BLOCK_SIZE);
    assert_eq!(disk.allocate_block(), Ok(4));
    assert_eq!(disk.bytes().len(), 5 * BLOCK_SIZE);
}

#[test]
fn free_leaves_the_slot_as_it_is() {
    let mut disk = DiskManager::new(Vec::new());
    let n = disk.allocate_block().unwrap();
    disk.write_block(n, &sample("keep", None, b"payload")).unwrap();
    let before = disk.bytes().to_vec();
    disk.free_block(n).unwrap();
    assert_eq!(disk.bytes(), &before[..]);
    assert_eq!(disk.read_block(n).unwrap().metadata.id, "keep");
}

#[test]
fn write_then_read_block() {
    let mut disk = DiskManager::new(Vec::new());
    let n = disk.allocate_block().unwrap();
    disk.write_block(n, &sample("doc", Some(9), b"hello")).unwrap();
    let read = disk.read_block(n).unwrap();
    assert_eq!(read.metadata.id, "doc");
    assert_eq!(read.metadata.size, 5);
    assert_eq!(read.metadata.next_block, Some(9));
    assert_eq!(&read.data[..5], b"hello");
    assert_eq!(read.data.len(), BLOCK_SIZE - HEADER_SIZE);
}

#[test]
fn write_block_touches_its_slot_only() {
    let mut disk = DiskManager::new(vec![0xabu8; 3 * BLOCK_SIZE]);
    disk.write_block(1, &sample("mid", None, b"x")).unwrap();
    let bytes = disk.bytes();
    assert_eq!(bytes.len(), 3 * BLOCK_SIZE);
    assert!(bytes[..BLOCK_SIZE].iter().all(|b| *b == 0xab));
    assert!(bytes[2 * BLOCK_SIZE..].iter().all(|b| *b == 0xab));
    assert_eq!(&bytes[BLOCK_SIZE..2 * BLOCK_SIZE], &sample("mid", None, b"x").encode().unwrap()[..]);
}

#[test]
fn write_block_beyond_the_end_extends_the_image() {
    let mut disk = DiskManager::new(vec![1u8; 100]);
    disk.write_block(2, &sample("far", None, b"z")).unwrap();
    let bytes = disk.bytes();
    assert_eq!(bytes.len(), 3 * BLOCK_SIZE);
    assert!(bytes[..100].iter().all(|b| *b == 1));
    assert!(bytes[100..2 * BLOCK_SIZE].iter().all(|b| *b == 0));
    assert_eq!(disk.read_block(2).unwrap().metadata.id, "far");
}

#[test]
fn write_block_rejects_a_block_that_does_not_fit() {
    let mut disk = DiskManager::new(vec![3u8; BLOCK_SIZE]);
    let long = "i".repeat(MAX_ID_BYTES + 1);
    assert_eq!(disk.write_block(0, &sample(&long, None, b"x")), Err(StorageError::InvalidData));
    assert!(disk.bytes().iter().all(|b| *b == 3));
}

#[test]
fn read_block_past_the_end_is_unexpected_eof() {
    let mut disk = DiskManager::new(vec![0u8; BLOCK_SIZE]);
    assert_eq!(disk.read_block(1).err(), Some(StorageError::UnexpectedEof));
    assert_eq!(disk.read_block(u64::MAX).err(), Some(StorageError::UnexpectedEof));
    let mut ragged = DiskManager::new(vec![0u8; 2 * BLOCK_SIZE - 1]);
    assert!(ragged.read_block(0).is_ok());
    assert_eq!(ragged.read_block(1).err(), Some(StorageError::UnexpectedEof));
}

#[test]
fn read_block_of_garbage_is_corrupt() {
    let mut disk = DiskManager::new(vec![0xffu8; BLOCK_SIZE]);
    assert_eq!(disk.read_block(0).err(), Some(StorageError::Corrupt));
}

#[test]
fn every_block_read_is_counted() {
    let mut disk = DiskManager::new(vec![0u8; BLOCK_SIZE]);
    assert_eq!(disk.read_count(), 0);
    assert!(disk.read_block(0).is_ok());
    assert_eq!(disk.read_count(), 1);
    assert!(disk.read_block(5).is_err());
    assert_eq!(disk.read_count(), 2);
    disk.allocate_block().unwrap();
    disk.free_block(0).unwrap();
    assert_eq!(disk.read_count(), 2);
}

#[test]
fn write_block_too_far_out_is_resize_failed() {
    let mut disk = DiskManager::new(vec![5u8; BLOCK_SIZE]);
    assert_eq!(disk.write_block(u64::MAX, &sample("far", None, b"z")), Err(StorageError::ResizeFailed));
    assert_eq!(disk.write_block(u64::MAX / 2, &sample("far", None, b"z")), Err(StorageError::ResizeFailed));
    assert_eq!(disk.bytes(), &vec![5u8; BLOCK_SIZE][..]);
}

#[test]
fn write_block_checks_the_block_before_the_position() {
    let mut disk = DiskManager::new(Vec::new());
    let long = "i".repeat(MAX_ID_BYTES + 1);
    assert_eq!(disk.write_block(u64::MAX, &sample(&long, None, b"z")), Err(StorageError::InvalidData));
}
