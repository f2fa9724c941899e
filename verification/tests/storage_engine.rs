use docstore::block::{BLOCK_SIZE, MAX_ID_BYTES, PAYLOAD_CAPACITY};
use docstore::cache::CACHE_SIZE;
use docstore::disk::DiskManager;
use docstore::error::StorageError;
use docstore::storage::StorageEngine;

fn pattern(len: usize, seed: u8) -> Vec<u8> {
    (0..len).map(|i| (i as u8).wrapping_mul(31).wrapping_add(seed)).collect()
}

fn chain_on_image(engine: &StorageEngine, first: u64) -> Vec<(u64, usize, String)> {
    let mut disk = DiskManager::new(engine.bytes().to_vec());
    let mut chain = Vec::new();
    let mut current = Some(first);
    while let Some(n) = current {
        let block = disk.read_block(n).unwrap();
        chain.push((n, block.metadata.size, block.metadata.id.clone()));
        current = block.metadata.next_block;
    }
    chain
}

fn create_test_document(name: &str, age: i64, city: &str) -> (String, serde_json::Value) {
    let mut data = serde_json::Map::new();
    data.insert("name".to_string(), serde_json::Value::String(name.to_string()));
    data.insert("age".to_string(), serde_json::Value::Number(serde_json::Number::from(age)));
    data.insert("city".to_string(), serde_json::Value::String(city.to_string()));
    (uuid::Uuid::new_v4().to_string(), serde_json::Value::Object(data))
}

#[test]
fn test_database_connection() {
    let mut storage = StorageEngine::new(Vec::new());

    let (id1, doc1) = create_test_document("Alice", 30, "New York");
    let (id2, doc2) = create_test_document("Bob", 25, "San Francisco");
    let (id3, doc3) = create_test_document("Charlie", 35, "New York");

    storage.write(id1.as_str(), &serde_json::to_vec(&doc1).unwrap()).expect("Failed to write doc1");
    storage.write(id2.as_str(), &serde_json::to_vec(&doc2).unwrap()).expect("Failed to write doc2");
    storage.write(id3.as_str(), &serde_json::to_vec(&doc3).unwrap()).expect("Failed to write doc3");

    let retrieved_doc1 = storage.read(id1.as_str()).expect("Failed to read doc1").unwrap();
    let retrieved_doc1: serde_json::Value = serde_json::from_slice(&retrieved_doc1).unwrap();

    assert_eq!(retrieved_doc1.get("name"), doc1.get("name"));
    assert_eq!(retrieved_doc1.get("age"), doc1.get("age"));
    assert_eq!(retrieved_doc1.get("city"), doc1.get("city"));
}

#[test]
fn three_documents_then_delete_one() {
    let mut storage = StorageEngine::new(Vec::new());
    let (id1, doc1) = create_test_document("Alice", 30, "New York");
    let (id2, doc2) = create_test_document("Bob", 25, "San Francisco");
    let (id3, doc3) = create_test_document("Charlie", 35, "New York");
    let blob1 = serde_json::to_vec(&doc1).unwrap();
    let blob2 = serde_json::to_vec(&doc2).unwrap();
    let blob3 = serde_json::to_vec(&doc3).unwrap();
    assert_eq!(storage.write(&id1, &blob1), Ok(()));
    assert_eq!(storage.write(&id2, &blob2), Ok(()));
    assert_eq!(storage.write(&id3, &blob3), Ok(()));
    assert_eq!(storage.read(&id1), Ok(Some(blob1.clone())));
    assert_eq!(storage.read(&id2), Ok(Some(blob2)));
    assert_eq!(storage.read(&id3), Ok(Some(blob3.clone())));
    assert_eq!(storage.delete(&id2), Ok(()));
    assert_eq!(storage.read(&id2), Ok(None));
    assert_eq!(storage.read(&id1), Ok(Some(blob1)));
    assert_eq!(storage.read(&id3), Ok(Some(blob3)));
}

#[test]
fn new_engine_holds_nothing() {
    let mut storage = StorageEngine::new(Vec::new());
    assert_eq!(storage.read("anything"), Ok(None));
    assert_eq!(storage.read(""), Ok(None));
    assert_eq!(storage.bytes().len(), 0);
}

#[test]
fn round_trip_of_one_byte() {
    let mut storage = StorageEngine::new(Vec::new());
    assert_eq!(storage.write("a", &[42]), Ok(()));
    assert_eq!(storage.read("a"), Ok(Some(vec![42])));
    assert_eq!(storage.bytes().len(), BLOCK_SIZE);
    assert_eq!(chain_on_image(&storage, 0), vec![(0, 1, "a".to_string())]);
}

#[test]
fn round_trip_of_exactly_one_block() {
    let mut storage = StorageEngine::new(Vec::new());
    let data = pattern(PAYLOAD_CAPACITY, 1);
    assert_eq!(storage.write("full", &data), Ok(()));
    assert_eq!(storage.read("full"), Ok(Some(data)));
    assert_eq!(storage.bytes().len(), BLOCK_SIZE);
}

#[test]
fn one_byte_more_than_a_block_takes_two_blocks() {
    let mut storage = StorageEngine::new(Vec::new());
    let data = pattern(PAYLOAD_CAPACITY + 1, 2);
    assert_eq!(storage.write("spill", &data), Ok(()));
    assert_eq!(storage.bytes().len(), 2 * BLOCK_SIZE);
    assert_eq!(
        chain_on_image(&storage, 0),
        vec![(0, PAYLOAD_CAPACITY, "spill".to_string()), (1, 1, "spill".to_string())]
    );
    assert_eq!(storage.read("spill"), Ok(Some(data)));
}

#[test]
fn long_payload_is_chained_and_reassembled() {
    let mut storage = StorageEngine::new(Vec::new());
    let data = pattern(10_000, 3);
    assert_eq!(storage.write("long", &data), Ok(()));
    assert_eq!(storage.bytes().len(), 3 * BLOCK_SIZE);
    assert_eq!(
        chain_on_image(&storage, 0),
        vec![
            (0, PAYLOAD_CAPACITY, "long".to_string()),
            (1, PAYLOAD_CAPACITY, "long".to_string()),
            (2, 10_000 - 2 * PAYLOAD_CAPACITY, "long".to_string()),
        ]
    );
    assert_eq!(storage.read("long"), Ok(Some(data.clone())));
    assert_eq!(storage.read("long"), Ok(Some(data)));
}

#[test]
fn read_reaches_blocks_that_left_the_cache() {
    let mut storage = StorageEngine::new(Vec::new());
    let first = pattern(3 * PAYLOAD_CAPACITY, 4);
    assert_eq!(storage.write("first", &first), Ok(()));
    let filler = pattern(1100 * PAYLOAD_CAPACITY, 5);
    assert_eq!(storage.write("filler", &filler), Ok(()));
    assert_eq!(storage.read("first"), Ok(Some(first)));
    assert_eq!(storage.read("filler"), Ok(Some(filler)));
}

#[test]
fn empty_write_stores_nothing() {
    let mut storage = StorageEngine::new(Vec::new());
    assert_eq!(storage.write("empty", &[]), Ok(()));
    assert_eq!(storage.read("empty"), Ok(None));
    assert_eq!(storage.bytes().len(), 0);
}

#[test]
fn empty_write_keeps_an_earlier_document() {
    let mut storage = StorageEngine::new(Vec::new());
    assert_eq!(storage.write("doc", b"kept"), Ok(()));
    assert_eq!(storage.write("doc", &[]), Ok(()));
    assert_eq!(storage.read("doc"), Ok(Some(b"kept".to_vec())));
}

#[test]
fn empty_write_accepts_any_identifier() {
    let mut storage = StorageEngine::new(Vec::new());
    let long = "i".repeat(MAX_ID_BYTES + 1);
    assert_eq!(storage.write(&long, &[]), Ok(()));
}

#[test]
fn delete_of_absent_identifier_is_a_no_op() {
    let mut storage = StorageEngine::new(Vec::new());
    assert_eq!(storage.write("a", b"x"), Ok(()));
    let before = storage.bytes().to_vec();
    assert_eq!(storage.delete("b"), Ok(()));
    assert_eq!(storage.bytes(), &before[..]);
    assert_eq!(storage.read("a"), Ok(Some(b"x".to_vec())));
}

#[test]
fn delete_then_read_finds_nothing() {
    let mut storage = StorageEngine::new(Vec::new());
    let data = pattern(2 * PAYLOAD_CAPACITY + 5, 6);
    assert_eq!(storage.write("gone", &data), Ok(()));
    assert_eq!(storage.delete("gone"), Ok(()));
    assert_eq!(storage.read("gone"), Ok(None));
    assert_eq!(storage.delete("gone"), Ok(()));
}

#[test]
fn freed_blocks_are_reused_before_the_image_grows() {
    let mut storage = StorageEngine::new(Vec::new());
    assert_eq!(storage.write("keep", b"k"), Ok(()));
    assert_eq!(storage.write("old", &pattern(2 * PAYLOAD_CAPACITY, 7)), Ok(()));
    assert_eq!(storage.bytes().len(), 3 * BLOCK_SIZE);
    assert_eq!(storage.delete("old"), Ok(()));
    let data = pattern(3 * PAYLOAD_CAPACITY, 8);
    assert_eq!(storage.write("new", &data), Ok(()));
    assert_eq!(storage.bytes().len(), 4 * BLOCK_SIZE);
    assert_eq!(
        chain_on_image(&storage, 1),
        vec![
            (1, PAYLOAD_CAPACITY, "new".to_string()),
            (2, PAYLOAD_CAPACITY, "new".to_string()),
            (3, PAYLOAD_CAPACITY, "new".to_string()),
        ]
    );
    assert_eq!(storage.read("new"), Ok(Some(data)));
    assert_eq!(storage.read("keep"), Ok(Some(b"k".to_vec())));
}

#[test]
fn two_identifiers_do_not_interfere() {
    let mut storage = StorageEngine::new(Vec::new());
    let a = pattern(PAYLOAD_CAPACITY + 10, 9);
    let b = pattern(2 * PAYLOAD_CAPACITY + 10, 10);
    assert_eq!(storage.write("a", &a), Ok(()));
    assert_eq!(storage.write("b", &b), Ok(()));
    assert_eq!(storage.read("a"), Ok(Some(a.clone())));
    assert_eq!(storage.read("b"), Ok(Some(b.clone())));
    let chain_a: Vec<u64> = chain_on_image(&storage, 0).iter().map(|e| e.0).collect();
    let chain_b: Vec<u64> = chain_on_image(&storage, 2).iter().map(|e| e.0).collect();
    assert_eq!(chain_a, vec![0, 1]);
    assert_eq!(chain_b, vec![2, 3, 4]);
    assert_eq!(storage.delete("a"), Ok(()));
    assert_eq!(storage.read("a"), Ok(None));
    assert_eq!(storage.read("b"), Ok(Some(b)));
}

#[test]
fn second_write_under_one_identifier_wins() {
    let mut storage = StorageEngine::new(Vec::new());
    assert_eq!(storage.write("doc", b"first"), Ok(()));
    assert_eq!(storage.write("doc", b"second"), Ok(()));
    assert_eq!(storage.read("doc"), Ok(Some(b"second".to_vec())));
    assert_eq!(storage.bytes().len(), 2 * BLOCK_SIZE);
    assert_eq!(storage.delete("doc"), Ok(()));
    assert_eq!(storage.write("next", b"n"), Ok(()));
    assert_eq!(chain_on_image(&storage, 1), vec![(1, 1, "next".to_string())]);
    assert_eq!(storage.bytes().len(), 2 * BLOCK_SIZE);
}

#[test]
fn identifier_too_long_is_invalid_data() {
    let mut storage = StorageEngine::new(Vec::new());
    let long = "i".repeat(MAX_ID_BYTES + 1);
    assert_eq!(storage.write(&long, b"x"), Err(StorageError::InvalidData));
    assert_eq!(storage.read(&long), Ok(None));
    assert_eq!(storage.bytes().len(), BLOCK_SIZE);
    assert_eq!(storage.write("ok", b"y"), Ok(()));
    assert_eq!(storage.read("ok"), Ok(Some(b"y".to_vec())));
    assert_eq!(storage.bytes().len(), 2 * BLOCK_SIZE);
}

#[test]
fn longest_identifier_is_accepted_in_a_chain() {
    let mut storage = StorageEngine::new(Vec::new());
    let id = "é".repeat(MAX_ID_BYTES / 2) + "x";
    assert_eq!(id.len(), MAX_ID_BYTES);
    let data = pattern(2 * PAYLOAD_CAPACITY, 11);
    assert_eq!(storage.write(&id, &data), Ok(()));
    assert_eq!(storage.read(&id), Ok(Some(data)));
}

#[test]
fn engine_over_an_old_image_knows_no_document() {
    let mut storage = StorageEngine::new(Vec::new());
    assert_eq!(storage.write("doc", b"persisted"), Ok(()));
    let image = storage.bytes().to_vec();
    let mut reopened = StorageEngine::new(image.clone());
    assert_eq!(reopened.bytes(), &image[..]);
    assert_eq!(reopened.read("doc"), Ok(None));
    assert_eq!(reopened.write("other", b"o"), Ok(()));
    assert_eq!(reopened.bytes().len(), 2 * BLOCK_SIZE);
    assert_eq!(&reopened.bytes()[..BLOCK_SIZE], &image[..]);
    assert_eq!(chain_on_image(&reopened, 0), vec![(0, 9, "doc".to_string())]);
}

#[test]
fn read_of_a_cached_document_reads_no_block_from_the_image() {
    let mut storage = StorageEngine::new(Vec::new());
    assert_eq!(storage.disk_reads(), 0);
    let data = pattern(3 * PAYLOAD_CAPACITY, 12);
    assert_eq!(storage.write("doc", &data), Ok(()));
    assert_eq!(storage.disk_reads(), 2);
    assert_eq!(storage.read("doc"), Ok(Some(data.clone())));
    assert_eq!(storage.read("doc"), Ok(Some(data)));
    assert_eq!(storage.disk_reads(), 2);
    assert_eq!(storage.read("absent"), Ok(None));
    assert_eq!(storage.disk_reads(), 2);
}

#[test]
fn single_block_write_reads_no_block() {
    let mut storage = StorageEngine::new(Vec::new());
    assert_eq!(storage.write("doc", b"small"), Ok(()));
    assert_eq!(storage.disk_reads(), 0);
    assert_eq!(storage.write("empty", &[]), Ok(()));
    assert_eq!(storage.disk_reads(), 0);
}

#[test]
fn read_of_evicted_blocks_goes_to_the_image_once() {
    let mut storage = StorageEngine::new(Vec::new());
    assert_eq!(storage.write("first", &pattern(2 * PAYLOAD_CAPACITY, 13)), Ok(()));
    let filler = pattern(CACHE_SIZE * PAYLOAD_CAPACITY, 14);
    assert_eq!(storage.write("filler", &filler), Ok(()));
    let after_writes = storage.disk_reads();
    assert_eq!(after_writes, 1 + (CACHE_SIZE as u64 - 1));
    assert!(storage.read("first").unwrap().is_some());
    assert_eq!(storage.disk_reads(), after_writes + 2);
    assert!(storage.read("first").unwrap().is_some());
    assert_eq!(storage.disk_reads(), after_writes + 2);
}

#[test]
fn delete_reads_every_block_of_the_chain() {
    let mut storage = StorageEngine::new(Vec::new());
    assert_eq!(storage.write("doc", &pattern(3 * PAYLOAD_CAPACITY, 15)), Ok(()));
    let before = storage.disk_reads();
    assert_eq!(storage.delete("doc"), Ok(()));
    assert_eq!(storage.disk_reads(), before + 3);
    assert_eq!(storage.delete("doc"), Ok(()));
    assert_eq!(storage.disk_reads(), before + 3);
}

#[test]
fn failed_write_reads_no_block() {
    let mut storage = StorageEngine::new(Vec::new());
    let long = "i".repeat(MAX_ID_BYTES + 1);
    assert_eq!(storage.write(&long, &pattern(2 * PAYLOAD_CAPACITY, 16)), Err(StorageError::InvalidData));
    assert_eq!(storage.disk_reads(), 0);
}

#[test]
fn freed_blocks_are_forgotten_with_the_engine() {
    let mut storage = StorageEngine::new(Vec::new());
    assert_eq!(storage.write("doc", b"first"), Ok(()));
    assert_eq!(storage.delete("doc"), Ok(()));
    let mut reopened = StorageEngine::new(storage.bytes().to_vec());
    assert_eq!(reopened.write("doc", b"second"), Ok(()));
    assert_eq!(reopened.bytes().len(), 2 * BLOCK_SIZE);
    assert_eq!(chain_on_image(&reopened, 1), vec![(1, 6, "doc".to_string())]);
}

#[test]
fn write_rounds_a_ragged_image_up_to_whole_blocks() {
    let mut storage = StorageEngine::new(vec![9u8; BLOCK_SIZE + 10]);
    assert_eq!(storage.write("doc", b"x"), Ok(()));
    assert_eq!(storage.bytes().len(), 2 * BLOCK_SIZE);
    assert!(storage.bytes()[..BLOCK_SIZE].iter().all(|b| *b == 9));
    assert_eq!(chain_on_image(&storage, 1), vec![(1, 1, "doc".to_string())]);
    assert_eq!(storage.read("doc"), Ok(Some(b"x".to_vec())));
}

#[test]
fn blocks_of_other_documents_keep_their_bytes() {
    let mut storage = StorageEngine::new(Vec::new());
    assert_eq!(storage.write("a", &pattern(PAYLOAD_CAPACITY + 1, 17)), Ok(()));
    let before = storage.bytes().to_vec();
    assert_eq!(storage.write("b", &pattern(PAYLOAD_CAPACITY + 1, 18)), Ok(()));
    assert_eq!(&storage.bytes()[..2 * BLOCK_SIZE], &before[..]);
    assert_eq!(storage.delete("b"), Ok(()));
    assert_eq!(&storage.bytes()[..2 * BLOCK_SIZE], &before[..]);
}
