use docstore::block::{Block, BlockMetadata};
use docstore::cache::{Cache, CACHE_SIZE};

fn numbered(n: u64) -> Block {
    Block {
        metadata: BlockMetadata { id: format!("doc-{}", n), size: 8, next_block: None },
        data: n.to_le_bytes().to_vec(),
    }
}

#[test]
fn cache_size_is_one_thousand() {
    assert_eq!(CACHE_SIZE, 1000);
}

#[test]
fn empty_cache_has_nothing() {
    let mut cache = Cache::new();
    assert!(cache.get(0).is_none());
    assert!(cache.get(u64::MAX).is_none());
}

#[test]
fn get_returns_a_copy_of_what_was_inserted() {
    let mut cache = Cache::new();
    cache.insert(7, numbered(7));
    let found = cache.get(7).unwrap();
    assert_eq!(found.metadata.id, "doc-7");
    assert_eq!(found.data, 7u64.to_le_bytes().to_vec());
    assert!(cache.get(8).is_none());
    assert!(cache.get(7).is_some());
}

#[test]
fn insert_replaces_the_cached_copy() {
    let mut cache = Cache::new();
    cache.insert(1, numbered(1));
    cache.insert(1, numbered(2));
    assert_eq!(cache.get(1).unwrap().metadata.id, "doc-2");
}

#[test]
fn full_cache_evicts_least_recently_used() {
    let mut cache = Cache::new();
    for n in 0..CACHE_SIZE as u64 {
        cache.insert(n, numbered(n));
    }
    for n in 0..CACHE_SIZE as u64 {
        assert!(cache.get(n).is_some());
    }
    cache.insert(5000, numbered(5000));
    assert!(cache.get(0).is_none());
    assert!(cache.get(5000).is_some());
    for n in 1..CACHE_SIZE as u64 {
        assert_eq!(cache.get(n).unwrap().metadata.id, format!("doc-{}", n));
    }
}

#[test]
fn get_protects_a_block_from_eviction() {
    let mut cache = Cache::new();
    for n in 0..CACHE_SIZE as u64 {
        cache.insert(n, numbered(n));
    }
    assert!(cache.get(0).is_some());
    cache.insert(5000, numbered(5000));
    assert!(cache.get(0).is_some());
    assert!(cache.get(1).is_none());
    cache.insert(5001, numbered(5001));
    assert!(cache.get(2).is_none());
    assert!(cache.get(3).is_some());
}

#[test]
fn insert_into_full_cache_makes_room_even_for_a_cached_block() {
    let mut cache = Cache::new();
    for n in 0..CACHE_SIZE as u64 {
        cache.insert(n, numbered(n));
    }
    cache.insert(500, numbered(500));
    assert!(cache.get(0).is_none());
    assert!(cache.get(500).is_some());
    assert!(cache.get(1).is_some());
}

#[test]
fn remove_takes_a_block_out_wherever_it_stands() {
    let mut cache = Cache::new();
    for n in 0..CACHE_SIZE as u64 {
        cache.insert(n, numbered(n));
    }
    cache.remove(400);
    assert!(cache.get(400).is_none());
    cache.insert(5000, numbered(5000));
    assert!(cache.get(0).is_some());
    cache.remove(12345);
    assert!(cache.get(5000).is_some());
}
