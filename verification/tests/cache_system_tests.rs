use cache_system::errors::CacheSystemError;
use cache_system::errors::SerializeError;
use cache_system::types::CacheEntry;
use cache_system::types::CacheSystem;
use std::collections::HashMap;
use std::collections::VecDeque;

#[test]
fn test_basic_cache_system() {
    let mut cache: CacheSystem<String> = CacheSystem::new(3);

    assert!(cache.entries.is_empty());
    assert!(cache.order.is_empty());
    assert!(cache.recently_used.is_empty());

    cache.insert_data(1, String::from("Hello")).unwrap();
    let result = cache.get_data(1).unwrap();
    assert_eq!(result.value, String::from("Hello"));

    cache.insert_data(2, String::from("hi")).unwrap();
    cache.insert_data(3, String::from("lol")).unwrap();
    assert!(matches!(
        cache.insert_data(4, String::from("should fail")),
        Err(CacheSystemError::CacheFull)
    )); // 3 Max size test

    cache.clear_cache().unwrap();
    let empty = cache.get_data(1);
    assert!(empty.is_none());
}

#[test]
fn test_fifo_lru_traits() {
    let mut fifo_cache: CacheSystem<String> = CacheSystem::new(3);
    fifo_cache.insert_data(1, String::from("hi")).unwrap();
    fifo_cache.insert_data(2, String::from("hello")).unwrap();
    fifo_cache.insert_data(3, String::from("last one")).unwrap();
    fifo_cache.fifo().unwrap();
    let empty = fifo_cache.get_data(1);
    assert!(empty.is_none());
    assert!(matches!(fifo_cache.fifo(), Err(CacheSystemError::CacheNotFull)));

    let mut lru_cache: CacheSystem<String> = CacheSystem::new(3);
    lru_cache.insert_data(1, String::from("least used")).unwrap();
    lru_cache.insert_data(2, String::from("hey")).unwrap();
    lru_cache.insert_data(3, String::from("bruh")).unwrap();

    let _ = lru_cache.get_data(2);
    let _ = lru_cache.get_data(3);

    lru_cache.lru().unwrap();
    let empty = lru_cache.get_data(1);
    assert!(empty.is_none());
    assert!(matches!(lru_cache.lru(), Err(CacheSystemError::CacheNotFull)));
}

#[test]
fn test_serialize_deserialize() {
    let mut cache: CacheSystem<String> = CacheSystem::new(3);
    cache.insert_data(1, String::from("Hello")).unwrap();

    let json = cache.serialize_json().unwrap();
    let deserialized_json: serde_json::Value = serde_json::from_slice(&json).unwrap();
    assert_eq!(
        deserialized_json
            .get("1")
            .unwrap()
            .get("value")
            .unwrap()
            .as_str()
            .unwrap(),
        "Hello"
    );

    let binary_result = cache.serialize_binary().unwrap();
    let deserialized_binary: HashMap<u32, (String, u64, u64)> =
        bincode::deserialize(&binary_result).unwrap();
    assert_eq!(deserialized_binary.get(&1).unwrap().0, "Hello".to_string());
}

// A store built by hand, with fixed timestamps, so encodings are exact.
fn fixed_store() -> CacheSystem<String> {
    CacheSystem {
        entries: vec![
            (
                1,
                CacheEntry {
                    value: String::from("Hello"),
                    creation_time: 5,
                    last_accessed_time: 7,
                },
            ),
            (
                2,
                CacheEntry {
                    value: String::from("x"),
                    creation_time: 10,
                    last_accessed_time: 10,
                },
            ),
        ],
        order: VecDeque::from(vec![1, 2]),
        recently_used: VecDeque::from(vec![1, 2]),
        capacity: 2,
    }
}

#[test]
fn test_json_exact_bytes() {
    let store = fixed_store();
    let json = store.serialize_json().unwrap();
    let expected = "{\"1\":{\"value\":\"Hello\",\"creation_time\":5,\"last_accessed_time\":7},\"2\":{\"value\":\"x\",\"creation_time\":10,\"last_accessed_time\":10}}";
    assert_eq!(json, expected.as_bytes().to_vec());
}

#[test]
fn test_binary_exact_bytes() {
    let store = fixed_store();
    let bin = store.serialize_binary().unwrap();
    let mut expected: Vec<u8> = Vec::new();
    expected.extend_from_slice(&2u64.to_le_bytes());
    expected.extend_from_slice(&1u32.to_le_bytes());
    expected.extend_from_slice(&5u64.to_le_bytes());
    expected.extend_from_slice(b"Hello");
    expected.extend_from_slice(&5u64.to_le_bytes());
    expected.extend_from_slice(&7u64.to_le_bytes());
    expected.extend_from_slice(&2u32.to_le_bytes());
    expected.extend_from_slice(&1u64.to_le_bytes());
    expected.extend_from_slice(b"x");
    expected.extend_from_slice(&10u64.to_le_bytes());
    expected.extend_from_slice(&10u64.to_le_bytes());
    assert_eq!(bin, expected);
}

#[test]
fn test_binary_matches_bincode_of_map() {
    let store = fixed_store();
    let bin = store.serialize_binary().unwrap();
    let decoded: HashMap<u32, (String, u64, u64)> = bincode::deserialize(&bin).unwrap();
    assert_eq!(decoded.len(), 2);
    assert_eq!(
        decoded.get(&1).unwrap(),
        &(String::from("Hello"), 5u64, 7u64)
    );
    assert_eq!(decoded.get(&2).unwrap(), &(String::from("x"), 10u64, 10u64));
}

#[test]
fn test_round_trip_preserves_pairs() {
    let mut cache: CacheSystem<String> = CacheSystem::new(3);
    cache.insert_data(1, String::from("one")).unwrap();
    cache.insert_data(2, String::from("two")).unwrap();
    cache.insert_data(3, String::from("three")).unwrap();

    let json = cache.serialize_json().unwrap();
    let restored = CacheSystem::deserialize(&json).unwrap();

    assert_eq!(restored.entries.len(), 3);
    assert_eq!(restored.capacity, 3);
    for (key, entry) in &cache.entries {
        let found = restored.entries.iter().find(|(k, _)| k == key).unwrap();
        assert_eq!(found.1.value, entry.value);
        assert_eq!(found.1.creation_time, entry.creation_time);
        assert_eq!(found.1.last_accessed_time, entry.last_accessed_time);
    }
    // The canonical form also reproduces both orderings in insertion order.
    assert_eq!(restored.order, VecDeque::from(vec![1, 2, 3]));
    assert_eq!(restored.recently_used, VecDeque::from(vec![1, 2, 3]));
}

#[test]
fn test_round_trip_escaped_values() {
    let mut cache: CacheSystem<String> = CacheSystem::new(2);
    cache
        .insert_data(7, String::from("a\"b\\c\nd\u{1}"))
        .unwrap();
    cache.insert_data(9, String::from("plain ü")).unwrap();

    let json = cache.serialize_json().unwrap();
    // The escapes must be undone, not handed back as they were written.
    assert!(json.windows(2).any(|w| w == b"\\\""));
    let restored = CacheSystem::deserialize(&json).unwrap();
    assert_eq!(restored.entries[0].1.value, "a\"b\\c\nd\u{1}");
    assert_eq!(restored.entries[1].1.value, "plain ü");
}

#[test]
fn test_round_trip_empty_store() {
    let store: CacheSystem<String> = CacheSystem::new(0);
    let json = store.serialize_json().unwrap();
    assert_eq!(json, b"{}".to_vec());
    let restored = CacheSystem::deserialize(&json).unwrap();
    assert!(restored.entries.is_empty());
    assert_eq!(restored.capacity, 0);
}

#[test]
fn test_deserialize_rejects_garbage() {
    assert!(matches!(
        CacheSystem::deserialize(b"not json at all"),
        Err(SerializeError::DeserializeError)
    ));
    assert!(matches!(
        CacheSystem::deserialize(b""),
        Err(SerializeError::DeserializeError)
    ));
    // Whitespace is not part of the canonical form.
    assert!(matches!(
        CacheSystem::deserialize(b"{ }"),
        Err(SerializeError::DeserializeError)
    ));
}

#[test]
fn test_deserialize_rejects_non_canonical() {
    // Readable, but a duplicate key: no store encodes to this document.
    let dup = "{\"1\":{\"value\":\"a\",\"creation_time\":1,\"last_accessed_time\":1},\"1\":{\"value\":\"b\",\"creation_time\":2,\"last_accessed_time\":2}}";
    assert!(matches!(
        CacheSystem::deserialize(dup.as_bytes()),
        Err(SerializeError::InvalidFormat)
    ));
    // Readable, but the key carries a leading zero: not canonical.
    let padded = "{\"01\":{\"value\":\"a\",\"creation_time\":1,\"last_accessed_time\":1}}";
    assert!(matches!(
        CacheSystem::deserialize(padded.as_bytes()),
        Err(SerializeError::InvalidFormat)
    ));
}

#[test]
fn test_insert_at_capacity_changes_nothing() {
    let mut cache: CacheSystem<String> = CacheSystem::new(2);
    cache.insert_data(10, String::from("a")).unwrap();
    cache.insert_data(20, String::from("b")).unwrap();
    assert_eq!(cache.entries.len(), 2);
    assert!(matches!(
        cache.insert_data(30, String::from("c")),
        Err(CacheSystemError::CacheFull)
    ));
    assert_eq!(cache.entries.len(), 2);
    assert_eq!(cache.order, VecDeque::from(vec![10, 20]));
    assert_eq!(cache.recently_used, VecDeque::from(vec![10, 20]));
}

#[test]
fn test_get_absent_key() {
    let mut empty_cache: CacheSystem<String> = CacheSystem::new(3);
    assert!(empty_cache.get_data(1).is_none());

    let mut cache: CacheSystem<String> = CacheSystem::new(3);
    cache.insert_data(1, String::from("here")).unwrap();
    assert!(cache.get_data(2).is_none());
    // The miss changed nothing.
    assert_eq!(cache.entries.len(), 1);
    assert_eq!(cache.recently_used, VecDeque::from(vec![1]));
}

#[test]
fn test_overwrite_keeps_positions() {
    let mut cache: CacheSystem<String> = CacheSystem::new(3);
    cache.insert_data(1, String::from("first")).unwrap();
    cache.insert_data(2, String::from("second")).unwrap();
    cache.insert_data(1, String::from("replaced")).unwrap();
    assert_eq!(cache.entries.len(), 2);
    assert_eq!(cache.order, VecDeque::from(vec![1, 2]));
    assert_eq!(cache.recently_used, VecDeque::from(vec![1, 2]));
    assert_eq!(cache.get_data(1).unwrap().value, "replaced");
}

#[test]
fn test_fifo_removes_earliest_inserted() {
    let mut cache: CacheSystem<String> = CacheSystem::new(3);
    cache.insert_data(1, String::from("A")).unwrap();
    cache.insert_data(2, String::from("B")).unwrap();
    cache.insert_data(3, String::from("C")).unwrap();
    cache.fifo().unwrap();
    assert!(cache.get_data(1).is_none());
    assert_eq!(cache.get_data(2).unwrap().value, "B");
    assert_eq!(cache.get_data(3).unwrap().value, "C");
}

#[test]
fn test_lru_removes_least_recently_read() {
    let mut cache: CacheSystem<String> = CacheSystem::new(3);
    cache.insert_data(1, String::from("A")).unwrap();
    cache.insert_data(2, String::from("B")).unwrap();
    cache.insert_data(3, String::from("C")).unwrap();
    let _ = cache.get_data(2);
    let _ = cache.get_data(3);
    cache.lru().unwrap();
    assert!(cache.get_data(1).is_none());
    assert_eq!(cache.get_data(2).unwrap().value, "B");
    assert_eq!(cache.get_data(3).unwrap().value, "C");
}

#[test]
fn test_evictions_fail_below_capacity() {
    let mut cache: CacheSystem<String> = CacheSystem::new(3);
    cache.insert_data(1, String::from("only")).unwrap();
    assert!(matches!(cache.fifo(), Err(CacheSystemError::CacheNotFull)));
    assert!(matches!(cache.lru(), Err(CacheSystemError::CacheNotFull)));
    assert_eq!(cache.entries.len(), 1);
}

#[test]
fn test_clear_twice() {
    let mut cache: CacheSystem<String> = CacheSystem::new(3);
    cache.insert_data(1, String::from("gone soon")).unwrap();
    cache.clear_cache().unwrap();
    assert!(cache.entries.is_empty());
    assert!(cache.order.is_empty());
    assert!(cache.recently_used.is_empty());
    assert!(matches!(
        cache.clear_cache(),
        Err(CacheSystemError::CacheAlreadyEmpty)
    ));
}

#[test]
fn test_capacity_zero_eviction_reports_invalid_key() {
    let mut cache: CacheSystem<String> = CacheSystem::new(0);
    assert!(matches!(
        cache.insert_data(1, String::from("no room")),
        Err(CacheSystemError::CacheFull)
    ));
    assert!(matches!(cache.fifo(), Err(CacheSystemError::InvalidKey)));
    assert!(matches!(cache.lru(), Err(CacheSystemError::InvalidKey)));
}

#[test]
fn test_entry_timestamps_start_equal() {
    let entry = CacheEntry::new(String::from("hey"));
    assert_eq!(entry.creation_time, entry.last_accessed_time);
    assert_eq!(entry.value, "hey");
}

#[test]
fn test_lengths_agree_through_operations() {
    let mut cache: CacheSystem<String> = CacheSystem::new(3);
    cache.insert_data(1, String::from("a")).unwrap();
    cache.insert_data(2, String::from("b")).unwrap();
    let _ = cache.get_data(1);
    cache.insert_data(3, String::from("c")).unwrap();
    cache.lru().unwrap();
    assert_eq!(cache.entries.len(), cache.order.len());
    assert_eq!(cache.entries.len(), cache.recently_used.len());
    assert!(cache.entries.len() <= cache.capacity as usize);
    cache.clear_cache().unwrap();
    assert_eq!(cache.entries.len(), 0);
    assert_eq!(cache.order.len(), 0);
    assert_eq!(cache.recently_used.len(), 0);
}
