use linked_queue::kvstore::KVStore;

#[test]
fn test_get() {
}

#[test]
fn test_insert_returns_none() {
    let mut s: KVStore<u64, String> = KVStore::new();
    assert_eq!(s.insert_or_update(1, String::from("a")), None);
    // Updating an existing key still discards the previous binding.
    assert_eq!(s.insert_or_update(1, String::from("b")), None);
    assert_eq!(s.insert_or_update(2, String::from("c")), None);
}
