// Tests for the tiered, TTL-aware store.

use dejafoo::cache::store::CacheStore;
use dejafoo::cache::store::RecordOutcome;
use dejafoo::cache::store::blob_key_for;
use dejafoo::cache::store::interpret_record;
use dejafoo::cache::store::plan_payload_tier;

#[test]
fn store_test_cache_key_generation() {
    let store = CacheStore::new_in_memory(1024 * 1024, 3600);
    let headers = Vec::new();
    let key = store.generate_key("GET", "/api/test", &headers, "{}").unwrap();
    assert_eq!(key.method, "GET");
    assert_eq!(key.path, "/api/test");

    // Test that the key string is generated
    let key_string = key.to_string();
    assert!(!key_string.is_empty());
    assert!(key_string.len() > 10); // Should be a reasonable hash length
}

#[test]
fn test_ttl_lifecycle() {
    // set with a five-second TTL, hit immediately, miss once time passes,
    // and the record is gone afterwards
    let mut store = CacheStore::new_in_memory(1024, 3600);
    let headers = Vec::new();
    let key = store.generate_key("GET", "/api/test", &headers, "").unwrap();
    let now = 1_000;
    store.set_with_ttl(&key, "{\"cached\":true}", Some(5), now).unwrap();

    let hit = store.get(&key, now).unwrap();
    assert_eq!(hit, Some("{\"cached\":true}".to_string()));

    let still = store.get(&key, now + 5).unwrap();
    assert_eq!(still, Some("{\"cached\":true}".to_string()));

    let miss = store.get(&key, now + 6).unwrap();
    assert_eq!(miss, None);

    // the record was deleted by the expired read: even at the old time it
    // stays gone
    let gone = store.get(&key, now).unwrap();
    assert_eq!(gone, None);
}

#[test]
fn test_tier_transparency() {
    // a payload over the inline cap goes to the blob tier and still reads
    // back byte-identical
    let mut store = CacheStore::new_in_memory(16, 3600);
    let headers = Vec::new();
    let key = store.generate_key("GET", "/api/big", &headers, "").unwrap();
    let large = "x".repeat(100);
    let now = 50;
    store.set_with_ttl(&key, &large, None, now).unwrap();
    let hit = store.get(&key, now).unwrap();
    assert_eq!(hit, Some(large.clone()));

    // a small payload stays inline and reads back the same way
    let key2 = store.generate_key("GET", "/api/small", &headers, "").unwrap();
    store.set_with_ttl(&key2, "tiny", None, now).unwrap();
    assert_eq!(store.get(&key2, now).unwrap(), Some("tiny".to_string()));
}

#[test]
fn test_set_overwrites() {
    let mut store = CacheStore::new_in_memory(1024, 3600);
    let headers = Vec::new();
    let key = store.generate_key("GET", "/api/test", &headers, "").unwrap();
    store.set(&key, "first", 10).unwrap();
    store.set(&key, "second", 20).unwrap();
    assert_eq!(store.get(&key, 20).unwrap(), Some("second".to_string()));
}

#[test]
fn test_delete_removes_entry() {
    let mut store = CacheStore::new_in_memory(8, 3600);
    let headers = Vec::new();
    let key = store.generate_key("DELETE", "/api/test", &headers, "").unwrap();
    store.set_with_ttl(&key, "a payload past the cap", Some(60), 0).unwrap();
    assert!(store.get(&key, 1).unwrap().is_some());
    store.delete(&key).unwrap();
    assert_eq!(store.get(&key, 1).unwrap(), None);
    // deleting again still succeeds
    store.delete(&key).unwrap();
}

#[test]
fn test_cleanup_expired() {
    let mut store = CacheStore::new_in_memory(1024, 3600);
    let headers = Vec::new();
    let k1 = store.generate_key("GET", "/a", &headers, "").unwrap();
    let k2 = store.generate_key("GET", "/b", &headers, "").unwrap();
    let k3 = store.generate_key("GET", "/c", &headers, "").unwrap();
    store.set_with_ttl(&k1, "one", Some(10), 0).unwrap();
    store.set_with_ttl(&k2, "two", Some(50), 0).unwrap();
    store.set_with_ttl(&k3, "three", Some(90), 0).unwrap();

    let removed = store.cleanup_expired(60);
    assert_eq!(removed, 2);
    assert_eq!(store.get(&k1, 60).unwrap(), None);
    assert_eq!(store.get(&k2, 60).unwrap(), None);
    assert_eq!(store.get(&k3, 60).unwrap(), Some("three".to_string()));
}

#[test]
fn test_blob_key_format() {
    assert_eq!(blob_key_for("abc123", 1700000000), "responses/abc123/1700000000");
}

#[test]
fn test_interpret_record() {
    // live record with an inline payload
    let r = interpret_record(Some("100"), None, Some("body"), 50);
    assert!(matches!(r, RecordOutcome::Inline(ref s) if s == "body"));

    // live record pointing at the blob tier
    let r = interpret_record(Some("100"), Some("responses/k/100"), None, 50);
    assert!(matches!(r, RecordOutcome::Blob(ref s) if s == "responses/k/100"));

    // expired record
    let r = interpret_record(Some("100"), None, Some("body"), 101);
    assert!(matches!(r, RecordOutcome::Expired));

    // malformed TTL text is a corrupt entry, not a miss
    let r = interpret_record(Some("not-a-number"), None, Some("body"), 50);
    assert!(matches!(r, RecordOutcome::Corrupt));

    // a record with no payload at all
    let r = interpret_record(Some("100"), None, None, 50);
    assert!(matches!(r, RecordOutcome::NoData));

    // no TTL field means the record never expires on read
    let r = interpret_record(None, None, Some("body"), u64::MAX);
    assert!(matches!(r, RecordOutcome::Inline(_)));
}

#[test]
fn test_generate_key_with_subdomain() {
    let store = CacheStore::new_in_memory(1024, 3600);
    let headers = Vec::new();
    let plain = store
        .generate_key_with_subdomain("GET", "/api", &headers, "", None)
        .unwrap();
    let tenant_a = store
        .generate_key_with_subdomain("GET", "/api", &headers, "", Some("acme"))
        .unwrap();
    let tenant_b = store
        .generate_key_with_subdomain("GET", "/api", &headers, "", Some("globex"))
        .unwrap();
    assert_ne!(plain.key_hash, tenant_a.key_hash);
    assert_ne!(tenant_a.key_hash, tenant_b.key_hash);

    // the TTL override never reaches the digest
    let with_ttl = store
        .generate_key_with_subdomain_and_ttl("GET", "/api", &headers, "", Some("acme"), Some(60))
        .unwrap();
    assert_eq!(tenant_a.key_hash, with_ttl.key_hash);
}

#[test]
fn test_plan_payload_tier() {
    // over the cap: the payload goes to the blob tier under the derived key
    assert_eq!(plan_payload_tier("abc", "0123456789", 4, 77), Some("responses/abc/77".to_string()));
    // at or under the cap: embedded inline
    assert_eq!(plan_payload_tier("abc", "0123", 4, 77), None);
}
