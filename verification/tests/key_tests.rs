// Tests for cache key generation and canonicalization.

use dejafoo::cache::key::CacheKey;

fn header_get<'a>(headers: &'a [(String, String)], name: &str) -> Option<&'a String> {
    headers.iter().find(|(k, _)| k == name).map(|(_, v)| v)
}

fn has_header(headers: &[(String, String)], name: &str) -> bool {
    header_get(headers, name).is_some()
}

#[test]
fn key_test_cache_key_generation() {
    let headers = vec![
        ("Content-Type".to_string(), "application/json".to_string()),
        ("Authorization".to_string(), "Bearer token123".to_string()),
    ];

    let key = CacheKey::new("GET", "/api/users", &headers, r#"{"id": 1}"#).unwrap();

    // Authorization header should be excluded
    assert!(!has_header(&key.normalized_headers, "authorization"));

    // Content-Type should be included and normalized
    assert_eq!(
        header_get(&key.normalized_headers, "content-type"),
        Some(&"application/json".to_string())
    );

    // Method should be uppercase
    assert_eq!(key.method, "GET");

    // Path should be normalized
    assert_eq!(key.path, "/api/users");
}

#[test]
fn key_test_path_normalization() {
    let headers = Vec::new();

    // Test trailing slash removal
    let key1 = CacheKey::new("GET", "/api/users/", &headers, "").unwrap();
    assert_eq!(key1.path, "/api/users");

    // Test query parameter removal
    let key2 = CacheKey::new("GET", "/api/users?page=1&limit=10", &headers, "").unwrap();
    assert_eq!(key2.path, "/api/users");

    // Test root path preservation
    let key3 = CacheKey::new("GET", "/", &headers, "").unwrap();
    assert_eq!(key3.path, "/");
}

#[test]
fn key_test_consistent_hashing() {
    let headers = Vec::new();

    let key1 = CacheKey::new("GET", "/api/users", &headers, "").unwrap();
    let key2 = CacheKey::new("GET", "/api/users", &headers, "").unwrap();

    // Same inputs should produce same hash
    assert_eq!(key1.key_hash, key2.key_hash);

    // Different inputs should produce different hashes
    let key3 = CacheKey::new("POST", "/api/users", &headers, "").unwrap();
    assert_ne!(key1.key_hash, key3.key_hash);
}

#[test]
fn test_key_path_canonical_form() {
    let headers = Vec::new();

    // the key's path follows the canonical form: fragment stripped and a
    // leading slash forced, exactly as the request normalizer sees it
    let key1 = CacheKey::new("GET", "/api/users#section", &headers, "").unwrap();
    assert_eq!(key1.path, "/api/users");

    let key2 = CacheKey::new("GET", "api/users", &headers, "").unwrap();
    assert_eq!(key2.path, "/api/users");

    // and the digest follows the canonical path, not the raw one
    let canonical = CacheKey::new("GET", "/api/users", &headers, "").unwrap();
    assert_eq!(key1.key_hash, canonical.key_hash);
    assert_eq!(key2.key_hash, canonical.key_hash);
}
