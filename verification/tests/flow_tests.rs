// End-to-end tests across the cache core: normalization, fingerprinting,
// policy and storage working together.

use dejafoo::cache::key::CacheKey;
use dejafoo::cache::policy::CachePolicy;
use dejafoo::cache::store::CacheStore;
use dejafoo::http::HttpRequest;
use dejafoo::http::HttpResponse;
use dejafoo::http::extract_ttl_from_path;
use dejafoo::proxy::fetch::extract_headers;
use dejafoo::proxy::fetch::filter_headers;
use dejafoo::json::Json;
use dejafoo::proxy::normalize::normalize_request;
use dejafoo::proxy::normalize::normalize_response;

fn header_get<'a>(headers: &'a [(String, String)], name: &str) -> Option<&'a String> {
    headers.iter().find(|(k, _)| k == name).map(|(_, v)| v)
}

fn has_header(headers: &[(String, String)], name: &str) -> bool {
    header_get(headers, name).is_some()
}

#[test]
fn test_cache_flow_basic() {
    let request = HttpRequest {
        method: "GET".to_string(),
        path: "/api/users".to_string(),
        headers: vec![
            ("Content-Type".to_string(), "application/json".to_string()),
            ("Authorization".to_string(), "Bearer token123".to_string()),
        ],
        body: String::new(),
    };

    let _normalized_request = normalize_request(&request);

    let cache_key = CacheKey::new("GET", "/api/users", &request.headers, "").unwrap();

    let mock_response = HttpResponse {
        status_code: 200,
        headers: vec![("Content-Type".to_string(), "application/json".to_string())],
        body: r#"{"users": [{"id": 1, "name": "test"}]}"#.to_string(),
    };
    let normalized_response = normalize_response(&mock_response);
    assert_eq!(normalized_response.status_code, 200);

    assert_eq!(cache_key.method, "GET");
    assert_eq!(cache_key.path, "/api/users");
    assert!(!cache_key.key_hash.is_empty());
}

#[test]
fn test_cache_policy_application() {
    let policy = CachePolicy::default();

    let ok = HttpResponse {
        status_code: 200,
        headers: vec![("Content-Type".to_string(), "application/json".to_string())],
        body: "{\"data\": \"test\"}".to_string(),
    };
    assert!(policy.should_cache(&ok));

    let not_found = HttpResponse {
        status_code: 404,
        headers: vec![("Content-Type".to_string(), "application/json".to_string())],
        body: "{\"error\": \"Not found\"}".to_string(),
    };
    assert!(!policy.should_cache(&not_found));

    let no_cache = HttpResponse {
        status_code: 200,
        headers: vec![("Cache-Control".to_string(), "no-cache".to_string())],
        body: "{\"data\": \"test\"}".to_string(),
    };
    assert!(!policy.should_cache(&no_cache));
}

#[test]
fn test_cache_flow_test_endpoint_policy_matching() {
    let policy = CachePolicy::default();

    assert!(policy.is_endpoint_cacheable("GET", "/api/users"));
    assert!(!policy.is_endpoint_cacheable("POST", "/api/users"));
    assert!(!policy.is_endpoint_cacheable("POST", "/api/anything"));
    assert!(policy.is_endpoint_cacheable("GET", "/api/unknown"));
}

#[test]
fn test_request_normalization() {
    let request = HttpRequest {
        method: "GET".to_string(),
        path: "/api/users/".to_string(),
        headers: vec![
            ("Content-Type".to_string(), "application/json".to_string()),
            ("Authorization".to_string(), "Bearer token123".to_string()),
        ],
        body: "{\"id\": 1, \"name\": \"test\"}".to_string(),
    };

    let normalized = normalize_request(&request);

    assert_eq!(normalized.path, "/api/users");
    assert!(has_header(&normalized.headers, "content-type"));
    assert!(has_header(&normalized.headers, "authorization"));
    assert_eq!(normalized.body, "{\"id\":1,\"name\":\"test\"}");
}

#[test]
fn test_cache_key_consistency() {
    let headers1 = vec![
        ("Content-Type".to_string(), "application/json".to_string()),
        ("Authorization".to_string(), "Bearer token123".to_string()),
    ];
    let headers2 = vec![
        ("Content-Type".to_string(), "application/json".to_string()),
        ("Authorization".to_string(), "Bearer token456".to_string()),
    ];

    let key1 = CacheKey::new("GET", "/api/users", &headers1, "").unwrap();
    let key2 = CacheKey::new("GET", "/api/users", &headers2, "").unwrap();

    // Authorization never influences the digest, so the keys agree
    assert_eq!(key1.key_hash, key2.key_hash);
    assert_eq!(
        header_get(&key1.normalized_headers, "content-type"),
        Some(&"application/json".to_string())
    );
}

#[test]
fn test_cache_key_exclusion() {
    let headers = vec![
        ("Content-Type".to_string(), "application/json".to_string()),
        ("Authorization".to_string(), "Bearer token123".to_string()),
        ("X-Forwarded-For".to_string(), "192.168.1.1".to_string()),
        ("User-Agent".to_string(), "Mozilla/5.0".to_string()),
        ("Accept-Encoding".to_string(), "gzip".to_string()),
    ];

    let key = CacheKey::new("GET", "/api/test", &headers, "").unwrap();

    assert!(!has_header(&key.normalized_headers, "authorization"));
    assert!(!has_header(&key.normalized_headers, "x-forwarded-for"));
    assert!(!has_header(&key.normalized_headers, "user-agent"));
    assert!(!has_header(&key.normalized_headers, "accept-encoding"));
    assert!(has_header(&key.normalized_headers, "content-type"));
}

#[test]
fn test_large_response_handling() {
    // a response over the inline threshold round-trips through the store
    let mut store = CacheStore::new_in_memory(1024, 3600);
    let headers = Vec::new();
    let key = store.generate_key("GET", "/api/large", &headers, "").unwrap();

    let large_body = "y".repeat(5000);
    let response = HttpResponse {
        status_code: 200,
        headers: vec![("Content-Type".to_string(), "application/json".to_string())],
        body: large_body.clone(),
    };
    let normalized = normalize_response(&response);
    store.set_with_ttl(&key, &normalized.body, None, 0).unwrap();
    assert_eq!(store.get(&key, 0).unwrap(), Some(large_body));
}

#[test]
fn test_error_handling() {
    // an unparseable body degrades to an opaque string
    let request = HttpRequest {
        method: "POST".to_string(),
        path: "/api/users".to_string(),
        headers: vec![("Content-Type".to_string(), "application/json".to_string())],
        body: "invalid json".to_string(),
    };
    let normalized = normalize_request(&request);
    assert_eq!(normalized.body, "invalid json");

    // a path without a leading slash gains one
    let request2 = HttpRequest {
        method: "GET".to_string(),
        path: "invalid-path".to_string(),
        headers: Vec::new(),
        body: String::new(),
    };
    let normalized2 = normalize_request(&request2);
    assert_eq!(normalized2.path, "/invalid-path");
}

#[test]
fn test_end_to_end_scenarios() {
    // a POST body with a null member normalizes to the member-free form
    let request = HttpRequest {
        method: "POST".to_string(),
        path: "/api/users".to_string(),
        headers: Vec::new(),
        body: "{\"a\":1,\"b\":null}".to_string(),
    };
    let normalized = normalize_request(&request);
    assert_eq!(normalized.body, "{\"a\":1}");

    // a ttl=30m query parameter means an effective TTL of 1800 seconds
    assert_eq!(extract_ttl_from_path("/x?ttl=30m"), Some(1800));

    // Authorization stays out of the digest, content-type goes in
    let headers = vec![
        ("Content-Type".to_string(), "application/json".to_string()),
        ("Authorization".to_string(), "Bearer t".to_string()),
    ];
    let with_auth = CacheKey::new("GET", "/api/users", &headers, "").unwrap();
    let without_auth = CacheKey::new(
        "GET",
        "/api/users",
        &vec![("Content-Type".to_string(), "application/json".to_string())],
        "",
    )
    .unwrap();
    assert_eq!(with_auth.key_hash, without_auth.key_hash);

    let other_type = CacheKey::new(
        "GET",
        "/api/users",
        &vec![("Content-Type".to_string(), "text/plain".to_string())],
        "",
    )
    .unwrap();
    assert_ne!(with_auth.key_hash, other_type.key_hash);
}

#[test]
fn test_filter_headers() {
    let headers = vec![
        ("Content-Type".to_string(), "application/json".to_string()),
        ("X-Forwarded-For".to_string(), "192.168.1.1".to_string()),
        ("Authorization".to_string(), "Bearer token123".to_string()),
    ];

    let filtered = filter_headers(&headers);

    // X-Forwarded-For should be excluded
    assert!(!has_header(&filtered, "X-Forwarded-For"));

    // Other headers should be included
    assert_eq!(header_get(&filtered, "Content-Type"), Some(&"application/json".to_string()));
    assert_eq!(header_get(&filtered, "Authorization"), Some(&"Bearer token123".to_string()));
}

#[test]
fn test_extract_headers() {
    let request = Json::Obj(vec![(
        "headers".to_string(),
        Json::Obj(vec![
            ("Content-Type".to_string(), Json::Str("application/json".to_string())),
            ("Authorization".to_string(), Json::Str("Bearer token123".to_string())),
        ]),
    )]);

    let headers = extract_headers(&request);
    assert_eq!(header_get(&headers, "Content-Type"), Some(&"application/json".to_string()));
    assert_eq!(header_get(&headers, "Authorization"), Some(&"Bearer token123".to_string()));
}
