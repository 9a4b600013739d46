// Tests for the cache policy engine.

use dejafoo::cache::policy::CachePolicy;
use dejafoo::http::HttpResponse;

#[test]
fn test_default_policy() {
    let policy = CachePolicy::default();

    assert_eq!(policy.default_ttl, 3600);
    assert_eq!(policy.max_body_size, 10 * 1024 * 1024);
    assert!(policy.headers_to_vary.contains(&"authorization".to_string()));
}

#[test]
fn policy_test_endpoint_policy_matching() {
    let policy = CachePolicy::default();

    // Test exact match
    assert!(policy.is_endpoint_cacheable("GET", "/api/users"));
    assert!(!policy.is_endpoint_cacheable("POST", "/api/users"));

    // Test wildcard match
    assert!(!policy.is_endpoint_cacheable("POST", "/api/anything"));
}

#[test]
fn test_should_cache_response() {
    let policy = CachePolicy::default();

    // Test successful response
    let success_response = HttpResponse {
        status_code: 200,
        headers: Vec::new(),
        body: "{\"data\": \"test\"}".to_string(),
    };
    assert!(policy.should_cache(&success_response));

    // Test error response
    let error_response = HttpResponse {
        status_code: 404,
        headers: Vec::new(),
        body: "Not found".to_string(),
    };
    assert!(!policy.should_cache(&error_response));

    // Test no-cache header
    let no_cache_response = HttpResponse {
        status_code: 200,
        headers: vec![("Cache-Control".to_string(), "no-cache".to_string())],
        body: "{\"data\": \"test\"}".to_string(),
    };
    assert!(!policy.should_cache(&no_cache_response));
}

#[test]
fn test_pattern_matching() {
    let policy = CachePolicy::default();

    // Test exact match
    assert!(policy.matches_pattern("GET /api/users", "GET", "/api/users"));
    assert!(!policy.matches_pattern("GET /api/users", "POST", "/api/users"));

    // Test wildcard match
    assert!(policy.matches_pattern("POST *", "POST", "/api/anything"));
    assert!(!policy.matches_pattern("POST *", "GET", "/api/anything"));

    // Test prefix match
    assert!(policy.matches_pattern("GET /api/*", "GET", "/api/users"));
    assert!(!policy.matches_pattern("GET /api/*", "GET", "/other/path"));
}

#[test]
fn test_exact_match_beats_patterns() {
    // Both a prefix rule and an exact rule are present; the exact rule must
    // win, whatever the declaration order says.
    let mut policy = CachePolicy::default();
    policy.endpoint_policies.clear();
    let mut wildcard = dejafoo::cache::policy::EndpointPolicy {
        ttl: Some(60),
        max_body_size: None,
        headers_to_vary: None,
        cacheable: false,
        methods: vec!["GET".to_string()],
    };
    policy
        .endpoint_policies
        .push(("GET /api/*".to_string(), wildcard.clone()));
    wildcard.ttl = Some(300);
    wildcard.cacheable = true;
    policy
        .endpoint_policies
        .push(("GET /api/users".to_string(), wildcard));

    // The exact rule is cacheable with TTL 300; the wildcard is not.
    assert!(policy.is_endpoint_cacheable("GET", "/api/users"));
    assert_eq!(policy.get_ttl("GET", "/api/users"), 300);
    // A path that only the wildcard matches follows the wildcard.
    assert!(!policy.is_endpoint_cacheable("GET", "/api/other"));
    assert_eq!(policy.get_ttl("GET", "/api/other"), 60);
}

#[test]
fn test_body_size_rejection() {
    let mut policy = CachePolicy::default();
    policy.max_body_size = 8;
    let big = HttpResponse {
        status_code: 200,
        headers: Vec::new(),
        body: "123456789".to_string(),
    };
    assert!(!policy.should_cache(&big));
    let small = HttpResponse {
        status_code: 200,
        headers: Vec::new(),
        body: "12345678".to_string(),
    };
    assert!(policy.should_cache(&small));
}

#[test]
fn test_no_store_rejection() {
    let policy = CachePolicy::default();
    let response = HttpResponse {
        status_code: 200,
        headers: vec![("cache-control".to_string(), "private, no-store".to_string())],
        body: "x".to_string(),
    };
    assert!(!policy.should_cache(&response));
}

#[test]
fn test_policy_overrides() {
    let policy = CachePolicy::default();
    // The seeded exact rule for GET /api/users carries its own limits.
    assert_eq!(policy.get_ttl("GET", "/api/users"), 300);
    assert_eq!(policy.get_max_body_size("GET", "/api/users"), 1024 * 1024);
    assert_eq!(policy.get_headers_to_vary("GET", "/api/users"), &vec!["authorization".to_string()]);
    // An unmatched endpoint falls back to the defaults.
    assert_eq!(policy.get_ttl("GET", "/elsewhere"), 3600);
    assert_eq!(policy.get_max_body_size("GET", "/elsewhere"), 10 * 1024 * 1024);
    assert_eq!(policy.get_headers_to_vary("GET", "/elsewhere").len(), 3);
}

#[test]
fn test_pattern_specificity_precedence() {
    // a broad pattern declared first must not shadow a more specific one
    let mut policy = CachePolicy::default();
    policy.endpoint_policies.clear();
    let broad = dejafoo::cache::policy::EndpointPolicy {
        ttl: Some(10),
        max_body_size: None,
        headers_to_vary: None,
        cacheable: false,
        methods: vec!["GET".to_string()],
    };
    let mut narrow = broad.clone();
    narrow.ttl = Some(120);
    narrow.cacheable = true;
    policy.endpoint_policies.push(("GET *".to_string(), broad));
    policy.endpoint_policies.push(("GET /api/*".to_string(), narrow));

    // the longer prefix wins although the broad rule stands first
    assert!(policy.is_endpoint_cacheable("GET", "/api/x"));
    assert_eq!(policy.get_ttl("GET", "/api/x"), 120);
    // outside the narrow prefix the broad rule applies
    assert!(!policy.is_endpoint_cacheable("GET", "/other"));
    assert_eq!(policy.get_ttl("GET", "/other"), 10);
    // with equal specificity, declaration order decides
    let repeat = policy.endpoint_policies[1].1.clone();
    let mut shadow = repeat.clone();
    shadow.ttl = Some(999);
    policy.endpoint_policies.push(("get /api/*".to_string(), shadow));
    assert_eq!(policy.get_ttl("GET", "/api/x"), 120);
    let _ = repeat;
}
