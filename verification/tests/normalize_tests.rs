// Tests for request/response canonicalization.

use dejafoo::http::HttpRequest;
use dejafoo::http::HttpResponse;
use dejafoo::json::Json;
use dejafoo::json::to_json_string;
use dejafoo::proxy::normalize::add_cache_headers;
use dejafoo::proxy::normalize::normalize_header_name;
use dejafoo::proxy::normalize::normalize_json_value;
use dejafoo::proxy::normalize::normalize_path;
use dejafoo::proxy::normalize::normalize_request;
use dejafoo::proxy::normalize::normalize_response;
use dejafoo::proxy::normalize::strip_sensitive_headers;

fn header_get<'a>(headers: &'a [(String, String)], name: &str) -> Option<&'a String> {
    headers.iter().find(|(k, _)| k == name).map(|(_, v)| v)
}

fn has_header(headers: &[(String, String)], name: &str) -> bool {
    header_get(headers, name).is_some()
}

#[test]
fn test_normalize_header_name() {
    assert_eq!(normalize_header_name("Content-Type"), "content-type");
    assert_eq!(normalize_header_name("  Authorization  "), "authorization");
}

#[test]
fn test_normalize_path() {
    assert_eq!(normalize_path("/api/users"), "/api/users");
    assert_eq!(normalize_path("/api/users/"), "/api/users");
    assert_eq!(normalize_path("/api/users?page=1"), "/api/users");
    assert_eq!(normalize_path("/api/users#section"), "/api/users");
    assert_eq!(normalize_path("api/users"), "/api/users");
    assert_eq!(normalize_path("/"), "/");
}

#[test]
fn test_normalize_json_value() {
    let input = Json::Obj(vec![
        ("c".to_string(), Json::Num("3".to_string())),
        ("a".to_string(), Json::Num("1".to_string())),
        ("b".to_string(), Json::Null),
        (
            "d".to_string(),
            Json::Obj(vec![
                ("z".to_string(), Json::Num("2".to_string())),
                ("y".to_string(), Json::Num("1".to_string())),
            ]),
        ),
    ]);

    let normalized = normalize_json_value(&input);

    // Keys should be sorted and null members removed
    match &normalized {
        Json::Obj(members) => {
            let keys: Vec<&String> = members.iter().map(|(k, _)| k).collect();
            assert_eq!(keys, vec!["a", "c", "d"]);
        }
        other => panic!("expected an object, got {:?}", other),
    }
    assert_eq!(to_json_string(&normalized), "{\"a\":1,\"c\":3,\"d\":{\"y\":1,\"z\":2}}");
}

#[test]
fn test_normalize_request() {
    let request = HttpRequest {
        method: "GET".to_string(),
        path: "/api/users/".to_string(),
        headers: vec![
            ("Content-Type".to_string(), "application/json".to_string()),
            ("Authorization".to_string(), "Bearer token123".to_string()),
        ],
        body: "{\"id\": 1, \"name\": \"test\"}".to_string(),
    };

    let normalized = normalize_request(&request);

    // Path should be normalized
    assert_eq!(normalized.path, "/api/users");

    // Headers should be lowercase
    assert!(has_header(&normalized.headers, "content-type"));
    assert!(has_header(&normalized.headers, "authorization"));

    // Body should be normalized JSON
    assert_eq!(normalized.body, "{\"id\":1,\"name\":\"test\"}");
}

#[test]
fn test_response_normalization() {
    let response = HttpResponse {
        status_code: 200,
        headers: vec![
            ("Content-Type".to_string(), "application/json".to_string()),
            ("X-Custom-Header".to_string(), "custom-value".to_string()),
        ],
        body: "{\"data\": \"test\", \"null_field\": null}".to_string(),
    };

    let normalized = normalize_response(&response);

    assert_eq!(normalized.status_code, 200);
    assert!(has_header(&normalized.headers, "content-type"));
    assert!(has_header(&normalized.headers, "x-custom-header"));
    assert_eq!(normalized.body, "{\"data\":\"test\"}");
}

#[test]
fn test_strip_sensitive_headers() {
    let mut headers = vec![
        ("content-type".to_string(), "application/json".to_string()),
        ("authorization".to_string(), "Bearer token123".to_string()),
        ("x-api-key".to_string(), "secret-key".to_string()),
    ];

    strip_sensitive_headers(&mut headers);

    // Sensitive headers should be removed
    assert!(!has_header(&headers, "authorization"));
    assert!(!has_header(&headers, "x-api-key"));

    // Other headers should remain
    assert!(has_header(&headers, "content-type"));
}

#[test]
fn test_add_cache_headers() {
    let mut headers: Vec<(String, String)> = Vec::new();
    add_cache_headers(&mut headers, 3600);

    assert_eq!(header_get(&headers, "cache-control"), Some(&"public, max-age=3600".to_string()));
    assert_eq!(header_get(&headers, "x-cache"), Some(&"HIT".to_string()));
    assert_eq!(header_get(&headers, "x-cache-ttl"), Some(&"3600".to_string()));
}

#[test]
fn test_string_whitespace_collapse() {
    let input = Json::Str("  a \t\t b\r\nc  ".to_string());
    let normalized = normalize_json_value(&input);
    match normalized {
        Json::Str(s) => assert_eq!(s, "a b c"),
        other => panic!("expected a string, got {:?}", other),
    }
}

#[test]
fn test_non_json_body_passthrough() {
    let request = HttpRequest {
        method: "POST".to_string(),
        path: "/api/users".to_string(),
        headers: Vec::new(),
        body: "invalid json".to_string(),
    };
    let normalized = normalize_request(&request);
    assert_eq!(normalized.body, "invalid json");

    let request2 = HttpRequest {
        method: "GET".to_string(),
        path: "invalid-path".to_string(),
        headers: Vec::new(),
        body: String::new(),
    };
    let normalized2 = normalize_request(&request2);
    assert_eq!(normalized2.path, "/invalid-path");
}

#[test]
fn test_path_idempotence() {
    // one normalization pass reaches a fixed point on ordinary paths
    for p in ["/a/b/", "/a?x=1", "/", "a/b", "/api/users#frag", "  /x  "] {
        let once = normalize_path(p);
        let twice = normalize_path(&once);
        assert_eq!(once, twice);
    }
    // a doubled trailing slash is the known exception: each pass strips one
    assert_eq!(normalize_path("/a//"), "/a/");
    assert_eq!(normalize_path(&normalize_path("/a//")), "/a");
}
