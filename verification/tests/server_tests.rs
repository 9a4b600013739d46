// Tests for the local server's text-level HTTP handling.

use dejafoo::http::HttpResponse;
use dejafoo::http::extract_subdomain;
use dejafoo::http::extract_ttl_from_path;
use dejafoo::http::format_response;
use dejafoo::http::parse_http_request;
use dejafoo::http::parse_port;
use dejafoo::http::parse_ttl_string;

fn header_get<'a>(headers: &'a [(String, String)], name: &str) -> Option<&'a String> {
    headers.iter().find(|(k, _)| k == name).map(|(_, v)| v)
}

#[test]
fn test_parse_port() {
    let args = vec!["program".to_string(), "--port".to_string(), "3000".to_string()];
    assert_eq!(parse_port(&args), Some(3000));

    let args = vec!["program".to_string()];
    assert_eq!(parse_port(&args), None);
}

#[test]
fn test_parse_http_request() {
    let request = "GET /test HTTP/1.1\r\nHost: localhost\r\n\r\n";
    let parsed = parse_http_request(request).unwrap();

    assert_eq!(parsed.method, "GET");
    assert_eq!(parsed.path, "/test");
    assert_eq!(header_get(&parsed.headers, "Host"), Some(&"localhost".to_string()));
}

#[test]
fn test_parse_http_request_with_body() {
    let request = "POST /api HTTP/1.1\r\nContent-Type: application/json\r\n\r\n{\"a\":1}";
    let parsed = parse_http_request(request).unwrap();
    assert_eq!(parsed.method, "POST");
    assert_eq!(parsed.path, "/api");
    assert_eq!(
        header_get(&parsed.headers, "Content-Type"),
        Some(&"application/json".to_string())
    );
    assert_eq!(parsed.body, "{\"a\":1}");
}

#[test]
fn test_parse_http_request_rejects() {
    let err = parse_http_request("").unwrap_err();
    assert_eq!(err.to_string(), "HTTP error: Empty request");

    let err = parse_http_request("GET /only\r\n\r\n").unwrap_err();
    assert_eq!(err.to_string(), "HTTP error: Invalid request line");
}

#[test]
fn test_parse_ttl_string() {
    assert_eq!(parse_ttl_string("30m"), Ok(1800));
    assert_eq!(parse_ttl_string("60s"), Ok(60));
    assert_eq!(parse_ttl_string("7d"), Ok(604800));
    assert_eq!(parse_ttl_string("2h"), Ok(7200));
    assert_eq!(parse_ttl_string("45"), Ok(45));
    assert_eq!(parse_ttl_string("30M"), Ok(1800));
    assert_eq!(parse_ttl_string(" 30m "), Ok(1800));

    assert_eq!(parse_ttl_string(""), Err("TTL cannot be empty".to_string()));
    assert_eq!(parse_ttl_string("abc"), Err("Invalid TTL number: abc".to_string()));
    assert_eq!(parse_ttl_string("0s"), Err("TTL must be at least 1 second".to_string()));
    assert_eq!(parse_ttl_string("366d"), Err("TTL cannot exceed 1 year".to_string()));
    assert_eq!(parse_ttl_string("365d"), Ok(31536000));
}

#[test]
fn test_extract_ttl_from_path() {
    assert_eq!(extract_ttl_from_path("/x?ttl=30m"), Some(1800));
    assert_eq!(extract_ttl_from_path("/x?a=1&ttl=5s&b=2"), Some(5));
    assert_eq!(extract_ttl_from_path("/x?a=1"), None);
    assert_eq!(extract_ttl_from_path("/x"), None);
    // a malformed first ttl parameter yields no override
    assert_eq!(extract_ttl_from_path("/x?ttl=bogus"), None);
}

#[test]
fn test_extract_subdomain() {
    let headers = vec![("host".to_string(), "acme.example.io".to_string())];
    assert_eq!(extract_subdomain(&headers), Some("acme".to_string()));

    let headers = vec![("host".to_string(), "ACME.example.io".to_string())];
    assert_eq!(extract_subdomain(&headers), Some("acme".to_string()));

    let headers = vec![("host".to_string(), "localhost:8080".to_string())];
    assert_eq!(extract_subdomain(&headers), None);

    let headers = vec![("host".to_string(), "example.io".to_string())];
    assert_eq!(extract_subdomain(&headers), None);

    let headers: Vec<(String, String)> = Vec::new();
    assert_eq!(extract_subdomain(&headers), None);
}

#[test]
fn test_format_response() {
    let response = HttpResponse {
        status_code: 404,
        headers: vec![("x-test".to_string(), "yes".to_string())],
        body: "missing".to_string(),
    };
    let text = format_response(&response);
    assert_eq!(
        text,
        "HTTP/1.1 404 Not Found\r\nx-test: yes\r\nContent-Length: 7\r\nConnection: close\r\n\r\nmissing"
    );
}
