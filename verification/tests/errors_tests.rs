// Tests for the error taxonomy.

use dejafoo::utils::errors::AppError;
use dejafoo::utils::errors::aws_error;
use dejafoo::utils::errors::cache_error;
use dejafoo::utils::errors::config_error;
use dejafoo::utils::errors::generic_error;
use dejafoo::utils::errors::http_error;
use dejafoo::utils::errors::json_error;
use dejafoo::utils::errors::proxy_error;
use dejafoo::utils::errors::validation_error;
use dejafoo::utils::errors::ContextualError;
use dejafoo::utils::errors::ErrorContext;
use dejafoo::json::Json;

#[test]
fn test_app_error_display() {
    let error = AppError::Configuration("Invalid config".to_string());
    assert_eq!(error.to_string(), "Configuration error: Invalid config");

    let error = AppError::Cache("Cache miss".to_string());
    assert_eq!(error.to_string(), "Cache error: Cache miss");
}

#[test]
fn test_helper_functions() {
    let config_err = config_error("Test config error");
    assert!(matches!(config_err, AppError::Configuration(_)));

    let cache_err = cache_error("Test cache error");
    assert!(matches!(cache_err, AppError::Cache(_)));

    let proxy_err = proxy_error("Test proxy error");
    assert!(matches!(proxy_err, AppError::Proxy(_)));
}

#[test]
fn test_every_error_category() {
    assert_eq!(aws_error("x").to_string(), "AWS error: x");
    assert_eq!(json_error("x").to_string(), "JSON error: x");
    assert_eq!(http_error("x").to_string(), "HTTP error: x");
    assert_eq!(validation_error("x").to_string(), "Validation error: x");
    assert_eq!(generic_error("x").to_string(), "Error: x");
    assert_eq!(proxy_error("x").to_string(), "Proxy error: x");
}

#[test]
fn test_error_context() {
    let details = Json::Obj(vec![("key".to_string(), Json::Str("value".to_string()))]);
    let context = ErrorContext::new("test_operation", details, 42);
    assert_eq!(context.operation, "test_operation");
    match &context.details {
        Json::Obj(members) => {
            assert!(matches!(&members[0].1, Json::Str(v) if v == "value"));
        }
        other => panic!("expected an object, got {:?}", other),
    }

    let context = ErrorContext::with_operation("simple_operation", 42);
    assert_eq!(context.operation, "simple_operation");
    assert!(matches!(context.details, Json::Null));
}

#[test]
fn test_contextual_error() {
    let error = AppError::Cache("Test error".to_string());
    let context = ErrorContext::with_operation("test_op", 42);
    let contextual_error = ContextualError::new(error, context);

    assert!(matches!(contextual_error.error, AppError::Cache(_)));
    assert_eq!(contextual_error.context.operation, "test_op");
}
