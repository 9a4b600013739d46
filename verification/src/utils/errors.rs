//! The application error taxonomy: configuration, cache, proxy, backend,
//! serialization, HTTP, validation, and generic failures.

use vstd::prelude::*;
use vstd::string::StringExecFns;

verus! {

/// One error category per failure source, each carrying a detail message.
#[derive(Debug, Clone)]
pub enum AppError {
    /// Bad or missing configuration.
    Configuration(String),
    /// Cache failures: serialization, corrupt entries, backend calls.
    Cache(String),
    /// Proxying failures.
    Proxy(String),
    /// Storage backend service failures.
    Aws(String),
    /// JSON handling failures.
    Json(String),
    /// HTTP request or response failures.
    Http(String),
    /// Input validation failures.
    Validation(String),
    /// Anything else.
    Generic(String),
}

/// Result alias used throughout the crate.
pub type AppResult<T> = Result<T, AppError>;

impl AppError {
    /// The display text: a category prefix followed by the detail message.
    pub open spec fn spec_message(&self) -> Seq<char> {
        match self {
            AppError::Configuration(m) => "Configuration error: "@ + m@,
            AppError::Cache(m) => "Cache error: "@ + m@,
            AppError::Proxy(m) => "Proxy error: "@ + m@,
            AppError::Aws(m) => "AWS error: "@ + m@,
            AppError::Json(m) => "JSON error: "@ + m@,
            AppError::Http(m) => "HTTP error: "@ + m@,
            AppError::Validation(m) => "Validation error: "@ + m@,
            AppError::Generic(m) => "Error: "@ + m@,
        }
    }

    /// Renders the error for display.
    pub fn to_string(&self) -> (r: String)
        ensures
            r@ == self.spec_message(),
    {
        match self {
            AppError::Configuration(m) => {
                let mut s = String::from_str("Configuration error: ");
                s.append(m.as_str());
                s
            },
            AppError::Cache(m) => {
                let mut s = String::from_str("Cache error: ");
                s.append(m.as_str());
                s
            },
            AppError::Proxy(m) => {
                let mut s = String::from_str("Proxy error: ");
                s.append(m.as_str());
                s
            },
            AppError::Aws(m) => {
                let mut s = String::from_str("AWS error: ");
                s.append(m.as_str());
                s
            },
            AppError::Json(m) => {
                let mut s = String::from_str("JSON error: ");
                s.append(m.as_str());
                s
            },
            AppError::Http(m) => {
                let mut s = String::from_str("HTTP error: ");
                s.append(m.as_str());
                s
            },
            AppError::Validation(m) => {
                let mut s = String::from_str("Validation error: ");
                s.append(m.as_str());
                s
            },
            AppError::Generic(m) => {
                let mut s = String::from_str("Error: ");
                s.append(m.as_str());
                s
            },
        }
    }
}

/// Builds a configuration error from a message.
pub fn config_error(msg: &str) -> (r: AppError)
    ensures
        r matches AppError::Configuration(m) && m@ == msg@,
{
    AppError::Configuration(String::from_str(msg))
}

/// Builds a cache error from a message.
pub fn cache_error(msg: &str) -> (r: AppError)
    ensures
        r matches AppError::Cache(m) && m@ == msg@,
{
    AppError::Cache(String::from_str(msg))
}

/// Builds a proxy error from a message.
pub fn proxy_error(msg: &str) -> (r: AppError)
    ensures
        r matches AppError::Proxy(m) && m@ == msg@,
{
    AppError::Proxy(String::from_str(msg))
}

/// Builds a storage backend error from a message.
pub fn aws_error(msg: &str) -> (r: AppError)
    ensures
        r matches AppError::Aws(m) && m@ == msg@,
{
    AppError::Aws(String::from_str(msg))
}

/// Builds a JSON error from a message.
pub fn json_error(msg: &str) -> (r: AppError)
    ensures
        r matches AppError::Json(m) && m@ == msg@,
{
    AppError::Json(String::from_str(msg))
}

/// Builds an HTTP error from a message.
pub fn http_error(msg: &str) -> (r: AppError)
    ensures
        r matches AppError::Http(m) && m@ == msg@,
{
    AppError::Http(String::from_str(msg))
}

/// Builds a validation error from a message.
pub fn validation_error(msg: &str) -> (r: AppError)
    ensures
        r matches AppError::Validation(m) && m@ == msg@,
{
    AppError::Validation(String::from_str(msg))
}

/// Builds a generic error from a message.
pub fn generic_error(msg: &str) -> (r: AppError)
    ensures
        r matches AppError::Generic(m) && m@ == msg@,
{
    AppError::Generic(String::from_str(msg))
}

/// Context travelling with an error: the operation that failed, structured
/// detail, and when it happened (epoch seconds, supplied by the caller so
/// the record is deterministic).
#[derive(Debug)]
pub struct ErrorContext {
    /// The operation that failed.
    pub operation: String,
    /// Structured detail about the failure.
    pub details: crate::json::Json,
    /// When the context was recorded, epoch seconds.
    pub timestamp: u64,
}

impl ErrorContext {
    /// Builds a context with full detail.
    pub fn new(operation: &str, details: crate::json::Json, now: u64) -> (r: ErrorContext)
        ensures
            r.operation@ == operation@,
            r.details == details,
            r.timestamp == now,
    {
        ErrorContext { operation: String::from_str(operation), details, timestamp: now }
    }

    /// Builds a context carrying only the operation name.
    pub fn with_operation(operation: &str, now: u64) -> (r: ErrorContext)
        ensures
            r.operation@ == operation@,
            r.details is Null,
            r.timestamp == now,
    {
        ErrorContext { operation: String::from_str(operation), details: crate::json::Json::Null, timestamp: now }
    }

    /// Replaces the context's detail.
    pub fn with_details(self, details: crate::json::Json) -> (r: ErrorContext)
        ensures
            r.operation@ == self.operation@,
            r.details == details,
            r.timestamp == self.timestamp,
    {
        ErrorContext { operation: self.operation, details, timestamp: self.timestamp }
    }
}

/// An error together with its context.
#[derive(Debug)]
pub struct ContextualError {
    /// The failure itself.
    pub error: AppError,
    /// Where and when it happened.
    pub context: ErrorContext,
}

impl ContextualError {
    /// Pairs an error with a context.
    pub fn new(error: AppError, context: ErrorContext) -> (r: ContextualError)
        ensures
            r.error == error,
            r.context == context,
    {
        ContextualError { error, context }
    }

    /// Pairs an error with a fresh operation-only context.
    pub fn with_operation(error: AppError, operation: &str, now: u64) -> (r: ContextualError)
        ensures
            r.error == error,
            r.context.operation@ == operation@,
            r.context.details is Null,
            r.context.timestamp == now,
    {
        ContextualError { error, context: ErrorContext::with_operation(operation, now) }
    }

    /// Replaces the context's detail.
    pub fn with_details(self, details: crate::json::Json) -> (r: ContextualError)
        ensures
            r.error == self.error,
            r.context.operation@ == self.context.operation@,
            r.context.details == details,
            r.context.timestamp == self.context.timestamp,
    {
        ContextualError { error: self.error, context: self.context.with_details(details) }
    }
}

} // verus!
