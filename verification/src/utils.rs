//! Shared utilities: the error taxonomy.

pub mod errors;

pub use errors::AppError;
pub use errors::AppResult;
pub use errors::cache_error;
pub use errors::config_error;
pub use errors::aws_error;
pub use errors::generic_error;
pub use errors::http_error;
pub use errors::json_error;
pub use errors::proxy_error;
pub use errors::validation_error;
