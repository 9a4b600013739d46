//! A transparent HTTP caching core: request canonicalization, deterministic
//! cache-key fingerprinting, a pattern-based caching policy, and a tiered,
//! TTL-aware store.

pub mod cache;
pub mod http;
pub mod json;
pub mod proxy;
pub mod text;
pub mod utils;

use vstd::prelude::*;

verus! {

/// Seconds in one non-leap year, the upper bound for a requested TTL.
pub const MAX_TTL_SECONDS: u64 = 31536000;

} // verus!
