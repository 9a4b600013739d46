//! Request and response handling around the cache core: canonicalization and
//! the compute-side helpers of upstream forwarding.

pub mod fetch;
pub mod normalize;
