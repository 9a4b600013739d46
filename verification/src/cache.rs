//! The cache subsystem: key fingerprinting, policy, and the tiered store.

pub mod key;
pub mod policy;
pub mod store;

