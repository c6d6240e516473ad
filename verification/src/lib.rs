//! An in-memory user store: records keyed by a numeric identifier, with
//! exact-key lookup, a linear secondary lookup by username, and a
//! human-readable JSON snapshot of the whole store.

pub mod codec;
pub mod json;
pub mod store;
