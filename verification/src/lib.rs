//! A flat key-value adapter over a remote store whose native addressing
//! model is a strictly hierarchical, path-based namespace.
//!
//! A caller supplies an arbitrary flat key; the adapter turns it into a
//! canonical absolute path, lazily establishes a single shared connection,
//! and materializes the value at the leaf, creating every missing ancestor
//! node along the way.  The decision logic — path canonicalization, the
//! connection lifecycle, and the two-phase ancestor-creation algorithm —
//! is verified here against a model of the remote store; an unverified
//! shell drives the same decisions against a real server.

pub mod adapter;
pub mod builder;
pub mod laws;
pub mod memstore;
pub mod nested;
pub mod path;
pub mod reply;
