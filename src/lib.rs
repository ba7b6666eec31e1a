//! An ordered, namespace-isolated key-value store that keeps duplicate keys,
//! with bias-based seeking and stateful cursors.
//!
//! `keys` orders byte strings, `index` keeps the entries of one namespace,
//! `store` holds the namespaces, handles and cursors, and `laws` states what
//! holds across operations.
pub mod index;
pub mod keys;
pub mod laws;
pub mod store;
