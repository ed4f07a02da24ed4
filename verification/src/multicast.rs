//! Multicasting to many connections.

pub mod buffered;
pub mod trie;
