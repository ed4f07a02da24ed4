//! Requests that a connection sends to a prefix-subscription multicast.

use vstd::prelude::*;

verus! {

/// A request read from one connection.
#[derive(Debug, Clone, Copy, PartialEq, Eq, PartialOrd, Ord, Hash)]
pub enum SubRequest<K, O> {
    /// Subscribe the connection to every message whose route starts with the key.
    Sub(K),
    /// Undo an earlier subscription to the key.
    Unsub(K),
    /// Anything else, handed on to the reader.
    Other(O),
}

} // verus!
