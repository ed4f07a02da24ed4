//! The outcome of polling something that may not be ready yet.

use vstd::prelude::*;

verus! {

/// Either a value is there, or the caller has to wait for a wake-up.
#[derive(Clone, Copy, Debug, PartialEq, Eq, Structural)]
pub enum Polled<T> {
    /// The value is there.
    Ready(T),
    /// Nothing yet; a wake-up has been registered.
    Pending,
}

} // verus!
