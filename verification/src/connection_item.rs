//! What a stream of many connections yields: an item read from one of them, or one of them
//! closing with the error that closed it, if any.

use vstd::prelude::*;

verus! {

/// An item read from one connection, or a connection `S` that closed.
#[derive(Debug, Clone, Copy, PartialEq, Eq, PartialOrd, Ord, Hash)]
pub enum ConnectionItem<S, T, E> {
    /// An item.
    Item(T),
    /// A connection that closed, with the error that closed it, if any.
    Closed(S, Option<E>),
}

impl<S, T, E> ConnectionItem<S, T, E> {
    /// The item, if this is one; a closed connection is dropped.
    pub fn ignore_closed(self) -> (r: Option<T>)
        ensures
            self is Item ==> r == Some(self->Item_0),
            self is Closed ==> r is None,
    {
        match self {
            ConnectionItem::Item(item) => Some(item),
            ConnectionItem::Closed(_, _) => None,
        }
    }
}

} // verus!
