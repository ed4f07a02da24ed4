//! What a fused stream of many streams yields: an item of one of them, or one of them closing
//! with the error that closed it, if any.

use vstd::prelude::*;

verus! {

/// An item of one inner stream, or an inner stream `S` that closed.
#[derive(Debug)]
pub enum MultiItem<S, T, E> {
    /// An item.
    Item(T),
    /// An inner stream that closed, with the error that closed it, if any.
    Closed(S, Option<E>),
}

impl<S, T, E> MultiItem<S, T, E> {
    /// The item, if this is one; a closed stream is dropped.
    pub fn ignore_closed(self) -> (r: Option<T>)
        ensures
            self is Item ==> r == Some(self->Item_0),
            self is Closed ==> r is None,
    {
        match self {
            MultiItem::Item(item) => Some(item),
            MultiItem::Closed(_, _) => None,
        }
    }
}

} // verus!
