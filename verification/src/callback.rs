//! Callbacks used in stream adapters.

use vstd::prelude::*;

verus! {

/// Act when one of the inner channels gets closed instead of closing the outer channel.
pub trait OnClose<E>: Clone {
    /// Whether the callback may be called with `error`.
    spec fn accepts_close(&self, error: Option<E>) -> bool;

    /// Called once for every inner channel that closed, with the error that closed it, if any.
    fn on_close(&self, error: Option<E>)
        requires
            self.accepts_close(error),
    ;
}

impl<E, F: Clone + Fn(Option<E>)> OnClose<E> for F {
    open spec fn accepts_close(&self, error: Option<E>) -> bool {
        call_requires(*self, (error,))
    }

    fn on_close(&self, error: Option<E>) {
        self(error)
    }
}

/// Called with every item that a stream reads.
pub trait OnItem<T> {
    /// Whether the callback may be called with `message`.
    spec fn accepts_item(&self, message: T) -> bool;

    /// Called once for every item, in the order they were read.
    fn on_item(&self, message: T)
        requires
            self.accepts_item(message),
    ;
}

impl<T, F: Fn(T)> OnItem<T> for F {
    open spec fn accepts_item(&self, message: T) -> bool {
        call_requires(*self, (message,))
    }

    fn on_item(&self, message: T) {
        self(message)
    }
}

} // verus!
