//! A stream that keeps extending an inner collection of streams from an incoming stream.

use vstd::prelude::*;

use crate::poll::Polled;

verus! {

/// Marks collections that can be extended in place while pinned.
pub trait AutoPinnedExtend {}

/// An inner collection `S` fed by the incoming stream `R`.
pub struct Extending<S, R> {
    incoming: R,
    inner: S,
}

impl<S, R> Extending<S, R> {
    /// The stream that new elements come from.
    pub closed spec fn incoming(&self) -> R {
        self.incoming
    }

    /// The collection that is being extended.
    pub closed spec fn inner(&self) -> S {
        self.inner
    }

    /// Pairs `incoming` with the collection `inner` it extends.
    pub fn new(incoming: R, inner: S) -> (r: Self)
        ensures
            r.incoming() == incoming,
            r.inner() == inner,
    {
        Self { incoming, inner }
    }

    /// Gives back the incoming stream and the collection.
    pub fn into_parts(self) -> (r: (R, S))
        ensures
            r == (self.incoming(), self.inner()),
    {
        (self.incoming, self.inner)
    }
}

/// Extension trait that makes an [`Extending`] out of the incoming stream.
pub trait ExteningExt: Sized {
    /// Feeds `self` into `inner`.
    fn extending<S>(self, inner: S) -> (r: Extending<S, Self>)
        ensures
            r.incoming() == self,
            r.inner() == inner,
    ;
}

impl<R> ExteningExt for R {
    fn extending<S>(self, inner: S) -> (r: Extending<S, Self>) {
        Extending::new(self, inner)
    }
}

/// What the extended stream yields once its collection has been polled: the collection running
/// dry is not the end while more elements may still come in.
pub fn next_after_inner<T>(inner: Polled<Option<T>>, incoming_terminated: bool) -> (r: Polled<
    Option<T>,
>)
    ensures
        (inner is Ready && inner->Ready_0 is None && !incoming_terminated) ==> r is Pending,
        !(inner is Ready && inner->Ready_0 is None && !incoming_terminated) ==> r == inner,
{
    match inner {
        Polled::Ready(None) => {
            if incoming_terminated {
                Polled::Ready(None)
            } else {
                Polled::Pending
            }
        },
        other => other,
    }
}

/// The extended stream is done once both its collection and the incoming stream are.
pub fn extending_is_terminated(inner_terminated: bool, incoming_terminated: bool) -> (r: bool)
    ensures
        r == (inner_terminated && incoming_terminated),
{
    inner_terminated && incoming_terminated
}

} // verus!
