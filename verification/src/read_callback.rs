//! A stream of results that hands every item to a callback and yields only the errors.

use vstd::prelude::*;

use crate::callback::OnItem;
use crate::poll::Polled;

verus! {

/// The stream `S` whose items go to the callback `F`.
#[derive(Debug, Clone, Copy, PartialEq, Eq, Hash, Default)]
pub struct ReadCallback<S, F> {
    stream: S,
    callback: F,
}

impl<S, F> ReadCallback<S, F> {
    /// The wrapped stream.
    pub closed spec fn stream(&self) -> S {
        self.stream
    }

    /// The callback that receives the items.
    pub closed spec fn callback(&self) -> F {
        self.callback
    }

    /// Hands the items of `stream` to `callback`.
    pub fn new(stream: S, callback: F) -> (r: Self)
        ensures
            r.stream() == stream,
            r.callback() == callback,
    {
        Self { stream, callback }
    }

    /// Gives back the stream and the callback.
    pub fn into_parts(self) -> (r: (S, F))
        ensures
            r == (self.stream(), self.callback()),
    {
        (self.stream, self.callback)
    }
}

/// What one poll of the wrapped stream gave.
pub enum ReadEvent<In, E> {
    /// An item.
    Item(In),
    /// An error.
    Failed(E),
    /// The stream has ended.
    Ended,
    /// Nothing yet.
    Pending,
}

/// Where a read of the callback stream starts: a stream that has already ended is not polled
/// again and the read stays pending (`Some`); otherwise the read loop runs (`None`).
pub fn read_start<E>(terminated: bool) -> (r: Option<Polled<Result<(), E>>>)
    ensures
        terminated ==> r == Some(Polled::<Result<(), E>>::Pending),
        !terminated ==> r is None,
{
    if terminated {
        Some(Polled::Pending)
    } else {
        None
    }
}

/// One turn of the read loop. An item goes to the callback and the loop goes on (`None`);
/// otherwise the loop stops with the returned poll: an error is handed on, an ended stream
/// stays pending for good, and a stream with nothing more to read reports readiness.
pub fn read_turn<In, E, F: OnItem<In>>(callback: &F, event: ReadEvent<In, E>) -> (r: Option<
    Polled<Result<(), E>>,
>)
    requires
        event is Item ==> callback.accepts_item(event->Item_0),
    ensures
        event is Item ==> r is None,
        event is Failed ==> r == Some(Polled::<Result<(), E>>::Ready(Err(event->Failed_0))),
        event is Ended ==> r == Some(Polled::<Result<(), E>>::Pending),
        event is Pending ==> r == Some(Polled::<Result<(), E>>::Ready(Ok(()))),
{
    match event {
        ReadEvent::Item(item) => {
            callback.on_item(item);
            None
        },
        ReadEvent::Failed(e) => Some(Polled::Ready(Err(e))),
        ReadEvent::Ended => Some(Polled::Pending),
        ReadEvent::Pending => Some(Polled::Ready(Ok(()))),
    }
}

/// What the callback stream yields once its read loop stopped: nothing left to read ends this
/// round with no item, an error is yielded, and pending stays pending.
pub fn next_from_read<E>(read: Polled<Result<(), E>>) -> (r: Polled<Option<E>>)
    ensures
        read == Polled::<Result<(), E>>::Ready(Ok(())) ==> r == Polled::<Option<E>>::Ready(None),
        read is Ready && read->Ready_0 is Err ==> r == Polled::<Option<E>>::Ready(
            Some(read->Ready_0->Err_0),
        ),
        read is Pending ==> r is Pending,
{
    match read {
        Polled::Ready(Ok(())) => Polled::Ready(None),
        Polled::Ready(Err(e)) => Polled::Ready(Some(e)),
        Polled::Pending => Polled::Pending,
    }
}

} // verus!
