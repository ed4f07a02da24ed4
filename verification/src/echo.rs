//! Sending back what a connection received, in the order it was received.
//!
//! Items read from the connection queue up; the one at the front is handed out to be sent, and is
//! held again if the connection was not ready for it. After a send the connection owes a flush.

use std::collections::VecDeque;

use crate::compress::Seen;

use vstd::prelude::*;

verus! {

/// What is still to be sent after `item` was read, `pending` being what was before.
pub open spec fn echo_received<T>(pending: Seq<T>, item: T) -> Seq<T> {
    pending.push(item)
}

/// What is still to be sent after handing out the front of `pending`, and the item handed out.
pub open spec fn echo_taken<T>(pending: Seq<T>) -> (Seq<T>, Option<T>) {
    if pending.len() == 0 {
        (pending, None)
    } else {
        (pending.drop_first(), Some(pending[0]))
    }
}

/// What is still to be sent after every item of `items` was read, in order.
pub open spec fn echo_received_all<T>(pending: Seq<T>, items: Seq<T>) -> Seq<T>
    decreases items.len(),
{
    if items.len() == 0 {
        pending
    } else {
        echo_received_all(echo_received(pending, items[0]), items.drop_first())
    }
}

/// The items handed out when taking `n` times from `pending`.
pub open spec fn echo_taken_n<T>(pending: Seq<T>, n: nat) -> Seq<T>
    decreases n,
{
    if n == 0 {
        Seq::empty()
    } else {
        match echo_taken(pending).1 {
            Some(t) => seq![t] + echo_taken_n(echo_taken(pending).0, (n - 1) as nat),
            None => Seq::empty(),
        }
    }
}

/// The items read from a connection that have not been sent back yet.
pub struct EchoQueue<T> {
    queue: VecDeque<T>,
    item: Option<T>,
    started: bool,
}

impl<T> EchoQueue<T> {
    /// The items still to be sent, the front first.
    pub closed spec fn pending(&self) -> Seq<T> {
        match self.item {
            Some(t) => seq![t] + self.queue@,
            None => self.queue@,
        }
    }

    /// An item is held back because the connection was not ready for it.
    pub closed spec fn holding(&self) -> bool {
        self.item is Some
    }

    /// Something was sent since the last flush.
    pub closed spec fn started(&self) -> bool {
        self.started
    }

    /// Nothing pending, nothing to flush.
    pub fn new() -> (e: Self)
        ensures
            e.pending() == Seq::<T>::empty(),
            !e.holding(),
            !e.started(),
    {
        EchoQueue { queue: VecDeque::new(), item: None, started: false }
    }

    /// An item was read from the connection.
    pub fn received(&mut self, item: T)
        ensures
            final(self).pending() == echo_received(old(self).pending(), item),
            final(self).holding() == old(self).holding(),
            final(self).started() == old(self).started(),
    {
        self.queue.push_back(item);
        proof {
            if self.item is Some {
                let t = self.item->0;
                assert(seq![t] + self.queue@ =~= (seq![t] + old(self).queue@).push(item));
            }
        }
    }

    /// Hands out the front of what is pending, to be sent.
    pub fn next_to_send(&mut self) -> (r: Option<T>)
        ensures
            (final(self).pending(), r) == echo_taken(old(self).pending()),
            !final(self).holding(),
            final(self).started() == old(self).started(),
    {
        match self.item.take() {
            Some(t) => {
                proof {
                    assert((seq![t] + self.queue@).drop_first() =~= self.queue@);
                }
                Some(t)
            },
            None => self.queue.pop_front(),
        }
    }

    /// The connection was not ready for `item`: it is held as the front of what is pending.
    pub fn not_ready(&mut self, item: T)
        requires
            !old(self).holding(),
        ensures
            final(self).pending() == seq![item] + old(self).pending(),
            final(self).holding(),
            final(self).started() == old(self).started(),
    {
        self.item = Some(item);
    }

    /// An item was handed to the connection: a flush is owed.
    pub fn sent(&mut self)
        ensures
            final(self).pending() == old(self).pending(),
            final(self).holding() == old(self).holding(),
            final(self).started(),
    {
        self.started = true;
    }

    /// Whether an item is held back.
    pub fn is_holding(&self) -> (r: bool)
        ensures
            r == self.holding(),
    {
        self.item.is_some()
    }

    /// Whether anything is still to be sent.
    pub fn has_pending(&self) -> (r: bool)
        ensures
            r == (self.pending().len() > 0),
    {
        self.item.is_some() || self.queue.len() > 0
    }

    /// Whether a flush is owed.
    pub fn wants_flush(&self) -> (r: bool)
        ensures
            r == self.started(),
    {
        self.started
    }

    /// The connection flushed what was sent.
    pub fn flushed(&mut self)
        ensures
            final(self).pending() == old(self).pending(),
            final(self).holding() == old(self).holding(),
            !final(self).started(),
    {
        self.started = false;
    }
}

/// Items are sent back in the order they were read: reading `items` into an empty queue and then
/// taking as many times hands out exactly `items`.
pub proof fn lemma_echo_in_order<T>(items: Seq<T>)
    ensures
        echo_taken_n(echo_received_all(Seq::empty(), items), items.len()) == items,
{
    lemma_received_all(Seq::empty(), items);
    lemma_taken_n(items, items.len());
    assert(Seq::<T>::empty() + items =~= items);
}

proof fn lemma_received_all<T>(pending: Seq<T>, items: Seq<T>)
    ensures
        echo_received_all(pending, items) == pending + items,
    decreases items.len(),
{
    if items.len() > 0 {
        lemma_received_all(pending.push(items[0]), items.drop_first());
        assert(pending.push(items[0]) + items.drop_first() =~= pending + items);
    } else {
        assert(pending + items =~= pending);
    }
}

proof fn lemma_taken_n<T>(pending: Seq<T>, n: nat)
    requires
        n <= pending.len(),
    ensures
        echo_taken_n(pending, n) == pending.take(n as int),
    decreases n,
{
    if n > 0 {
        lemma_taken_n(pending.drop_first(), (n - 1) as nat);
        assert(seq![pending[0]] + pending.drop_first().take(n - 1) =~= pending.take(n as int));
    } else {
        assert(pending.take(0) =~= Seq::<T>::empty());
    }
}

/// One thing that happens to the queue of an echoing connection.
pub enum EchoStep<T> {
    /// An item was read from the connection.
    Read(T),
    /// The front item was handed out and the connection took it.
    Send,
    /// The front item was handed out and the connection was not ready: it is held again.
    Refuse,
}

/// What a run of steps sends, and what is left pending, starting from `pending`.
pub open spec fn echo_replay<T>(pending: Seq<T>, steps: Seq<EchoStep<T>>) -> (Seq<T>, Seq<T>)
    decreases steps.len(),
{
    if steps.len() == 0 {
        (Seq::empty(), pending)
    } else {
        let rest = steps.drop_first();
        match steps[0] {
            EchoStep::Read(t) => echo_replay(echo_received(pending, t), rest),
            EchoStep::Send => {
                let (p2, x) = echo_taken(pending);
                let (sent, left) = echo_replay(p2, rest);
                match x {
                    Some(t) => (seq![t] + sent, left),
                    None => (sent, left),
                }
            },
            EchoStep::Refuse => {
                let (p2, x) = echo_taken(pending);
                match x {
                    Some(t) => echo_replay(seq![t] + p2, rest),
                    None => echo_replay(p2, rest),
                }
            },
        }
    }
}

/// The items that a run of steps reads, in order.
pub open spec fn echo_reads<T>(steps: Seq<EchoStep<T>>) -> Seq<T>
    decreases steps.len(),
{
    if steps.len() == 0 {
        Seq::empty()
    } else {
        match steps[0] {
            EchoStep::Read(t) => seq![t] + echo_reads(steps.drop_first()),
            _ => echo_reads(steps.drop_first()),
        }
    }
}

/// Whatever the interleaving of reads, sends and refused sends, every item is sent at most once,
/// in the order it was read, and none is lost: what was sent, followed by what is still pending,
/// is what was pending at the start followed by everything read.
pub proof fn lemma_echo_sends_in_order<T>(pending: Seq<T>, steps: Seq<EchoStep<T>>)
    ensures
        echo_replay(pending, steps).0 + echo_replay(pending, steps).1 == pending + echo_reads(
            steps,
        ),
    decreases steps.len(),
{
    if steps.len() == 0 {
        assert(Seq::<T>::empty() + pending =~= pending + Seq::<T>::empty());
    } else {
        let rest = steps.drop_first();
        match steps[0] {
            EchoStep::Read(t) => {
                lemma_echo_sends_in_order(pending.push(t), rest);
                assert(pending.push(t) + echo_reads(rest) =~= pending + (seq![t] + echo_reads(rest)));
            },
            EchoStep::Send => {
                let (p2, x) = echo_taken(pending);
                lemma_echo_sends_in_order(p2, rest);
                let (sent, left) = echo_replay(p2, rest);
                if pending.len() > 0 {
                    let t = pending[0];
                    assert((seq![t] + sent) + left =~= seq![t] + (sent + left));
                    assert(seq![t] + (p2 + echo_reads(rest)) =~= pending + echo_reads(rest));
                } else {
                    assert(p2 == pending);
                }
            },
            EchoStep::Refuse => {
                let (p2, x) = echo_taken(pending);
                if pending.len() > 0 {
                    assert(seq![pending[0]] + p2 =~= pending);
                }
                lemma_echo_sends_in_order(pending, rest);
            },
        }
    }
}

/// What the echo that reads and sends in turns does after one turn.
#[derive(Debug, Clone, Copy, PartialEq, Eq, Structural)]
pub enum EchoTurn {
    /// The connection has ended: the echo is done.
    Finish,
    /// Send the held item, the connection being ready, and take another turn.
    SendHeld,
    /// Keep holding the item, and take another turn.
    KeepHeld,
    /// Keep holding the item, and wait for a wake-up.
    Wait,
    /// Take the front of the queue as the held item, and take another turn.
    TakeNext,
    /// Take another turn.
    Again,
    /// Nothing is left to send for now: flush, then wait for a wake-up.
    Flush,
}

/// One turn of the echo that reads and sends in turns. `read` is what reading the connection
/// gave (an ended connection is not read again); `holding` says whether an item is held, `ready`
/// whether the connection is ready for it, and `queued` whether the queue holds more.
pub fn interleaved_turn(read: Seen, holding: bool, ready: bool, queued: bool) -> (r: EchoTurn)
    ensures
        read == Seen::Ended ==> r == EchoTurn::Finish,
        read != Seen::Ended && holding && ready ==> r == EchoTurn::SendHeld,
        read != Seen::Ended && holding && !ready ==> r == (if read == Seen::Pending {
            EchoTurn::Wait
        } else {
            EchoTurn::KeepHeld
        }),
        read != Seen::Ended && !holding && queued ==> r == EchoTurn::TakeNext,
        read != Seen::Ended && !holding && !queued ==> r == (if read == Seen::Pending {
            EchoTurn::Flush
        } else {
            EchoTurn::Again
        }),
{
    match read {
        Seen::Ended => EchoTurn::Finish,
        _ => {
            let read_pending = match read {
                Seen::Pending => true,
                _ => false,
            };
            if holding {
                if ready {
                    EchoTurn::SendHeld
                } else if read_pending {
                    EchoTurn::Wait
                } else {
                    EchoTurn::KeepHeld
                }
            } else if queued {
                EchoTurn::TakeNext
            } else if read_pending {
                EchoTurn::Flush
            } else {
                EchoTurn::Again
            }
        },
    }
}

/// The call a poll of the echo makes next on the connection.
pub enum EchoCall<T> {
    /// Read from the connection.
    Read,
    /// Ask whether the connection takes an item now.
    PollReady,
    /// Hand the item to the connection.
    StartSend(T),
    /// Flush the connection.
    Flush,
}

/// What the last call on the connection gave.
pub enum EchoReply<T, E> {
    /// A read gave an item.
    Item(T),
    /// A read gave nothing now: nothing is ready, or the connection has no more to read.
    NoItem,
    /// The connection takes an item now.
    Ready,
    /// The connection does not take an item now.
    NotReady,
    /// The connection took the item.
    Sent,
    /// The flush finished.
    Flushed,
    /// The flush has not finished.
    NotFlushed,
    /// The call failed.
    Failed(E),
}

/// What a poll of the echo does next: another call, or it ends, pending or with the failure of
/// a call. It has no way to end with success: the echo runs until the connection fails.
pub enum EchoNext<T, E> {
    /// Make this call and report what it gave.
    Call(EchoCall<T>),
    /// The poll ends; the echo is woken again by the connection.
    Pending,
    /// The poll ends with this failure of a call.
    Failed(E),
}

/// Which call an [`EchoPoll`] waits on.
#[derive(Clone, Copy, PartialEq, Eq, Structural)]
pub enum EchoStage {
    /// A read.
    Reading,
    /// Whether the connection takes the held item.
    Readying,
    /// The hand-over of an item.
    Sending,
    /// A flush.
    Flushing,
    /// No call: the poll has ended.
    Idle,
}

/// The reply `reply` is one that the call awaited in `stage` gives.
pub open spec fn fits<T, E>(stage: EchoStage, reply: EchoReply<T, E>) -> bool {
    match stage {
        EchoStage::Reading => reply is Item || reply is NoItem || reply is Failed,
        EchoStage::Readying => reply is Ready || reply is NotReady || reply is Failed,
        EchoStage::Sending => reply is Sent || reply is Failed,
        EchoStage::Flushing => reply is Flushed || reply is NotFlushed || reply is Failed,
        EchoStage::Idle => false,
    }
}

/// The stage that awaits the reply to `call`.
pub open spec fn awaits<T>(call: EchoCall<T>) -> EchoStage {
    match call {
        EchoCall::Read => EchoStage::Reading,
        EchoCall::PollReady => EchoStage::Readying,
        EchoCall::StartSend(_) => EchoStage::Sending,
        EchoCall::Flush => EchoStage::Flushing,
    }
}

/// What comes after reading or sending, with `pending` still to be sent: ask whether the
/// connection takes the front, if there is one; else flush, if a flush is owed; else end the
/// poll.
pub open spec fn sent_next<T, E>(pending: Seq<T>, flush_owed: bool) -> EchoNext<T, E> {
    if pending.len() > 0 {
        EchoNext::Call(EchoCall::PollReady)
    } else if flush_owed {
        EchoNext::Call(EchoCall::Flush)
    } else {
        EchoNext::Pending
    }
}

/// The stage that awaits what `next` asks for.
pub open spec fn stage_for<T, E>(next: EchoNext<T, E>) -> EchoStage {
    match next {
        EchoNext::Call(c) => awaits(c),
        _ => EchoStage::Idle,
    }
}

/// One reply taken in `stage`, with `pending` still to be sent and `owed` telling whether a
/// flush is owed: the next stage, what is pending then, whether a flush is owed then, and what
/// comes next.
pub open spec fn echo_table<T, E>(
    stage: EchoStage,
    pending: Seq<T>,
    owed: bool,
    reply: EchoReply<T, E>,
) -> (EchoStage, Seq<T>, bool, EchoNext<T, E>) {
    match reply {
        EchoReply::Failed(e) => (
            EchoStage::Idle,
            if stage == EchoStage::Readying {
                pending.drop_first()
            } else {
                pending
            },
            owed,
            EchoNext::Failed(e),
        ),
        EchoReply::Item(t) => (EchoStage::Reading, pending.push(t), owed, EchoNext::Call(EchoCall::Read)),
        EchoReply::NoItem => (
            stage_for(sent_next::<T, E>(pending, owed)),
            pending,
            owed,
            sent_next(pending, owed),
        ),
        EchoReply::Ready => (
            EchoStage::Sending,
            pending.drop_first(),
            owed,
            EchoNext::Call(EchoCall::StartSend(pending[0])),
        ),
        EchoReply::NotReady => (EchoStage::Idle, pending, owed, EchoNext::Pending),
        EchoReply::Sent => (
            stage_for(sent_next::<T, E>(pending, true)),
            pending,
            true,
            sent_next(pending, true),
        ),
        EchoReply::Flushed => (EchoStage::Idle, pending, false, EchoNext::Pending),
        EchoReply::NotFlushed => (EchoStage::Idle, pending, owed, EchoNext::Pending),
    }
}

/// A run of replies from `stage`, with `pending` still to be sent and `owed` telling whether a
/// flush is owed: the items read, the items handed to the connection, what is pending at the
/// end, and whether an item was dropped because the connection failed to say it takes it.
pub open spec fn echo_run<T, E>(
    stage: EchoStage,
    pending: Seq<T>,
    owed: bool,
    replies: Seq<EchoReply<T, E>>,
) -> (Seq<T>, Seq<T>, Seq<T>, bool)
    decreases replies.len(),
{
    if replies.len() == 0 {
        (Seq::empty(), Seq::empty(), pending, false)
    } else {
        let reply = replies[0];
        let step = echo_table(stage, pending, owed, reply);
        let rest = echo_run(step.0, step.1, step.2, replies.drop_first());
        let reads = match reply {
            EchoReply::Item(t) => seq![t] + rest.0,
            _ => rest.0,
        };
        let sends = match step.3 {
            EchoNext::Call(EchoCall::StartSend(t)) => seq![t] + rest.1,
            _ => rest.1,
        };
        (reads, sends, rest.2, rest.3 || (reply is Failed && stage == EchoStage::Readying))
    }
}

/// Each reply of `replies` fits the call awaited when it comes.
pub open spec fn echo_run_fits<T, E>(
    stage: EchoStage,
    pending: Seq<T>,
    owed: bool,
    replies: Seq<EchoReply<T, E>>,
) -> bool
    decreases replies.len(),
{
    replies.len() == 0 || {
        let step = echo_table(stage, pending, owed, replies[0]);
        fits(stage, replies[0]) && echo_run_fits(step.0, step.1, step.2, replies.drop_first())
    }
}

/// The items handed to the connection are the items read, in order, each once: over any run of
/// fitting replies in which the connection does not fail while asked whether it takes an item, what was
/// pending followed by what was read is what was handed over followed by what is still pending.
pub proof fn lemma_echo_poll_in_order<T, E>(
    stage: EchoStage,
    pending: Seq<T>,
    owed: bool,
    replies: Seq<EchoReply<T, E>>,
)
    requires
        stage == EchoStage::Readying ==> pending.len() > 0,
        echo_run_fits(stage, pending, owed, replies),
    ensures
        !echo_run(stage, pending, owed, replies).3 ==> pending + echo_run(
            stage,
            pending,
            owed,
            replies,
        ).0 == echo_run(stage, pending, owed, replies).1 + echo_run(
            stage,
            pending,
            owed,
            replies,
        ).2,
    decreases replies.len(),
{
    if replies.len() == 0 {
        assert(pending + Seq::<T>::empty() =~= Seq::<T>::empty() + pending);
    } else {
        let reply = replies[0];
        let step = echo_table(stage, pending, owed, reply);
        let rest = echo_run(step.0, step.1, step.2, replies.drop_first());
        assert(step.0 == EchoStage::Readying ==> step.1.len() > 0);
        lemma_echo_poll_in_order(step.0, step.1, step.2, replies.drop_first());
        let r = echo_run(stage, pending, owed, replies);
        if !r.3 {
            match reply {
                EchoReply::Item(t) => {
                    assert(pending + (seq![t] + rest.0) =~= pending.push(t) + rest.0);
                },
                EchoReply::Ready => {
                    assert(pending =~= seq![pending[0]] + pending.drop_first());
                    assert(pending + rest.0 =~= seq![pending[0]] + (pending.drop_first()
                        + rest.0));
                    assert(seq![pending[0]] + (rest.1 + rest.2) =~= (seq![pending[0]] + rest.1)
                        + rest.2);
                },
                _ => {},
            }
        }
    }
}

/// A poll of the echo as a run of calls on the connection: read everything that is ready, send
/// what is pending while the connection takes it, then flush what was sent.
pub struct EchoPoll<T> {
    queue: EchoQueue<T>,
    held: Option<T>,
    stage: EchoStage,
}

impl<T> EchoPoll<T> {
    /// The items still to be sent, the front first; the item asked about with
    /// [`EchoCall::PollReady`] is the front.
    pub closed spec fn pending(&self) -> Seq<T> {
        match self.held {
            Some(t) => seq![t] + self.queue.pending(),
            None => self.queue.pending(),
        }
    }

    /// The call the poll waits on.
    pub closed spec fn stage(&self) -> EchoStage {
        self.stage
    }

    /// Something was sent since the last finished flush.
    pub closed spec fn flush_owed(&self) -> bool {
        self.queue.started()
    }

    /// An item is held exactly while the poll asks whether the connection takes it.
    pub closed spec fn wf(&self) -> bool {
        &&& (self.held is Some) == (self.stage == EchoStage::Readying)
        &&& self.held is Some ==> !self.queue.holding()
    }

    /// Nothing read yet.
    pub fn new() -> (e: Self)
        ensures
            e.wf(),
            e.pending() == Seq::<T>::empty(),
            e.stage() == EchoStage::Idle,
            !e.flush_owed(),
    {
        EchoPoll { queue: EchoQueue::new(), held: None, stage: EchoStage::Idle }
    }

    /// Asks about the front of what is pending, if anything is, else flushes what was sent, if
    /// anything was, else ends the poll.
    fn send_next<E>(&mut self) -> (r: EchoNext<T, E>)
        requires
            old(self).held is None,
        ensures
            final(self).wf(),
            final(self).pending() == old(self).pending(),
            final(self).flush_owed() == old(self).flush_owed(),
            r == sent_next::<T, E>(old(self).pending(), old(self).flush_owed()),
            r matches EchoNext::Call(c) ==> final(self).stage() == awaits(c),
            r is Pending ==> final(self).stage() == EchoStage::Idle,
    {
        match self.queue.next_to_send() {
            Some(item) => {
                self.held = Some(item);
                self.stage = EchoStage::Readying;
                proof {
                    assert(self.pending() =~= old(self).pending());
                }
                EchoNext::Call(EchoCall::PollReady)
            },
            None => {
                if self.queue.wants_flush() {
                    self.stage = EchoStage::Flushing;
                    EchoNext::Call(EchoCall::Flush)
                } else {
                    self.stage = EchoStage::Idle;
                    EchoNext::Pending
                }
            },
        }
    }

    /// Starts a poll: a read, unless the connection has no more to read.
    pub fn begin<E>(&mut self, terminated: bool) -> (r: EchoNext<T, E>)
        requires
            old(self).wf(),
            old(self).stage() == EchoStage::Idle,
        ensures
            final(self).wf(),
            final(self).pending() == old(self).pending(),
            final(self).flush_owed() == old(self).flush_owed(),
            !terminated ==> r == EchoNext::<T, E>::Call(EchoCall::Read),
            terminated ==> r == sent_next::<T, E>(old(self).pending(), old(self).flush_owed()),
            !(r is Failed),
            r matches EchoNext::Call(c) ==> final(self).stage() == awaits(c),
            r is Pending ==> final(self).stage() == EchoStage::Idle,
    {
        if !terminated {
            self.stage = EchoStage::Reading;
            EchoNext::Call(EchoCall::Read)
        } else {
            self.send_next()
        }
    }

    /// Takes what the awaited call gave and says what comes next. A failed call ends the poll
    /// with its failure, and nothing else does (an item the connection failed to take is
    /// dropped); a read item joins the back of what is pending; the item handed over is the
    /// front of what is pending.
    pub fn reply<E>(&mut self, reply: EchoReply<T, E>) -> (r: EchoNext<T, E>)
        requires
            old(self).wf(),
            fits(old(self).stage(), reply),
        ensures
            final(self).wf(),
            (r is Failed) == (reply is Failed),
            reply matches EchoReply::Failed(e) ==> r == EchoNext::<T, E>::Failed(e),
            r matches EchoNext::Call(c) ==> final(self).stage() == awaits(c),
            r is Pending || r is Failed ==> final(self).stage() == EchoStage::Idle,
            reply matches EchoReply::Item(t) ==> r == EchoNext::<T, E>::Call(EchoCall::Read)
                && final(self).pending() == echo_received(old(self).pending(), t),
            r matches EchoNext::Call(EchoCall::StartSend(t)) ==> old(self).pending().len() > 0
                && t == old(self).pending()[0] && final(self).pending() == old(
                self,
            ).pending().drop_first(),
            !(reply is Item) && !(r matches EchoNext::Call(EchoCall::StartSend(_))) && !(
            reply is Failed) ==> final(self).pending() == old(self).pending(),
            final(self).flush_owed() == (match reply {
                EchoReply::Sent => true,
                EchoReply::Flushed => false,
                _ => old(self).flush_owed(),
            }),
            reply is NoItem ==> r == sent_next::<T, E>(old(self).pending(), old(self).flush_owed()),
            reply is Sent ==> r == sent_next::<T, E>(old(self).pending(), true),
            reply is Ready ==> r == EchoNext::<T, E>::Call(EchoCall::StartSend(old(self).pending()[0])),
            reply is NotReady || reply is Flushed || reply is NotFlushed ==> r
                == EchoNext::<T, E>::Pending,
            final(self).stage() == echo_table(
                old(self).stage(),
                old(self).pending(),
                old(self).flush_owed(),
                reply,
            ).0,
            final(self).pending() == echo_table(
                old(self).stage(),
                old(self).pending(),
                old(self).flush_owed(),
                reply,
            ).1,
            final(self).flush_owed() == echo_table(
                old(self).stage(),
                old(self).pending(),
                old(self).flush_owed(),
                reply,
            ).2,
            r == echo_table(old(self).stage(), old(self).pending(), old(self).flush_owed(), reply).3,
            final(self).stage() == EchoStage::Readying ==> final(self).pending().len() > 0,
    {
        match reply {
            EchoReply::Failed(e) => {
                proof {
                    assert(self.stage != EchoStage::Idle);
                }
                self.stage = EchoStage::Idle;
                self.held = None;
                EchoNext::Failed(e)
            },
            EchoReply::Item(t) => {
                self.queue.received(t);
                EchoNext::Call(EchoCall::Read)
            },
            EchoReply::NoItem => self.send_next(),
            EchoReply::Ready => {
                let item = self.held.take().unwrap();
                self.stage = EchoStage::Sending;
                proof {
                    assert(old(self).pending() =~= seq![item] + self.queue.pending());
                    assert(old(self).pending().drop_first() =~= self.queue.pending());
                }
                EchoNext::Call(EchoCall::StartSend(item))
            },
            EchoReply::NotReady => {
                let item = self.held.take().unwrap();
                self.queue.not_ready(item);
                self.stage = EchoStage::Idle;
                EchoNext::Pending
            },
            EchoReply::Sent => {
                self.queue.sent();
                self.send_next()
            },
            EchoReply::Flushed => {
                self.queue.flushed();
                self.stage = EchoStage::Idle;
                EchoNext::Pending
            },
            EchoReply::NotFlushed => {
                self.stage = EchoStage::Idle;
                EchoNext::Pending
            },
        }
    }
}

} // verus!
