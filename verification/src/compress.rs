//! Batching a stream while its credit stream is not ready: the items read in the meantime are
//! merged into one batch, which goes out with the next credit.

use vstd::prelude::*;

verus! {

/// A credit that carries nothing: the batch is yielded alone.
#[derive(Debug)]
pub struct Credit;

/// A credit that carries a value: the batch is yielded together with it.
#[derive(Debug)]
pub struct Credited<C>(pub C);

/// Which stream the batching loop polls next.
#[derive(Debug, Clone, Copy, PartialEq, Eq, Structural)]
pub enum BatchPhase {
    /// No batch is held: the item stream is polled for one.
    Idle,
    /// A batch is held: the credit stream is polled for a credit to send it with.
    Crediting,
    /// A batch is held and no credit is ready: the item stream is polled for more to merge.
    Gathering,
}

/// What one poll of the stream that the phase names gave; the value itself stays with the
/// caller.
#[derive(Debug, Clone, Copy, PartialEq, Eq, Structural)]
pub enum Seen {
    /// A value.
    Value,
    /// The stream has ended.
    Ended,
    /// Nothing yet.
    Pending,
}

/// What the caller does with what it saw.
#[derive(Debug, Clone, Copy, PartialEq, Eq, Structural)]
pub enum BatchAction {
    /// Keep the item read as the new batch, and go on.
    Hold,
    /// Merge the item read into the batch, and go on.
    Merge,
    /// Go on without touching the batch.
    Continue,
    /// Yield the batch with the credit read.
    Yield,
    /// Yield the batch with a credit made from the credit stream itself.
    YieldWithCredits,
    /// End the batched stream; a batch still held is dropped.
    Finish,
    /// Keep the batch for the next poll, and report that nothing is ready.
    Wait,
}

/// Where a poll of the batched stream starts: nowhere if the credit stream is gone (it has
/// ended at once), at the credits if a batch is held, else at the items.
pub fn batch_start(credits_live: bool, holding: bool) -> (r: Option<BatchPhase>)
    ensures
        !credits_live ==> r is None,
        credits_live && holding ==> r == Some(BatchPhase::Crediting),
        credits_live && !holding ==> r == Some(BatchPhase::Idle),
{
    if !credits_live {
        None
    } else if holding {
        Some(BatchPhase::Crediting)
    } else {
        Some(BatchPhase::Idle)
    }
}

/// The table of the batching loop: from the phase and what its stream gave, the next phase and
/// what to do.
pub open spec fn batch_table(phase: BatchPhase, seen: Seen) -> (BatchPhase, BatchAction) {
    match phase {
        BatchPhase::Idle => match seen {
            Seen::Value => (BatchPhase::Crediting, BatchAction::Hold),
            Seen::Ended => (BatchPhase::Idle, BatchAction::Finish),
            Seen::Pending => (BatchPhase::Idle, BatchAction::Wait),
        },
        BatchPhase::Crediting => match seen {
            Seen::Value => (BatchPhase::Idle, BatchAction::Yield),
            Seen::Ended => (BatchPhase::Idle, BatchAction::Finish),
            Seen::Pending => (BatchPhase::Gathering, BatchAction::Continue),
        },
        BatchPhase::Gathering => match seen {
            Seen::Value => (BatchPhase::Gathering, BatchAction::Merge),
            Seen::Ended => (BatchPhase::Idle, BatchAction::YieldWithCredits),
            Seen::Pending => (BatchPhase::Crediting, BatchAction::Wait),
        },
    }
}

/// One turn of the batching loop: from the phase and what its stream gave, the next phase and
/// what to do. A credit sends the batch; the credit stream ending drops it; while no credit is
/// ready the batch takes in every item that is ready, and goes out with the credit stream
/// itself once the items end.
pub fn batch_step(phase: BatchPhase, seen: Seen) -> (r: (BatchPhase, BatchAction))
    ensures
        r == batch_table(phase, seen),
{
    match phase {
        BatchPhase::Idle => match seen {
            Seen::Value => (BatchPhase::Crediting, BatchAction::Hold),
            Seen::Ended => (BatchPhase::Idle, BatchAction::Finish),
            Seen::Pending => (BatchPhase::Idle, BatchAction::Wait),
        },
        BatchPhase::Crediting => match seen {
            Seen::Value => (BatchPhase::Idle, BatchAction::Yield),
            Seen::Ended => (BatchPhase::Idle, BatchAction::Finish),
            Seen::Pending => (BatchPhase::Gathering, BatchAction::Continue),
        },
        BatchPhase::Gathering => match seen {
            Seen::Value => (BatchPhase::Gathering, BatchAction::Merge),
            Seen::Ended => (BatchPhase::Idle, BatchAction::YieldWithCredits),
            Seen::Pending => (BatchPhase::Crediting, BatchAction::Wait),
        },
    }
}

/// The elements of a held batch, none if no batch is held.
pub open spec fn held_elements<A>(held: Option<Seq<A>>) -> Seq<A> {
    match held {
        Some(b) => b,
        None => Seq::empty(),
    }
}

/// The batch held and the batch yielded once `action` is carried out, where `incoming` is the
/// item just read and merging puts an item's elements after those of the batch.
pub open spec fn carry_out<A>(action: BatchAction, held: Option<Seq<A>>, incoming: Seq<A>) -> (
    Option<Seq<A>>,
    Option<Seq<A>>,
) {
    match action {
        BatchAction::Hold => (Some(incoming), None),
        BatchAction::Merge => (Some(held_elements(held) + incoming), None),
        BatchAction::Yield => (None, held),
        BatchAction::YieldWithCredits => (None, held),
        BatchAction::Finish => (None, None),
        BatchAction::Continue => (held, None),
        BatchAction::Wait => (held, None),
    }
}

/// The batching loop run from `phase`, holding `held`, over `run`: for each turn what the
/// polled stream gave and, for an item, its elements. Gives the batch held at the end, the
/// items read, the batches yielded, and whether a held batch was dropped.
pub open spec fn replay<A>(phase: BatchPhase, held: Option<Seq<A>>, run: Seq<(Seen, Seq<A>)>) -> (
    Option<Seq<A>>,
    Seq<Seq<A>>,
    Seq<Seq<A>>,
    bool,
)
    decreases run.len(),
{
    if run.len() == 0 {
        (held, Seq::empty(), Seq::empty(), false)
    } else {
        let seen = run[0].0;
        let incoming = run[0].1;
        let step = batch_table(phase, seen);
        let done = carry_out(step.1, held, incoming);
        let rest = replay(step.0, done.0, run.drop_first());
        let read = if phase != BatchPhase::Crediting && seen == Seen::Value {
            seq![incoming] + rest.1
        } else {
            rest.1
        };
        let yielded = match done.1 {
            Some(b) => seq![b] + rest.2,
            None => rest.2,
        };
        (rest.0, read, yielded, rest.3 || (step.1 == BatchAction::Finish && held is Some))
    }
}

proof fn lemma_flatten_cons<A>(b: Seq<A>, rest: Seq<Seq<A>>)
    ensures
        (seq![b] + rest).flatten() == b + rest.flatten(),
{
    let x = seq![b] + rest;
    assert(x.first() == b);
    assert(x.drop_first() =~= rest);
}

proof fn lemma_replay_keeps<A>(phase: BatchPhase, held: Option<Seq<A>>, run: Seq<(Seen, Seq<A>)>)
    requires
        (held is Some) == (phase != BatchPhase::Idle),
    ensures
        !replay(phase, held, run).3 ==> held_elements(held) + replay(phase, held, run).1.flatten()
            == replay(phase, held, run).2.flatten() + held_elements(replay(phase, held, run).0),
    decreases run.len(),
{
    if run.len() == 0 {
        assert(Seq::<Seq<A>>::empty().flatten() =~= Seq::<A>::empty());
        assert(held_elements(held) + Seq::<A>::empty() =~= Seq::<A>::empty() + held_elements(held));
    } else {
        let seen = run[0].0;
        let incoming = run[0].1;
        let step = batch_table(phase, seen);
        let done = carry_out(step.1, held, incoming);
        let rest = replay(step.0, done.0, run.drop_first());
        lemma_replay_keeps(step.0, done.0, run.drop_first());
        let r = replay(phase, held, run);
        if !r.3 {
            let h = held_elements(held);
            let fin = held_elements(rest.0);
            if phase != BatchPhase::Crediting && seen == Seen::Value {
                lemma_flatten_cons(incoming, rest.1);
                if phase == BatchPhase::Idle {
                    assert(h + (incoming + rest.1.flatten()) =~= held_elements(done.0)
                        + rest.1.flatten());
                } else {
                    assert(h + (incoming + rest.1.flatten()) =~= held_elements(done.0)
                        + rest.1.flatten());
                }
            }
            if let Some(b) = done.1 {
                lemma_flatten_cons(b, rest.2);
                assert(h + rest.1.flatten() =~= b + (rest.2.flatten() + fin));
                assert((b + rest.2.flatten()) + fin =~= b + (rest.2.flatten() + fin));
            }
        }
    }
}

/// No element is lost, repeated or reordered: from the start, unless the credit stream ends
/// while a batch is held (and the batch is dropped), the batches yielded and then the batch
/// still held give back, in order, the elements of the items read.
pub proof fn lemma_batches_keep_items<A>(run: Seq<(Seen, Seq<A>)>)
    ensures
        !replay(BatchPhase::Idle, None, run).3 ==> replay(BatchPhase::Idle, None, run).2.flatten()
            + held_elements(replay(BatchPhase::Idle, None, run).0) == replay(
            BatchPhase::Idle,
            None,
            run,
        ).1.flatten(),
{
    lemma_replay_keeps(BatchPhase::Idle, None::<Seq<A>>, run);
    let r = replay(BatchPhase::Idle, None::<Seq<A>>, run);
    assert(Seq::<A>::empty() + r.1.flatten() =~= r.1.flatten());
}

/// Over `run` from `phase`: how many credits were read, how many batches went out with the
/// credit stream itself because the items ended, and how many turns saw the items end.
pub open spec fn credit_counts(phase: BatchPhase, run: Seq<Seen>) -> (nat, nat, nat)
    decreases run.len(),
{
    if run.len() == 0 {
        (0, 0, 0)
    } else {
        let step = batch_table(phase, run[0]);
        let rest = credit_counts(step.0, run.drop_first());
        (
            rest.0 + if phase == BatchPhase::Crediting && run[0] == Seen::Value { 1nat } else { 0 },
            rest.1 + if step.1 == BatchAction::YieldWithCredits { 1nat } else { 0 },
            rest.2 + if phase != BatchPhase::Crediting && run[0] == Seen::Ended { 1nat } else { 0 },
        )
    }
}

/// How many batches go out over `run` from `phase`.
pub open spec fn yield_count(phase: BatchPhase, run: Seq<Seen>) -> nat
    decreases run.len(),
{
    if run.len() == 0 {
        0
    } else {
        let step = batch_table(phase, run[0]);
        yield_count(step.0, run.drop_first()) + if step.1 == BatchAction::Yield || step.1
            == BatchAction::YieldWithCredits {
            1nat
        } else {
            0
        }
    }
}

/// Every batch goes out with a credit read for it, except those that go out with the credit
/// stream itself, and each of those goes out on a turn that saw the items end.
pub proof fn lemma_batches_use_credits(phase: BatchPhase, run: Seq<Seen>)
    ensures
        yield_count(phase, run) == credit_counts(phase, run).0 + credit_counts(phase, run).1,
        credit_counts(phase, run).1 <= credit_counts(phase, run).2,
    decreases run.len(),
{
    if run.len() > 0 {
        let step = batch_table(phase, run[0]);
        lemma_batches_use_credits(step.0, run.drop_first());
    }
}

} // verus!
