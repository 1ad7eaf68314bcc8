use vstd::prelude::*;

use crate::signal;
use crate::signal::ChannelSignal;

verus! {

/// What reaches an operator stage or a subscriber that waits on its source.
pub enum Inbound<T, E> {
    /// The next signal of the source.
    Signal(ChannelSignal<T, E>),
    /// The source outran this receiver, which missed that many signals.
    Lagged(u64),
    /// The source is gone, without an explicit end.
    Closed,
    /// The wait itself was called off.
    Cancelled,
}

/// What a stage or subscriber does about an [`Inbound`]: it passes on
/// `emit`, in order, and then stops or goes on waiting.
pub struct Step<O> {
    /// What to pass on, in order.
    pub emit: Vec<O>,
    /// Whether this was the last step.
    pub stop: bool,
}

/// The mathematical content of a [`Step`].
#[verifier::ext_equal]
pub struct Outcome<O> {
    /// What is passed on, in order.
    pub emit: Seq<O>,
    /// Whether this is the last step.
    pub stop: bool,
}

impl<O> Outcome<O> {
    /// Pass nothing on, and go on.
    pub open spec fn skip() -> Self {
        Outcome { emit: Seq::empty(), stop: false }
    }

    /// Pass `output` on, and go on.
    pub open spec fn pass(output: O) -> Self {
        Outcome { emit: seq![output], stop: false }
    }

    /// Pass `output` on, and stop.
    pub open spec fn close(output: O) -> Self {
        Outcome { emit: seq![output], stop: true }
    }

    /// Stop without passing anything on.
    pub open spec fn halt() -> Self {
        Outcome { emit: Seq::empty(), stop: true }
    }
}

impl<O> View for Step<O> {
    type V = Outcome<O>;

    open spec fn view(&self) -> Outcome<O> {
        Outcome { emit: self.emit@, stop: self.stop }
    }
}

impl<O> Step<O> {
    /// Passes nothing on, and goes on.
    pub fn skip() -> (step: Self)
        ensures
            step@ == Outcome::<O>::skip(),
            step.emit@ == Seq::<O>::empty(),
            !step.stop,
    {
        Step { emit: Vec::new(), stop: false }
    }

    /// Passes `output` on, and goes on.
    pub fn pass(output: O) -> (step: Self)
        ensures
            step@ == Outcome::pass(output),
            step.emit@ == seq![output],
            !step.stop,
    {
        Step { emit: vec![output], stop: false }
    }

    /// Passes `output` on, and stops.
    pub fn close(output: O) -> (step: Self)
        ensures
            step@ == Outcome::close(output),
            step.emit@ == seq![output],
            step.stop,
    {
        Step { emit: vec![output], stop: true }
    }

    /// Stops without passing anything on.
    pub fn halt() -> (step: Self)
        ensures
            step@ == Outcome::<O>::halt(),
            step.emit@ == Seq::<O>::empty(),
            step.stop,
    {
        Step { emit: Vec::new(), stop: true }
    }
}

/// Whether an arrival carries a value.
pub open spec fn is_next<T, E>(inbound: Inbound<T, E>) -> bool {
    inbound matches Inbound::Signal(Some(Ok(_)))
}

/// What every stage does about anything but an `OnNext`: `OnError` and
/// `OnCompleted` pass through unchanged and end the stage; a lagging or lost
/// source, or a cancelled wait, ends it without a terminal signal.
pub open spec fn relayed<T, U, E>(inbound: Inbound<T, E>) -> Outcome<ChannelSignal<U, E>> {
    match inbound {
        Inbound::Signal(Some(Err(e))) => Outcome::close(Some(Err(e))),
        Inbound::Signal(None) => Outcome::close(None),
        _ => Outcome::halt(),
    }
}

/// Everything that is passed on while a machine in `state` consumes
/// `inbounds`: it takes them one by one, up to the step that stops it.
pub open spec fn run<S, I, O>(
    machine: spec_fn(S, I) -> (S, Outcome<O>),
    state: S,
    inbounds: Seq<I>,
) -> Seq<O>
    decreases inbounds.len(),
{
    if inbounds.len() == 0 {
        Seq::empty()
    } else {
        let (next, outcome) = machine(state, inbounds[0]);
        if outcome.stop {
            outcome.emit
        } else {
            outcome.emit + run(machine, next, inbounds.drop_first())
        }
    }
}

/// A stage that behaves as `machine` went through `states` as it was stepped on
/// `inputs`, one after the other and until it stopped, with `outcomes`.
pub open spec fn follows<S, I, O>(
    machine: spec_fn(S, I) -> (S, Outcome<O>),
    states: Seq<S>,
    inputs: Seq<I>,
    outcomes: Seq<Outcome<O>>,
) -> bool {
    &&& states.len() == inputs.len() + 1
    &&& outcomes.len() == inputs.len()
    &&& forall|i: int|
        #![trigger inputs[i]]
        0 <= i < inputs.len() ==> (states[i + 1], outcomes[i]) == machine(states[i], inputs[i])
    &&& forall|i: int| 0 <= i < outcomes.len() - 1 ==> !(#[trigger] outcomes[i]).stop
}

/// The steps of a stage after the first are those of the same stage, from where
/// the first has left it.
pub proof fn lemma_follows_tail<S, I, O>(
    machine: spec_fn(S, I) -> (S, Outcome<O>),
    states: Seq<S>,
    inputs: Seq<I>,
    outcomes: Seq<Outcome<O>>,
)
    requires
        follows(machine, states, inputs, outcomes),
        inputs.len() > 0,
    ensures
        follows(machine, states.drop_first(), inputs.drop_first(), outcomes.drop_first()),
        (states[1], outcomes[0]) == machine(states[0], inputs[0]),
{
    let rest = inputs.drop_first();
    assert((states[1], outcomes[0]) == machine(states[0], inputs[0]));
    assert forall|i: int| #![trigger rest[i]] 0 <= i < rest.len() implies (
        states.drop_first()[i + 1],
        outcomes.drop_first()[i],
    ) == machine(states.drop_first()[i], rest[i]) by {
        assert(rest[i] == inputs[i + 1]);
        assert((states[i + 1 + 1], outcomes[i + 1]) == machine(states[i + 1], inputs[i + 1]));
    }
    assert forall|i: int| 0 <= i < outcomes.drop_first().len() - 1 implies !(
    #[trigger] outcomes.drop_first()[i]).stop by {
        assert(!outcomes[i + 1].stop);
    }
}

/// `signals` as they reach a stage.
pub open spec fn arrivals<T, E>(signals: Seq<ChannelSignal<T, E>>) -> Seq<Inbound<T, E>> {
    signals.map_values(|signal: ChannelSignal<T, E>| Inbound::Signal(signal))
}

/// The values of `values`, one by one, as they reach a stage.
pub open spec fn incoming<T, E>(values: Seq<T>) -> Seq<Inbound<T, E>> {
    values.map_values(|t: T| Inbound::Signal(Some(Ok::<T, E>(t))))
}

/// What arrives at a stage, each arrival beside what the stage's function gave
/// on it. For an arrival that is no value the function is not called, and what
/// stands beside it does not matter.
pub open spec fn beside<T, E, R>(inbounds: Seq<Inbound<T, E>>, results: Seq<R>) -> Seq<
    (Inbound<T, E>, R),
> {
    Seq::new(inbounds.len(), |i: int| (inbounds[i], results[i]))
}

/// A machine whose every step keeps to the grammar: while it goes on it passes
/// on values only, and when it stops at most the last thing is an end.
pub open spec fn orderly<S, I, T, E>(
    machine: spec_fn(S, I) -> (S, Outcome<ChannelSignal<T, E>>),
) -> bool {
    forall|state: S, inbound: I|
        {
            let outcome = (#[trigger] machine(state, inbound)).1;
            &&& signal::well_ordered(outcome.emit)
            &&& !outcome.stop ==> !signal::ended(outcome.emit)
        }
}

/// What an orderly machine passes on obeys the grammar, whatever it is fed.
pub proof fn lemma_orderly_run<S, I, T, E>(
    machine: spec_fn(S, I) -> (S, Outcome<ChannelSignal<T, E>>),
    state: S,
    inbounds: Seq<I>,
)
    requires
        orderly(machine),
    ensures
        signal::well_ordered(run(machine, state, inbounds)),
    decreases inbounds.len(),
{
    if inbounds.len() > 0 {
        let (next, outcome) = machine(state, inbounds[0]);
        if !outcome.stop {
            let rest = inbounds.drop_first();
            lemma_orderly_run(machine, next, rest);
            let head = outcome.emit;
            let tail = run(machine, next, rest);
            assert forall|i: int| 0 <= i < (head + tail).len() - 1 implies !signal::ends(
                #[trigger] (head + tail)[i],
            ) by {
                if i < head.len() {
                    assert((head + tail)[i] == head[i]);
                    if i == head.len() - 1 {
                        assert(head.last() == head[i]);
                    }
                } else {
                    assert((head + tail)[i] == tail[i - head.len()]);
                }
            }
        }
    }
}

/// The content of a step is what it passes on and whether it is the last, and
/// the four plain steps differ in just that.
pub proof fn law_steps_pass_on_at_most_one<O>(step: Step<O>, output: O)
    ensures
        step@.emit == step.emit@,
        step@.stop == step.stop,
        Outcome::<O>::skip().emit.len() == 0 && !Outcome::<O>::skip().stop,
        Outcome::<O>::halt().emit.len() == 0 && Outcome::<O>::halt().stop,
        Outcome::pass(output).emit == seq![output] && !Outcome::pass(output).stop,
        Outcome::close(output).emit == seq![output] && Outcome::close(output).stop,
{
}

/// What every stage does about an end of its source: an `OnError` is passed on
/// with its error, an `OnCompleted` as what it is, and nothing beside them. A
/// source that is lagging or lost, or a wait that was called off, passes on
/// nothing. In each case the stage stops.
pub proof fn law_ends_pass_unchanged<T, U, E>(error: E, missed: u64)
    ensures
        relayed::<T, U, E>(Inbound::Signal(Some(Err(error)))).emit == seq![Some(Err::<U, E>(error))],
        relayed::<T, U, E>(Inbound::Signal(Some(Err(error)))).stop,
        relayed::<T, U, E>(Inbound::Signal(None)).emit == seq![None::<Result<U, E>>],
        relayed::<T, U, E>(Inbound::Signal(None)).stop,
        relayed::<T, U, E>(Inbound::Lagged(missed)).emit.len() == 0,
        relayed::<T, U, E>(Inbound::Lagged(missed)).stop,
        relayed::<T, U, E>(Inbound::Closed).emit.len() == 0,
        relayed::<T, U, E>(Inbound::Closed).stop,
        relayed::<T, U, E>(Inbound::Cancelled).emit.len() == 0,
        relayed::<T, U, E>(Inbound::Cancelled).stop,
{
}

/// A run takes what arrives one by one, passes on what each step does, and
/// stops after the first step that says so.
pub proof fn law_run_goes_step_by_step<S, I, O>(
    machine: spec_fn(S, I) -> (S, Outcome<O>),
    state: S,
    first: I,
    rest: Seq<I>,
)
    ensures
        run(machine, state, Seq::empty()) == Seq::<O>::empty(),
        machine(state, first).1.stop ==> run(machine, state, seq![first] + rest) == machine(
            state,
            first,
        ).1.emit,
        !machine(state, first).1.stop ==> run(machine, state, seq![first] + rest) == machine(
            state,
            first,
        ).1.emit + run(machine, machine(state, first).0, rest),
{
    assert((seq![first] + rest)[0] == first);
    assert((seq![first] + rest).drop_first() =~= rest);
}

/// Signals, values and results reach a stage one by one, in order, each as it
/// is.
pub proof fn law_arrivals_keep_their_order<T, E, R>(
    signals: Seq<ChannelSignal<T, E>>,
    values: Seq<T>,
    inbounds: Seq<Inbound<T, E>>,
    results: Seq<R>,
)
    ensures
        arrivals(signals).len() == signals.len(),
        forall|i: int|
            0 <= i < signals.len() ==> #[trigger] arrivals(signals)[i] == Inbound::Signal(signals[i]),
        incoming::<T, E>(values).len() == values.len(),
        forall|i: int|
            0 <= i < values.len() ==> #[trigger] incoming::<T, E>(values)[i] == Inbound::Signal(
                Some(Ok::<T, E>(values[i])),
            ),
        beside(inbounds, results).len() == inbounds.len(),
        forall|i: int|
            0 <= i < inbounds.len() ==> #[trigger] beside(inbounds, results)[i] == (
                inbounds[i],
                results[i],
            ),
        forall|inbound: Inbound<T, E>| #[trigger]
            is_next(inbound) <==> (inbound matches Inbound::Signal(Some(Ok(_)))),
{
}

} // verus!
