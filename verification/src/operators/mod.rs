//! Operators on [`Subject`]: each builds a stage that reads from the source
//! subject and emits on a new one.

pub mod filter;
pub mod judge;
pub mod map;
pub mod merge;
pub mod race;
pub mod referee;
pub mod skip;
pub mod take;
pub mod take_while;

pub use filter::{filter_by, FilterStage};
pub use judge::{Asked, Judge};
pub use map::MapStage;
pub use merge::{Arm, MergeArm, Merged};
pub use referee::{Bell, MergeProgress};
pub use skip::SkipStage;
pub use take::TakeStage;
pub use take_while::{take_while_by, TakeWhileStage};

use vstd::prelude::*;

use crate::channel::Tap;
use crate::error::SendError;
use crate::signal;
use crate::signal::{ChannelSignal, TerminalState};
use crate::stage;
use crate::stage::{Inbound, Outcome, Step};
use crate::subject;
use crate::subject::{SourceSnapshot, Subject};

verus! {

/// How an operator stage starts.
#[verifier::reject_recursive_types(T)]
#[verifier::reject_recursive_types(E)]
pub enum Start<T, E> {
    /// There is nothing to wait for: the output ends at once, this way.
    Settled(TerminalState<E>),
    /// The stage consumes what arrives here.
    Live(Tap<T, E>),
}

/// An operator stage, ready to run: `stage` turns what arrives at `start`
/// into what goes out on `out`.
#[verifier::reject_recursive_types(T)]
#[verifier::reject_recursive_types(U)]
#[verifier::reject_recursive_types(E)]
pub struct Piped<T, U: Clone, E, S> {
    /// The subject that the stage emits on.
    pub out: Subject<U, E>,
    /// How the stage starts.
    pub start: Start<T, E>,
    /// What the stage does with each arrival.
    pub stage: S,
}

impl<T, U: Clone, E: Clone, S> Piped<T, U, E, S> {
    /// A stage that starts as `start`, with an output of its own. `capacity`
    /// sizes the output subject's channel.
    pub fn new(capacity: usize, start: Start<T, E>, stage: S) -> (piped: Self)
        requires
            0 < capacity <= usize::MAX / 2,
        ensures
            fresh(piped.out, capacity),
            piped.start == start,
            piped.stage == stage,
    {
        Piped { out: Subject::new(capacity), start, stage }
    }
}

/// A stage on `source` starts as `start`: where the source has already ended
/// its end is passed on at once; otherwise the stage gets everything that the
/// source emits from now on.
pub open spec fn starts<T: Clone, E: Clone>(source: Subject<T, E>, start: Start<T, E>) -> bool {
    match start {
        Start::Settled(terminal) => {
            &&& source.terminal() matches Some(end)
            &&& signal::same_end(end, terminal)
        },
        Start::Live(tap) => {
            &&& source.terminal() is None
            &&& tap.origin() == source.handle()
            &&& tap.missed() == source.sent()
        },
    }
}

/// A subject on which nothing has been emitted yet.
pub open spec fn fresh<T: Clone, E: Clone>(subject: Subject<T, E>, capacity: usize) -> bool {
    &&& subject.wf()
    &&& subject.capacity() == capacity
    &&& subject.sent() == Seq::<ChannelSignal<T, E>>::empty()
    &&& subject.terminal() is None
}

/// Whether `verdict` is something that `predicate` may give on an arrival; on
/// one that is no value it is not called.
pub open spec fn judges<T, E, F: Fn(&T) -> Option<bool>>(
    predicate: F,
    inbound: Inbound<T, E>,
    verdict: Option<bool>,
) -> bool {
    inbound matches Inbound::Signal(Some(Ok(t))) ==> call_ensures(predicate, (&t,), verdict)
}

/// The values `values`, on which a predicate gave `verdicts`.
pub open spec fn judged<T, E>(values: Seq<T>, verdicts: Seq<bool>) -> Seq<
    (Inbound<T, E>, Option<bool>),
> {
    stage::beside(stage::incoming(values), verdicts.map_values(|verdict: bool| Some(verdict)))
}

/// What is on a subject's channel after `emit` was emitted, one by one, where
/// `sent` was there before: everything up to the first end.
pub open spec fn absorbed<T, E>(
    sent: Seq<ChannelSignal<T, E>>,
    emit: Seq<ChannelSignal<T, E>>,
) -> Seq<ChannelSignal<T, E>>
    decreases emit.len(),
{
    if emit.len() == 0 || signal::ended(sent) {
        sent
    } else {
        absorbed(sent.push(emit[0]), emit.drop_first())
    }
}

/// What emitting the end `terminal` on an output does: what emitting a copy of
/// it as a signal does.
pub open spec fn concludes<T: Clone, E: Clone>(
    before: Subject<T, E>,
    terminal: TerminalState<E>,
    after: Subject<T, E>,
    result: Result<usize, SendError>,
) -> bool {
    exists|copy: TerminalState<E>| #[trigger]
        signal::same_end(terminal, copy) && subject::emitted(
            before,
            signal::announcement(copy),
            after,
            result,
        )
}

impl<T: Clone, E: Clone> Subject<T, E> {
    /// How a stage on this subject starts.
    pub fn begin(&self) -> (start: Start<T, E>)
        ensures
            starts(*self, start),
            match self.terminal() {
                Some(TerminalState::Error(e)) => start matches Start::Settled(
                    TerminalState::Error(copy),
                ) && cloned(e, copy),
                Some(TerminalState::Complete) => start matches Start::Settled(
                    TerminalState::Complete,
                ),
                None => start matches Start::Live(tap) && tap.origin() == self.handle()
                    && tap.missed() == self.sent(),
            },
    {
        match self.snapshot() {
            SourceSnapshot::Terminated { terminal, .. } => Start::Settled(terminal),
            SourceSnapshot::Live { tap, .. } => Start::Live(tap),
        }
    }

    /// Emits what a stage passes on in one step, in order, and returns whether
    /// the stage stops. That nobody may be listening is no concern of the
    /// stage: it is a normal state for a hot subject.
    pub fn forward(&mut self, step: Step<ChannelSignal<T, E>>) -> (stop: bool)
        requires
            old(self).wf(),
        ensures
            final(self).wf(),
            final(self).handle() == old(self).handle(),
            final(self).capacity() == old(self).capacity(),
            final(self).sent() == absorbed(old(self).sent(), step@.emit),
            old(self).terminal() is Some ==> final(self).sent() == old(self).sent(),
            old(self).terminal() is None && (forall|i: int|
                0 <= i && i + 1 < step.emit@.len() ==> (#[trigger] step.emit@[i] matches Some(
                    Ok(_),
                ))) ==> final(self).sent() == old(self).sent() + step.emit@,
            stop == step@.stop,
            stop == step.stop,
    {
        let mut emit = step.emit;
        while emit.len() > 0
            invariant
                self.wf(),
                self.handle() == old(self).handle(),
                self.capacity() == old(self).capacity(),
                absorbed(self.sent(), emit@) == absorbed(old(self).sent(), step@.emit),
            decreases emit.len(),
        {
            let ghost rest = emit@.drop_first();
            let signal = emit.remove(0);
            assert(emit@ =~= rest);
            let _ = self.send(signal);
        }
        proof {
            signal::law_grammar_is_values_then_an_end(step@.emit);
            if old(self).terminal() is None && signal::well_ordered(step@.emit) {
                lemma_absorbed_whole(old(self).sent(), step@.emit);
            }
        }
        step.stop
    }

    /// Emits the end `terminal`, for a stage that has nothing to wait for.
    ///
    /// # Errors
    /// Returns [`SendError::NoReceivers`] if there are no active subscribers.
    pub fn conclude(&mut self, terminal: &TerminalState<E>) -> (result: Result<usize, SendError>)
        requires
            old(self).wf(),
        ensures
            final(self).wf(),
            concludes(*old(self), *terminal, *final(self), result),
            old(self).terminal() is None ==> final(self).sent().len() == old(self).sent().len() + 1
                && match *terminal {
                TerminalState::Error(e) => final(self).sent().last() matches Some(Err(copy))
                    && cloned(e, copy),
                TerminalState::Complete => final(self).sent().last() is None,
            },
    {
        self.send(terminal.to_channel_signal())
    }
}

/// Emitting the pieces of a sequence one after the other puts on the channel
/// what emitting the whole does.
pub proof fn lemma_absorbed_concat<T, E>(
    sent: Seq<ChannelSignal<T, E>>,
    first: Seq<ChannelSignal<T, E>>,
    second: Seq<ChannelSignal<T, E>>,
)
    ensures
        absorbed(sent, first + second) == absorbed(absorbed(sent, first), second),
    decreases first.len(),
{
    if first.len() == 0 {
        assert(first + second =~= second);
    } else if signal::ended(sent) {
    } else {
        assert((first + second).drop_first() =~= first.drop_first() + second);
        lemma_absorbed_concat(sent.push(first[0]), first.drop_first(), second);
    }
}

/// A sequence that obeys the grammar is put on a live channel as it is.
pub proof fn lemma_absorbed_whole<T, E>(
    sent: Seq<ChannelSignal<T, E>>,
    emit: Seq<ChannelSignal<T, E>>,
)
    requires
        !signal::ended(sent),
        signal::well_ordered(emit),
    ensures
        absorbed(sent, emit) == sent + emit,
    decreases emit.len(),
{
    if emit.len() == 0 {
        assert(sent + emit =~= sent);
    } else if emit.len() == 1 {
        assert(absorbed(sent.push(emit[0]), emit.drop_first()) == sent.push(emit[0]));
        assert(sent + emit =~= sent.push(emit[0]));
    } else {
        let rest = emit.drop_first();
        assert forall|i: int| 0 <= i < rest.len() - 1 implies !signal::ends(#[trigger] rest[i]) by {
            assert(rest[i] == emit[i + 1]);
        }
        assert(!signal::ends(emit[0]));
        lemma_absorbed_whole(sent.push(emit[0]), rest);
        assert(sent.push(emit[0]) + rest =~= sent + emit);
    }
}

/// Everything that an orderly stage passes on gets onto its output's channel,
/// in order and as it is, however it is split over the stage's steps.
pub proof fn law_output_carries_all<S, I, T, E>(
    machine: spec_fn(S, I) -> (S, Outcome<ChannelSignal<T, E>>),
    state: S,
    inbounds: Seq<I>,
)
    requires
        stage::orderly(machine),
    ensures
        carried(machine, state, inbounds, Seq::empty()) == stage::run(machine, state, inbounds),
{
    lemma_carried(machine, state, inbounds, Seq::empty());
    stage::lemma_orderly_run(machine, state, inbounds);
    let output = stage::run(machine, state, inbounds);
    lemma_absorbed_whole(Seq::empty(), output);
    assert(Seq::empty() + output =~= output);
}

/// What is on an output's channel after a stage in `state` has consumed
/// `inbounds`, each of its steps being forwarded before the next one is taken.
pub open spec fn carried<S, I, T, E>(
    machine: spec_fn(S, I) -> (S, Outcome<ChannelSignal<T, E>>),
    state: S,
    inbounds: Seq<I>,
    sent: Seq<ChannelSignal<T, E>>,
) -> Seq<ChannelSignal<T, E>>
    decreases inbounds.len(),
{
    if inbounds.len() == 0 {
        sent
    } else {
        let (next, outcome) = machine(state, inbounds[0]);
        let now = absorbed(sent, outcome.emit);
        if outcome.stop {
            now
        } else {
            carried(machine, next, inbounds.drop_first(), now)
        }
    }
}

proof fn lemma_carried<S, I, T, E>(
    machine: spec_fn(S, I) -> (S, Outcome<ChannelSignal<T, E>>),
    state: S,
    inbounds: Seq<I>,
    sent: Seq<ChannelSignal<T, E>>,
)
    ensures
        carried(machine, state, inbounds, sent) == absorbed(
            sent,
            stage::run(machine, state, inbounds),
        ),
    decreases inbounds.len(),
{
    if inbounds.len() > 0 {
        let (next, outcome) = machine(state, inbounds[0]);
        if !outcome.stop {
            let rest = inbounds.drop_first();
            lemma_carried(machine, next, rest, absorbed(sent, outcome.emit));
            lemma_absorbed_concat(sent, outcome.emit, stage::run(machine, next, rest));
        }
    }
}

/// An output that went through `outs` as `outcomes` were forwarded to it, one
/// after the other, each as [`Subject::forward`] does it.
pub open spec fn forwards<T: Clone, E: Clone>(
    outs: Seq<Subject<T, E>>,
    outcomes: Seq<Outcome<ChannelSignal<T, E>>>,
) -> bool {
    &&& outs.len() == outcomes.len() + 1
    &&& forall|i: int|
        #![trigger outcomes[i]]
        0 <= i < outcomes.len() ==> outs[i + 1].sent() == absorbed(
            outs[i].sent(),
            outcomes[i].emit,
        )
}

/// A stage that is stepped on what arrives until it stops, each of its steps
/// being forwarded before the next one is taken, leaves on its output what its
/// machine carries there. On an output that nothing was emitted on, that is all
/// that an orderly machine passes on over the whole run.
pub proof fn law_steps_leave_carried<S, I, T: Clone, E: Clone>(
    machine: spec_fn(S, I) -> (S, Outcome<ChannelSignal<T, E>>),
    states: Seq<S>,
    inputs: Seq<I>,
    outcomes: Seq<Outcome<ChannelSignal<T, E>>>,
    outs: Seq<Subject<T, E>>,
)
    requires
        stage::follows(machine, states, inputs, outcomes),
        forwards(outs, outcomes),
    ensures
        outs.last().sent() == carried(machine, states[0], inputs, outs[0].sent()),
        stage::orderly(machine) && outs[0].sent().len() == 0 ==> outs.last().sent() == stage::run(
            machine,
            states[0],
            inputs,
        ),
{
    lemma_steps_leave_carried(machine, states, inputs, outcomes, outs);
    if stage::orderly(machine) && outs[0].sent().len() == 0 {
        assert(outs[0].sent() =~= Seq::empty());
        law_output_carries_all(machine, states[0], inputs);
    }
}

proof fn lemma_steps_leave_carried<S, I, T: Clone, E: Clone>(
    machine: spec_fn(S, I) -> (S, Outcome<ChannelSignal<T, E>>),
    states: Seq<S>,
    inputs: Seq<I>,
    outcomes: Seq<Outcome<ChannelSignal<T, E>>>,
    outs: Seq<Subject<T, E>>,
)
    requires
        stage::follows(machine, states, inputs, outcomes),
        forwards(outs, outcomes),
    ensures
        outs.last().sent() == carried(machine, states[0], inputs, outs[0].sent()),
    decreases inputs.len(),
{
    if inputs.len() > 0 {
        let rest = outcomes.drop_first();
        let later = outs.drop_first();
        stage::lemma_follows_tail(machine, states, inputs, outcomes);
        assert(outs[1].sent() == absorbed(outs[0].sent(), outcomes[0].emit));
        assert forall|i: int| #![trigger rest[i]] 0 <= i < rest.len() implies later[i + 1].sent()
            == absorbed(later[i].sent(), rest[i].emit) by {
            assert(rest[i] == outcomes[i + 1]);
            assert(outs[i + 1 + 1].sent() == absorbed(outs[i + 1].sent(), outcomes[i + 1].emit));
        }
        lemma_steps_leave_carried(machine, states.drop_first(), inputs.drop_first(), rest, later);
        assert(later.last() == outs.last());
        if outcomes[0].stop {
            assert(outcomes.len() == 1);
        }
    }
}

/// A new output has the capacity asked for, nothing is on its channel, and it
/// has not ended.
pub proof fn law_fresh_output_is_empty<T: Clone, E: Clone>(out: Subject<T, E>, capacity: usize)
    requires
        fresh(out, capacity),
    ensures
        out.wf(),
        out.capacity() == capacity,
        out.sent().len() == 0,
        out.answers().len() == 0,
        out.terminal() is None,
{
}

/// A stage on a subject that has not ended starts live, on a receiver of that
/// subject's channel that has missed what was sent before and nothing else. One
/// on a subject that has ended starts settled, with what the last signal on the
/// subject's channel says: the error, a clone of the clone that the subject
/// keeps, or the completion.
pub proof fn law_stage_starts_as_its_source_stands<T: Clone, E: Clone>(
    source: Subject<T, E>,
    start: Start<T, E>,
)
    requires
        source.wf(),
        starts(source, start),
    ensures
        source.terminal() is None ==> (start matches Start::Live(tap) && tap.origin()
            == source.handle() && tap.missed() == source.sent()),
        source.terminal() is Some ==> source.sent().len() > 0 && match source.sent()[source.sent().len()
            - 1] {
            Some(Ok(_)) => false,
            Some(Err(e)) => start matches Start::Settled(TerminalState::Error(copy)) && exists|
                kept: E,
            | #[trigger]
                cloned(e, kept) && cloned(kept, copy),
            None => start matches Start::Settled(TerminalState::Complete),
        },
{
    subject::law_memory_agrees_with_the_channel(source);
}

/// From a source that has ended to the output of a stage on it: there is one
/// signal on the output, the end of the source, an `OnError` with a copy of the
/// error and an `OnCompleted` as an `OnCompleted`.
pub proof fn law_settled_stage_passes_the_end_on<T: Clone, U: Clone, E: Clone>(
    source: Subject<T, E>,
    start: Start<T, E>,
    out: Subject<U, E>,
    capacity: usize,
    after: Subject<U, E>,
    result: Result<usize, SendError>,
)
    requires
        source.wf(),
        source.terminal() is Some,
        starts(source, start),
        fresh(out, capacity),
        start matches Start::Settled(terminal) ==> concludes(out, terminal, after, result),
    ensures
        after.sent().len() == 1,
        source.sent().len() > 0,
        match source.sent()[source.sent().len() - 1] {
            Some(Ok(_)) => false,
            Some(Err(e)) => after.sent()[0] matches Some(Err(copy)) && exists|kept: E, passed: E|
                cloned(e, kept) && #[trigger] cloned(kept, passed) && #[trigger] cloned(passed, copy),
            None => after.sent()[0] == None::<Result<U, E>>,
        },
{
    law_stage_starts_as_its_source_stands(source, start);
    match start {
        Start::Settled(terminal) => {
            let copy = choose|copy: TerminalState<E>| #[trigger]
                signal::same_end(terminal, copy) && subject::emitted(
                    out,
                    signal::announcement(copy),
                    after,
                    result,
                );
            assert(signal::same_end(terminal, copy));
            assert(after.sent() == out.sent().push(signal::announcement(copy)));
        },
        Start::Live(_) => {},
    }
}

/// What is forwarded to an output that has not ended gets onto its channel, in
/// order and as it is, behind what is there, up to and with the first error or
/// completion. To one that has ended nothing is added.
pub proof fn law_forwarding_adds_up_to_the_end<T, E>(
    sent: Seq<ChannelSignal<T, E>>,
    emit: Seq<ChannelSignal<T, E>>,
    values: int,
)
    requires
        0 <= values <= emit.len(),
        forall|i: int| 0 <= i < values ==> (#[trigger] emit[i] matches Some(Ok(_))),
        values < emit.len() ==> !(emit[values] matches Some(Ok(_))),
    ensures
        sent.len() > 0 && !(sent[sent.len() - 1] matches Some(Ok(_))) ==> absorbed(sent, emit)
            == sent,
        sent.len() == 0 || (sent[sent.len() - 1] matches Some(Ok(_))) ==> absorbed(sent, emit)
            == sent + (if values < emit.len() {
            emit.take(values + 1)
        } else {
            emit
        }),
{
    if !signal::ended(sent) {
        if values < emit.len() {
            let first = emit.take(values + 1);
            assert(emit =~= first + emit.skip(values + 1));
            lemma_absorbed_concat(sent, first, emit.skip(values + 1));
            assert forall|i: int| 0 <= i < first.len() - 1 implies !signal::ends(
                #[trigger] first[i],
            ) by {
                assert(first[i] == emit[i]);
            }
            lemma_absorbed_whole(sent, first);
            assert((sent + first).last() == emit[values]);
        } else {
            assert forall|i: int| 0 <= i < emit.len() - 1 implies !signal::ends(
                #[trigger] emit[i],
            ) by {
                assert(emit[i] matches Some(Ok(_)));
            }
            lemma_absorbed_whole(sent, emit);
        }
    }
}

/// What a stage passes on in one step, onto an output that has not ended.
pub(crate) proof fn lemma_absorbed_step<T, E>(
    sent: Seq<ChannelSignal<T, E>>,
    passed: ChannelSignal<T, E>,
    end: ChannelSignal<T, E>,
)
    requires
        !signal::ended(sent),
    ensures
        absorbed(sent, Seq::empty()) == sent,
        absorbed(sent, seq![passed]) == sent.push(passed),
        !signal::ends(passed) ==> absorbed(sent, seq![passed, end]) == sent.push(passed).push(end),
{
    lemma_absorbed_whole(sent, seq![passed]);
    assert(sent + seq![passed] =~= sent.push(passed));
    if !signal::ends(passed) {
        lemma_absorbed_whole(sent, seq![passed, end]);
        assert(sent + seq![passed, end] =~= sent.push(passed).push(end));
    }
}

/// What a subject has sent since it was `source`: values, and at most at the
/// very end something else.
pub(crate) proof fn lemma_sent_since<T: Clone, E: Clone>(
    source: Subject<T, E>,
    later: Subject<T, E>,
    signals: Seq<ChannelSignal<T, E>>,
)
    requires
        later.wf(),
        later.sent() == source.sent() + signals,
    ensures
        forall|i: int|
            0 <= i && i + 1 < signals.len() ==> (#[trigger] signals[i] matches Some(Ok(_))),
{
    subject::law_memory_agrees_with_the_channel(later);
    assert forall|i: int| 0 <= i && i + 1 < signals.len() implies (
    #[trigger] signals[i] matches Some(Ok(_))) by {
        assert(later.sent()[source.sent().len() + i] == signals[i]);
    }
}

} // verus!
