use vstd::prelude::*;

use crate::error::SendError;
use crate::operators;
use crate::operators::{Piped, Start};
use crate::signal;
use crate::signal::{ChannelSignal, TerminalState};
use crate::stage;
use crate::stage::{Inbound, Outcome, Step};
use crate::subject;
use crate::subject::Subject;

verus! {

/// The stage of [`Subject::take`].
pub struct TakeStage {
    remaining: usize,
}

/// What the stage passes on for a value when it still takes `remaining`: the
/// value, and right after the last one an end of its own making.
pub open spec fn taken<T, E>(value: T, remaining: nat) -> Outcome<ChannelSignal<T, E>> {
    if remaining == 1 {
        Outcome { emit: seq![Some(Ok(value)), None], stop: true }
    } else {
        Outcome::pass(Some(Ok(value)))
    }
}

impl TakeStage {
    /// How many more values the stage takes.
    pub closed spec fn remaining(self) -> nat {
        self.remaining as nat
    }

    /// A stage that takes `n` values.
    pub fn new(n: usize) -> (stage: Self)
        ensures
            stage.remaining() == n,
    {
        TakeStage { remaining: n }
    }

    /// Handles one arrival. A stage that has taken its last value has stopped.
    pub fn on_inbound<T, E>(&mut self, inbound: Inbound<T, E>) -> (step: Step<ChannelSignal<T, E>>)
        requires
            old(self).remaining() > 0,
        ensures
            (final(self).remaining(), step@) == take_machine::<T, E>()(
                old(self).remaining(),
                inbound,
            ),
            match inbound {
                Inbound::Signal(Some(Ok(t))) => final(self).remaining() == old(self).remaining() - 1
                    && if old(self).remaining() == 1 {
                    step.emit@ == seq![Some(Ok::<T, E>(t)), None] && step.stop
                } else {
                    step.emit@ == seq![Some(Ok::<T, E>(t))] && !step.stop
                },
                Inbound::Signal(Some(Err(e))) => step.emit@ == seq![Some(Err::<T, E>(e))]
                    && step.stop,
                Inbound::Signal(None) => step.emit@ == seq![None::<Result<T, E>>] && step.stop,
                _ => step.emit@.len() == 0 && step.stop,
            },
    {
        match inbound {
            Inbound::Signal(Some(Ok(t))) => {
                self.remaining = self.remaining - 1;
                if self.remaining == 0 {
                    Step { emit: vec![Some(Ok(t)), None], stop: true }
                } else {
                    Step::pass(Some(Ok(t)))
                }
            },
            Inbound::Signal(Some(Err(e))) => Step::close(Some(Err(e))),
            Inbound::Signal(None) => Step::close(None),
            _ => Step::halt(),
        }
    }
}

/// A stage that takes `n` values of `source` starts as `start`: with nothing to
/// take it completes at once, whatever the source did.
pub open spec fn starts_take<T: Clone, E: Clone>(
    source: Subject<T, E>,
    n: usize,
    start: Start<T, E>,
) -> bool {
    if n == 0 {
        start matches Start::Settled(terminal) && terminal is Complete
    } else {
        operators::starts(source, start)
    }
}

/// A stage that takes `n` values of `source`, about to run.
pub open spec fn takes<T: Clone, E: Clone>(
    source: Subject<T, E>,
    capacity: usize,
    n: usize,
    piped: Piped<T, T, E, TakeStage>,
) -> bool {
    &&& operators::fresh(piped.out, capacity)
    &&& piped.stage.remaining() == n
    &&& starts_take(source, n, piped.start)
}

impl<T: Clone, E: Clone> Subject<T, E> {
    /// How a stage starts that takes `n` values of this subject.
    pub fn begin_take(&self, n: usize) -> (start: Start<T, E>)
        ensures
            starts_take(*self, n, start),
            n == 0 ==> (start matches Start::Settled(TerminalState::Complete)),
            n > 0 ==> match self.terminal() {
                Some(TerminalState::Error(e)) => start matches Start::Settled(
                    TerminalState::Error(copy),
                ) && cloned(e, copy),
                Some(TerminalState::Complete) => start matches Start::Settled(
                    TerminalState::Complete,
                ),
                None => start matches Start::Live(tap) && tap.origin() == self.handle()
                    && tap.missed() == self.sent(),
            },
    {
        if n == 0 {
            Start::Settled(TerminalState::Complete)
        } else {
            self.begin()
        }
    }

    /// Forwards the first `n` `OnNext` values, then synthesizes `OnCompleted`
    /// and stops, regardless of whether the source keeps emitting. With
    /// nothing to take it completes at once, whatever the source did.
    #[must_use]
    pub fn take(&self, capacity: usize, n: usize) -> (piped: Piped<T, T, E, TakeStage>)
        requires
            0 < capacity <= usize::MAX / 2,
        ensures
            takes(*self, capacity, n, piped),
            operators::fresh(piped.out, capacity),
            piped.stage.remaining() == n,
            starts_take(*self, n, piped.start),
    {
        Piped::new(capacity, self.begin_take(n), TakeStage::new(n))
    }
}

/// A take stage, with how many more values it takes as its state.
pub open spec fn take_machine<T, E>() -> spec_fn(nat, Inbound<T, E>) -> (
    nat,
    Outcome<ChannelSignal<T, E>>,
) {
    |remaining: nat, inbound: Inbound<T, E>|
        match inbound {
            Inbound::Signal(Some(Ok(t))) => ((remaining - 1) as nat, taken(t, remaining)),
            _ => (remaining, stage::relayed(inbound)),
        }
}

/// `take` emits the first `n` values of the source and completes right after
/// the last of them, whatever the source does afterwards. A source that stops
/// short of `n` values is passed on as it is: an `OnError` or `OnCompleted`
/// unchanged, nothing where it is lagging or lost.
pub proof fn law_take_limits<T, E>(
    n: nat,
    values: Seq<T>,
    end: Inbound<T, E>,
    rest: Seq<Inbound<T, E>>,
)
    requires
        n > 0,
        !stage::is_next(end),
    ensures
        stage::run(take_machine::<T, E>(), n, stage::incoming(values).push(end) + rest)
            == if values.len() >= n {
            signal::nexts::<T, E>(values.take(n as int)).push(None)
        } else {
            signal::nexts::<T, E>(values) + (match end {
            Inbound::Signal(Some(Err(e))) => seq![Some(Err::<T, E>(e))],
            Inbound::Signal(None) => seq![None::<Result<T, E>>],
            _ => Seq::empty(),
        })
        },
    decreases values.len(),
{
    let machine = take_machine::<T, E>();
    let all = stage::incoming(values).push(end) + rest;
    if values.len() == 0 {
        assert(all[0] == end);
        assert(stage::run(machine, n, all) =~= signal::nexts::<T, E>(values) + stage::relayed::<
            T,
            T,
            E,
        >(end).emit);
    } else {
        let tail = values.drop_first();
        assert(all[0] == Inbound::Signal(Some(Ok::<T, E>(values[0]))));
        if n == 1 {
            assert(stage::run(machine, n, all) =~= signal::nexts::<T, E>(values.take(n as int)).push(
                None,
            ));
        } else {
            let fewer = (n - 1) as nat;
            law_take_limits(fewer, tail, end, rest);
            assert(all.drop_first() =~= stage::incoming(tail).push(end) + rest);
            if values.len() >= n {
                assert(stage::run(machine, n, all) =~= signal::nexts::<T, E>(
                    values.take(n as int),
                ).push(None));
            } else {
                assert(stage::run(machine, n, all) =~= signal::nexts::<T, E>(values)
                    + stage::relayed::<T, T, E>(end).emit);
            }
        }
    }
}

proof fn lemma_take_prefix<T, E>(n: nat, values: Seq<T>, rest: Seq<Inbound<T, E>>)
    requires
        values.len() < n,
    ensures
        stage::run(take_machine::<T, E>(), n, stage::incoming(values) + rest) == signal::nexts::<
            T,
            E,
        >(values) + stage::run(take_machine::<T, E>(), (n - values.len()) as nat, rest),
    decreases values.len(),
{
    let machine = take_machine::<T, E>();
    let all = stage::incoming::<T, E>(values) + rest;
    let after = stage::run(machine, (n - values.len()) as nat, rest);
    if values.len() == 0 {
        assert(all =~= rest);
        assert(signal::nexts::<T, E>(values) + after =~= after);
    } else {
        lemma_take_prefix((n - 1) as nat, values.drop_first(), rest);
        assert(all[0] == Inbound::Signal(Some(Ok::<T, E>(values[0]))));
        assert(all.drop_first() =~= stage::incoming(values.drop_first()) + rest);
        assert(stage::run(machine, n, all) =~= signal::nexts::<T, E>(values) + after);
    }
}

proof fn lemma_take_state<T, E>(
    states: Seq<nat>,
    inbounds: Seq<Inbound<T, E>>,
    outcomes: Seq<Outcome<ChannelSignal<T, E>>>,
    i: int,
)
    requires
        stage::follows(take_machine::<T, E>(), states, inbounds, outcomes),
        states[0] > 0,
        0 <= i < inbounds.len(),
        forall|j: int| 0 <= j < i ==> stage::is_next(#[trigger] inbounds[j]),
    ensures
        states[i] > 0,
        states[i] == states[0] - i,
    decreases i,
{
    if i > 0 {
        lemma_take_state(states, inbounds, outcomes, i - 1);
        assert(stage::is_next(inbounds[i - 1]));
        assert((states[i - 1 + 1], outcomes[i - 1]) == take_machine::<T, E>()(
            states[i - 1],
            inbounds[i - 1],
        ));
        assert(!outcomes[i - 1].stop);
    }
}

/// On its output, a take stage of `n` values that was stepped on `values` and
/// then on `last`, without having stopped before, leaves the values, which are
/// fewer than `n`, and what the last step passes on: with the last of the `n`
/// values an end of its own.
pub proof fn law_take_output<T: Clone, E: Clone>(
    n: nat,
    states: Seq<nat>,
    values: Seq<T>,
    last: Inbound<T, E>,
    outcomes: Seq<Outcome<ChannelSignal<T, E>>>,
    outs: Seq<Subject<T, E>>,
)
    requires
        n > 0,
        stage::follows(
            take_machine::<T, E>(),
            states,
            stage::incoming(values).push(last),
            outcomes,
        ),
        states[0] == n,
        operators::forwards(outs, outcomes),
        outs[0].sent().len() == 0,
    ensures
        values.len() < n,
        outs.last().sent() == signal::nexts::<T, E>(values) + (match last {
            Inbound::Signal(Some(Ok(t))) => if values.len() + 1 == n {
                seq![Some(Ok::<T, E>(t)), None]
            } else {
                seq![Some(Ok::<T, E>(t))]
            },
            Inbound::Signal(Some(Err(e))) => seq![Some(Err::<T, E>(e))],
            Inbound::Signal(None) => seq![None::<Result<T, E>>],
            _ => Seq::empty(),
        }),
{
    let machine = take_machine::<T, E>();
    let inbounds = stage::incoming::<T, E>(values).push(last);
    law_take_keeps_grammar(n, inbounds);
    operators::law_steps_leave_carried(machine, states, inbounds, outcomes, outs);
    let tail = seq![last];
    assert(inbounds =~= stage::incoming(values) + tail);
    assert forall|j: int| 0 <= j < values.len() implies stage::is_next(#[trigger] inbounds[j]) by {
        assert(inbounds[j] == Inbound::Signal(Some(Ok::<T, E>(values[j]))));
    }
    lemma_take_state(states, inbounds, outcomes, values.len() as int);
    lemma_take_prefix(n, values, tail);
    assert(tail[0] == last);
    let now = (n - values.len()) as nat;
    let end = match last {
        Inbound::Signal(Some(Ok(t))) => taken::<T, E>(t, now),
        _ => stage::relayed::<T, T, E>(last),
    };
    assert(stage::run(machine, now, tail) =~= end.emit) by {
        reveal_with_fuel(stage::run, 2);
    }
}

/// Whatever a take stage is fed, what it emits obeys the notification grammar.
pub proof fn law_take_keeps_grammar<T, E>(n: nat, inbounds: Seq<Inbound<T, E>>)
    ensures
        stage::orderly(take_machine::<T, E>()),
        signal::well_ordered(stage::run(take_machine::<T, E>(), n, inbounds)),
{
    stage::lemma_orderly_run(take_machine::<T, E>(), n, inbounds);
}

/// How a stage starts that takes `n` values of `source`, for every `n` but zero:
/// on a subject that has not ended it starts live, on a receiver of that
/// subject's channel that has missed what was sent before and nothing else; on
/// one that has ended it starts settled, with that subject's own end. Only with
/// nothing to take does it complete at once.
pub proof fn law_take_starts_as_its_source_stands<T: Clone, E: Clone>(
    source: Subject<T, E>,
    n: usize,
    start: Start<T, E>,
)
    requires
        starts_take(source, n, start),
    ensures
        n == 0 ==> start == Start::<T, E>::Settled(TerminalState::Complete),
        n > 0 && source.terminal() is None ==> (start matches Start::Live(tap) && tap.origin()
            == source.handle() && tap.missed() == source.sent()),
        n > 0 ==> (source.terminal() matches Some(TerminalState::Error(e)) ==> (
        start matches Start::Settled(TerminalState::Error(copy)) && cloned(e, copy))),
        n > 0 && source.terminal() == Some(TerminalState::<E>::Complete) ==> start == Start::<
            T,
            E,
        >::Settled(TerminalState::Complete),
{
}

/// One step of a stage that takes `remaining` more values: a value is passed on
/// and counted, the last one with an `OnCompleted` behind it; an end of the
/// source is passed on as it is; anything else stops the stage silently.
pub proof fn law_take_step<T, E>(remaining: nat, inbound: Inbound<T, E>)
    requires
        remaining > 0,
    ensures
        match inbound {
            Inbound::Signal(Some(Ok(t))) => {
                &&& take_machine::<T, E>()(remaining, inbound).0 == remaining - 1
                &&& take_machine::<T, E>()(remaining, inbound).1.stop <==> remaining == 1
                &&& take_machine::<T, E>()(remaining, inbound).1.emit == if remaining == 1 {
                    seq![Some(Ok::<T, E>(t)), None]
                } else {
                    seq![Some(Ok::<T, E>(t))]
                }
            },
            Inbound::Signal(Some(Err(e))) => {
                &&& take_machine::<T, E>()(remaining, inbound).1.stop
                &&& take_machine::<T, E>()(remaining, inbound).1.emit == seq![Some(Err::<T, E>(e))]
            },
            Inbound::Signal(None) => {
                &&& take_machine::<T, E>()(remaining, inbound).1.stop
                &&& take_machine::<T, E>()(remaining, inbound).1.emit == seq![None::<Result<T, E>>]
            },
            _ => {
                &&& take_machine::<T, E>()(remaining, inbound).1.stop
                &&& take_machine::<T, E>()(remaining, inbound).1.emit.len() == 0
            },
        },
{
}

proof fn lemma_take_passes<T: Clone, E: Clone>(
    n: nat,
    signals: Seq<ChannelSignal<T, E>>,
    states: Seq<nat>,
    outcomes: Seq<Outcome<ChannelSignal<T, E>>>,
    outs: Seq<Subject<T, E>>,
    i: int,
)
    requires
        n > 0,
        states[0] == n,
        outs[0].sent().len() == 0,
        0 <= i < outcomes.len() <= signals.len(),
        forall|j: int|
            #![trigger signals[j]]
            0 <= j < outcomes.len() ==> (states[j + 1], outcomes[j]) == take_machine::<T, E>()(
                states[j],
                Inbound::Signal(signals[j]),
            ),
        operators::forwards(outs, outcomes),
        forall|j: int| 0 <= j < outcomes.len() - 1 ==> !(#[trigger] outcomes[j]).stop,
    ensures
        states[i] == n - i,
        i < n,
        outs[i].sent() == signals.take(i),
        forall|j: int| 0 <= j < i ==> (#[trigger] signals[j] matches Some(Ok(_))),
    decreases i,
{
    if i > 0 {
        let k = i - 1;
        lemma_take_passes(n, signals, states, outcomes, outs, k);
        assert((states[k + 1], outcomes[k]) == take_machine::<T, E>()(
            states[k],
            Inbound::Signal(signals[k]),
        ));
        assert(!outcomes[k].stop);
        assert(outs[k + 1].sent() == operators::absorbed(outs[k].sent(), outcomes[k].emit));
        assert(!signal::ended(signals.take(k))) by {
            if k > 0 {
                assert(signals.take(k).last() == signals[k - 1]);
            }
        }
        operators::lemma_absorbed_step(signals.take(k), signals[k], None);
        assert(signals.take(i) =~= signals.take(k).push(signals[k]));
    } else {
        assert(outs[0].sent() =~= signals.take(0));
    }
}

/// From the call of `take` to its output. For every `n` but zero, what a take of
/// `n` on a live source leaves on its output, once the source has sent `signals`
/// after the call and the stage was stepped on them until it stopped, is the
/// first `n` of them, where those are values, and then `OnCompleted`; where the
/// source has not sent that many values, or ended before, it is just what the
/// source has sent, its end with it.
pub proof fn law_take_from_call_to_output<T: Clone, E: Clone>(
    source: Subject<T, E>,
    capacity: usize,
    n: usize,
    piped: Piped<T, T, E, TakeStage>,
    later: Subject<T, E>,
    signals: Seq<ChannelSignal<T, E>>,
    states: Seq<nat>,
    outcomes: Seq<Outcome<ChannelSignal<T, E>>>,
    outs: Seq<Subject<T, E>>,
)
    requires
        n > 0,
        source.terminal() is None,
        takes(source, capacity, n, piped),
        later.wf(),
        later.sent() == source.sent() + signals,
        outcomes.len() <= signals.len(),
        states.len() == outcomes.len() + 1,
        states[0] == piped.stage.remaining(),
        forall|i: int|
            #![trigger signals[i]]
            0 <= i < outcomes.len() ==> (states[i + 1], outcomes[i]) == take_machine::<T, E>()(
                states[i],
                Inbound::Signal(signals[i]),
            ),
        forall|i: int| 0 <= i < outcomes.len() - 1 ==> !(#[trigger] outcomes[i]).stop,
        outcomes.len() == signals.len() || (outcomes.len() > 0 && outcomes.last().stop),
        operators::forwards(outs, outcomes),
        outs[0] == piped.out,
    ensures
        piped.start matches Start::Live(tap) && tap.origin() == source.handle() && tap.missed()
            == source.sent(),
        signals.len() >= n && (signals[n - 1] matches Some(Ok(_))) ==> outs.last().sent()
            == signals.take(n as int).push(None),
        !(signals.len() >= n && (signals[n - 1] matches Some(Ok(_)))) ==> outs.last().sent()
            == signals,
{
    operators::lemma_sent_since(source, later, signals);
    if outcomes.len() == 0 {
        assert(outs.last().sent() =~= signals);
    } else {
        let m = outcomes.len() - 1;
        lemma_take_passes(n as nat, signals, states, outcomes, outs, m);
        let before = signals.take(m);
        assert((states[m + 1], outcomes[m]) == take_machine::<T, E>()(
            states[m],
            Inbound::Signal(signals[m]),
        ));
        assert(outs[m + 1].sent() == operators::absorbed(outs[m].sent(), outcomes[m].emit));
        assert(!signal::ended(before)) by {
            if m > 0 {
                assert(before.last() == signals[m - 1]);
            }
        }
        operators::lemma_absorbed_step(before, signals[m], None);
        assert(before.push(signals[m]) =~= signals.take(m + 1));
        if m + 1 == signals.len() {
            assert(signals.take(m + 1) =~= signals);
        }
        if m + 1 == n {
            assert(signals.take(n as int) =~= signals.take(m + 1));
        }
    }
}

/// Of nothing nothing is taken: the output of a take of zero is completed, and
/// that is all there is on it, whatever the source did or does.
pub proof fn law_take_of_nothing_completes<T: Clone, E: Clone>(
    source: Subject<T, E>,
    capacity: usize,
    piped: Piped<T, T, E, TakeStage>,
    after: Subject<T, E>,
    result: Result<usize, SendError>,
)
    requires
        takes(source, capacity, 0, piped),
        piped.start matches Start::Settled(terminal) ==> operators::concludes(
            piped.out,
            terminal,
            after,
            result,
        ),
    ensures
        piped.start is Settled,
        after.sent() == seq![None::<Result<T, E>>],
{
    law_take_starts_as_its_source_stands(source, 0, piped.start);
    let copy = choose|copy: TerminalState<E>| #[trigger]
        signal::same_end(TerminalState::<E>::Complete, copy) && subject::emitted(
            piped.out,
            signal::announcement(copy),
            after,
            result,
        );
    assert(signal::same_end(TerminalState::<E>::Complete, copy));
    assert(after.sent() =~= seq![None::<Result<T, E>>]);
}

} // verus!
