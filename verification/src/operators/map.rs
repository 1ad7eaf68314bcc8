use vstd::prelude::*;

use crate::operators;
use crate::operators::{Piped, Start};
use crate::signal;
use crate::signal::ChannelSignal;
use crate::stage;
use crate::stage::{Inbound, Outcome, Step};
use crate::subject::Subject;

verus! {

/// The stage of [`Subject::map`].
pub struct MapStage<F> {
    f: F,
}

/// What the stage passes on for a value that the function turned into
/// `applied`. A function that gave nothing stops the stage: there is no error
/// value to report downstream.
pub open spec fn mapped<U, E>(applied: Option<U>) -> Outcome<ChannelSignal<U, E>> {
    match applied {
        Some(u) => Outcome::pass(Some(Ok(u))),
        None => Outcome::halt(),
    }
}

/// Whether `applied` is something that `f` may give on an arrival; on one that
/// is no value `f` is not called.
pub open spec fn applies<T, U, E, F: Fn(T) -> Option<U>>(
    f: F,
    inbound: Inbound<T, E>,
    applied: Option<U>,
) -> bool {
    inbound matches Inbound::Signal(Some(Ok(t))) ==> call_ensures(f, (t,), applied)
}

/// One step of a stage that goes by `f`.
pub open spec fn map_step<T, U, E, F: Fn(T) -> Option<U>>(
    f: F,
    inbound: Inbound<T, E>,
    outcome: Outcome<ChannelSignal<U, E>>,
) -> bool {
    exists|applied: Option<U>| #[trigger]
        applies::<T, U, E, F>(f, inbound, applied) && ((), outcome) == map_machine::<T, U, E>()(
            (),
            (inbound, applied),
        )
}

impl<F> MapStage<F> {
    /// The function that is applied to each value.
    pub closed spec fn function(self) -> F {
        self.f
    }

    /// A stage that goes by `f`.
    pub fn new(f: F) -> (stage: Self)
        ensures
            stage.function() == f,
    {
        MapStage { f }
    }

    /// Handles one arrival.
    pub fn on_inbound<T, U, E>(&self, inbound: Inbound<T, E>) -> (step: Step<ChannelSignal<U, E>>)
        where F: Fn(T) -> Option<U>
        requires
            inbound matches Inbound::Signal(Some(Ok(t))) ==> call_requires(self.function(), (t,)),
        ensures
            map_step(self.function(), inbound, step@),
            match inbound {
                Inbound::Signal(Some(Ok(t))) => if step.stop {
                    step.emit@.len() == 0 && call_ensures(self.function(), (t,), None)
                } else {
                    step.emit@.len() == 1 && (step.emit@[0] matches Some(Ok(u)) && call_ensures(
                        self.function(),
                        (t,),
                        Some(u),
                    ))
                },
                Inbound::Signal(Some(Err(e))) => step.emit@ == seq![Some(Err::<U, E>(e))]
                    && step.stop,
                Inbound::Signal(None) => step.emit@ == seq![None::<Result<U, E>>] && step.stop,
                _ => step.emit@.len() == 0 && step.stop,
            },
    {
        match inbound {
            Inbound::Signal(Some(Ok(t))) => {
                let applied = (self.f)(t);
                assert(applies::<T, U, E, F>(self.f, inbound, applied));
                match applied {
                    Some(u) => Step::pass(Some(Ok(u))),
                    // The function failed; there is nothing to pass on.
                    None => Step::halt(),
                }
            },
            other => {
                assert(applies::<T, U, E, F>(self.f, inbound, None));
                match other {
                    Inbound::Signal(Some(Err(e))) => Step::close(Some(Err(e))),
                    Inbound::Signal(None) => Step::close(None),
                    _ => Step::halt(),
                }
            },
        }
    }
}

/// A stage that maps the values of `source` by `f`, about to run.
pub open spec fn maps<T: Clone, U: Clone, E: Clone, F>(
    source: Subject<T, E>,
    capacity: usize,
    f: F,
    piped: Piped<T, U, E, MapStage<F>>,
) -> bool {
    &&& operators::fresh(piped.out, capacity)
    &&& operators::starts(source, piped.start)
    &&& piped.stage.function() == f
}

impl<T: Clone, E: Clone> Subject<T, E> {
    /// Transforms each `OnNext` value with `f`. `OnError`/`OnCompleted` pass
    /// through unchanged. `capacity` sizes the output subject's channel. An
    /// `f` that returns `None` has failed, and stops the stage.
    #[must_use]
    pub fn map<U, F>(&self, capacity: usize, f: F) -> (piped: Piped<T, U, E, MapStage<F>>)
        where U: Clone, F: Fn(T) -> Option<U>
        requires
            0 < capacity <= usize::MAX / 2,
        ensures
            maps(*self, capacity, f, piped),
            operators::fresh(piped.out, capacity),
            operators::starts(*self, piped.start),
            piped.stage.function() == f,
    {
        Piped::new(capacity, self.begin(), MapStage::new(f))
    }
}

/// A map stage, fed each arrival beside what the function gave on it.
pub open spec fn map_machine<T, U, E>() -> spec_fn((), (Inbound<T, E>, Option<U>)) -> (
    (),
    Outcome<ChannelSignal<U, E>>,
) {
    |state: (), input: (Inbound<T, E>, Option<U>)|
        (
            (),
            match input.0 {
                Inbound::Signal(Some(Ok(_))) => mapped(input.1),
                _ => stage::relayed(input.0),
            },
        )
}

/// The steps of a map stage are those of its machine, for what its function
/// gave on each arrival.
pub proof fn law_map_steps_follow_machine<T, U, E, F: Fn(T) -> Option<U>>(
    f: F,
    inbounds: Seq<Inbound<T, E>>,
    outcomes: Seq<Outcome<ChannelSignal<U, E>>>,
) -> (results: Seq<Option<U>>)
    requires
        outcomes.len() == inbounds.len(),
        forall|i: int|
            0 <= i < inbounds.len() ==> map_step(f, #[trigger] inbounds[i], outcomes[i]),
        forall|i: int| 0 <= i < outcomes.len() - 1 ==> !(#[trigger] outcomes[i]).stop,
    ensures
        results.len() == inbounds.len(),
        forall|i: int|
            0 <= i < inbounds.len() ==> applies::<T, U, E, F>(
                f,
                #[trigger] inbounds[i],
                results[i],
            ),
        stage::follows(
            map_machine::<T, U, E>(),
            Seq::new(inbounds.len() + 1, |i: int| ()),
            stage::beside(inbounds, results),
            outcomes,
        ),
{
    let results = Seq::new(
        inbounds.len(),
        |i: int|
            choose|applied: Option<U>| #[trigger]
                applies::<T, U, E, F>(f, inbounds[i], applied) && ((), outcomes[i])
                    == map_machine::<T, U, E>()((), (inbounds[i], applied)),
    );
    assert forall|i: int| 0 <= i < inbounds.len() implies applies::<T, U, E, F>(
        f,
        #[trigger] inbounds[i],
        results[i],
    ) && ((), outcomes[i]) == map_machine::<T, U, E>()((), (inbounds[i], results[i])) by {
        assert(map_step(f, inbounds[i], outcomes[i]));
    }
    let inputs = stage::beside(inbounds, results);
    assert forall|i: int| #![trigger inputs[i]] 0 <= i < inputs.len() implies ((), outcomes[i])
        == map_machine::<T, U, E>()((), inputs[i]) by {
        assert(inputs[i] == (inbounds[i], results[i]));
    }
    results
}

/// The values `values`, on which the function gave `results`.
pub open spec fn mapping<T, U, E>(values: Seq<T>, results: Seq<U>) -> Seq<
    (Inbound<T, E>, Option<U>),
> {
    stage::beside(stage::incoming(values), results.map_values(|u: U| Some(u)))
}

proof fn lemma_map_prefix<T, U, E>(
    values: Seq<T>,
    results: Seq<U>,
    rest: Seq<(Inbound<T, E>, Option<U>)>,
)
    requires
        results.len() == values.len(),
    ensures
        stage::run(map_machine::<T, U, E>(), (), mapping(values, results) + rest) == signal::nexts::<
            U,
            E,
        >(results) + stage::run(map_machine::<T, U, E>(), (), rest),
    decreases values.len(),
{
    let machine = map_machine::<T, U, E>();
    let all = mapping::<T, U, E>(values, results) + rest;
    let after = stage::run(machine, (), rest);
    if values.len() == 0 {
        assert(all =~= rest);
        assert(signal::nexts::<U, E>(results) + after =~= after);
    } else {
        lemma_map_prefix(values.drop_first(), results.drop_first(), rest);
        assert(all.drop_first() =~= mapping(values.drop_first(), results.drop_first()) + rest);
        assert(all[0] == (Inbound::Signal(Some(Ok::<T, E>(values[0]))), Some(results[0])));
        assert(stage::run(machine, (), all) =~= signal::nexts::<U, E>(results) + after);
    }
}

/// `map` emits what the function gave on each value of the source, in order,
/// and then whatever ends the source: an `OnError` or `OnCompleted` unchanged,
/// nothing where the source is lagging or lost.
pub proof fn law_map_transforms<T, U, E, F: Fn(T) -> Option<U>>(
    f: F,
    values: Seq<T>,
    results: Seq<U>,
    end: (Inbound<T, E>, Option<U>),
    rest: Seq<(Inbound<T, E>, Option<U>)>,
)
    requires
        results.len() == values.len(),
        forall|i: int|
            0 <= i < values.len() ==> call_ensures(f, (#[trigger] values[i],), Some(results[i])),
        !stage::is_next(end.0),
    ensures
        stage::run(map_machine::<T, U, E>(), (), mapping(values, results).push(end) + rest)
            == signal::nexts::<U, E>(results) + (match end.0 {
            Inbound::Signal(Some(Err(e))) => seq![Some(Err::<U, E>(e))],
            Inbound::Signal(None) => seq![None::<Result<U, E>>],
            _ => Seq::empty(),
        }),
{
    let tail = seq![end] + rest;
    assert(mapping(values, results).push(end) + rest =~= mapping(values, results) + tail);
    lemma_map_prefix(values, results, tail);
    assert(stage::run(map_machine::<T, U, E>(), (), tail) == stage::relayed::<T, U, E>(end.0).emit);
}

/// A value on which the function fails ends the stage: what was mapped before
/// it was emitted, nothing after it is, and there is no terminal signal.
pub proof fn law_map_stops_at_failure<T, U, E, F: Fn(T) -> Option<U>>(
    f: F,
    values: Seq<T>,
    results: Seq<U>,
    bad: T,
    rest: Seq<(Inbound<T, E>, Option<U>)>,
)
    requires
        results.len() == values.len(),
        forall|i: int|
            0 <= i < values.len() ==> call_ensures(f, (#[trigger] values[i],), Some(results[i])),
        call_ensures(f, (bad,), None),
    ensures
        stage::run(
            map_machine::<T, U, E>(),
            (),
            mapping(values, results).push((Inbound::Signal(Some(Ok(bad))), None)) + rest,
        ) == signal::nexts::<U, E>(results),
{
    let failure = (Inbound::Signal(Some(Ok::<T, E>(bad))), None::<U>);
    let tail = seq![failure] + rest;
    assert(mapping(values, results).push(failure) + rest =~= mapping(values, results) + tail);
    lemma_map_prefix(values, results, tail);
    let emitted = signal::nexts::<U, E>(results);
    assert(stage::run(map_machine::<T, U, E>(), (), tail) =~= Seq::empty());
    assert(emitted + Seq::empty() =~= emitted);
}

/// On its output, a map stage that was stepped on `values` and then on `last`
/// leaves what the function gave on each of the values, in order, and what the
/// last step passed on.
pub proof fn law_map_output<T, U: Clone, E: Clone, F: Fn(T) -> Option<U>>(
    f: F,
    values: Seq<T>,
    last: Inbound<T, E>,
    outcomes: Seq<Outcome<ChannelSignal<U, E>>>,
    outs: Seq<Subject<U, E>>,
) -> (results: Seq<U>)
    requires
        outcomes.len() == values.len() + 1,
        forall|i: int|
            0 <= i < outcomes.len() ==> map_step(
                f,
                #[trigger] stage::incoming(values).push(last)[i],
                outcomes[i],
            ),
        forall|i: int| 0 <= i < outcomes.len() - 1 ==> !(#[trigger] outcomes[i]).stop,
        operators::forwards(outs, outcomes),
        outs[0].sent().len() == 0,
    ensures
        results.len() == values.len(),
        forall|i: int|
            0 <= i < values.len() ==> call_ensures(f, (#[trigger] values[i],), Some(results[i])),
        outs.last().sent() == signal::nexts::<U, E>(results) + outcomes.last().emit,
        match last {
            Inbound::Signal(Some(Ok(_))) => true,
            Inbound::Signal(Some(Err(e))) => outcomes.last().emit == seq![Some(Err::<U, E>(e))],
            Inbound::Signal(None) => outcomes.last().emit == seq![None::<Result<U, E>>],
            _ => outcomes.last().emit.len() == 0,
        },
{
    let machine = map_machine::<T, U, E>();
    let inbounds = stage::incoming::<T, E>(values).push(last);
    let applied = law_map_steps_follow_machine(f, inbounds, outcomes);
    let inputs = stage::beside(inbounds, applied);
    let states = Seq::new(inbounds.len() + 1, |i: int| ());
    let results = Seq::new(values.len(), |i: int| applied[i]->0);
    assert forall|i: int| 0 <= i < values.len() implies call_ensures(
        f,
        (#[trigger] values[i],),
        Some(results[i]),
    ) && applied[i] == Some(results[i]) by {
        assert(inbounds[i] == Inbound::Signal(Some(Ok::<T, E>(values[i]))));
        assert(inputs[i] == (inbounds[i], applied[i]));
        assert(!outcomes[i].stop);
    }
    law_map_keeps_grammar(inputs);
    operators::law_steps_leave_carried(machine, states, inputs, outcomes, outs);
    let tail = seq![inputs.last()];
    assert(inputs =~= mapping(values, results) + tail);
    lemma_map_prefix(values, results, tail);
    assert(inputs[values.len() as int] == inputs.last());
    assert(stage::run(machine, (), tail) =~= outcomes.last().emit) by {
        reveal_with_fuel(stage::run, 2);
    }
    results
}

/// Whatever a map stage is fed, what it emits obeys the notification grammar.
pub proof fn law_map_keeps_grammar<T, U, E>(inputs: Seq<(Inbound<T, E>, Option<U>)>)
    ensures
        stage::orderly(map_machine::<T, U, E>()),
        signal::well_ordered(stage::run(map_machine::<T, U, E>(), (), inputs)),
{
    stage::lemma_orderly_run(map_machine::<T, U, E>(), (), inputs);
}

/// One step of a stage that maps by `f`: for a value what `f` gave on it is
/// passed on and the stage goes on, or `f` failed on it and the stage stops
/// silently; an end of the source is passed on as it is; anything else stops
/// the stage silently.
pub proof fn law_map_step<T, U, E, F: Fn(T) -> Option<U>>(
    f: F,
    inbound: Inbound<T, E>,
    outcome: Outcome<ChannelSignal<U, E>>,
)
    requires
        map_step(f, inbound, outcome),
    ensures
        match inbound {
            Inbound::Signal(Some(Ok(t))) => if outcome.stop {
                outcome.emit.len() == 0 && call_ensures(f, (t,), None)
            } else {
                outcome.emit.len() == 1 && (outcome.emit[0] matches Some(Ok(u)) && call_ensures(
                    f,
                    (t,),
                    Some(u),
                ))
            },
            Inbound::Signal(Some(Err(e))) => outcome.emit == seq![Some(Err::<U, E>(e))]
                && outcome.stop,
            Inbound::Signal(None) => outcome.emit == seq![None::<Result<U, E>>] && outcome.stop,
            _ => outcome.emit.len() == 0 && outcome.stop,
        },
{
}

/// Whether `f` may have turned what `signal` carries into what `output`
/// carries, an end being carried over as it is.
pub open spec fn turns<T, U, E, F: Fn(T) -> Option<U>>(
    f: F,
    signal: ChannelSignal<T, E>,
    output: ChannelSignal<U, E>,
) -> bool {
    match signal {
        Some(Ok(t)) => output matches Some(Ok(u)) && call_ensures(f, (t,), Some(u)),
        Some(Err(e)) => output == Some(Err::<U, E>(e)),
        None => output is None,
    }
}

/// A value turns into a value that `f` may give on it, and an end into itself.
pub proof fn law_map_turns_values_only<T, U, E, F: Fn(T) -> Option<U>>(
    f: F,
    value: T,
    error: E,
    output: ChannelSignal<U, E>,
)
    ensures
        turns(f, Some(Ok::<T, E>(value)), output) <==> (output matches Some(Ok(u)) && call_ensures(
            f,
            (value,),
            Some(u),
        )),
        turns(f, Some(Err::<T, E>(error)), output) <==> output == Some(Err::<U, E>(error)),
        turns(f, None::<Result<T, E>>, output) <==> output == None::<Result<U, E>>,
{
}

proof fn lemma_map_passes<T, U: Clone, E: Clone, F: Fn(T) -> Option<U>>(
    f: F,
    signals: Seq<ChannelSignal<T, E>>,
    outcomes: Seq<Outcome<ChannelSignal<U, E>>>,
    outs: Seq<Subject<U, E>>,
    i: int,
)
    requires
        outs[0].sent().len() == 0,
        0 <= i < outcomes.len() <= signals.len(),
        forall|j: int|
            0 <= j < outcomes.len() ==> map_step(
                f,
                Inbound::Signal(#[trigger] signals[j]),
                outcomes[j],
            ),
        operators::forwards(outs, outcomes),
        forall|j: int| 0 <= j < outcomes.len() - 1 ==> !(#[trigger] outcomes[j]).stop,
    ensures
        outs[i].sent().len() == i,
        forall|j: int|
            0 <= j < i ==> (signals[j] matches Some(Ok(_))) && turns(
                f,
                signals[j],
                #[trigger] outs[i].sent()[j],
            ),
    decreases i,
{
    if i > 0 {
        let k = i - 1;
        lemma_map_passes(f, signals, outcomes, outs, k);
        assert(map_step(f, Inbound::Signal(signals[k]), outcomes[k]));
        law_map_step(f, Inbound::Signal(signals[k]), outcomes[k]);
        assert(!outcomes[k].stop);
        let before = outs[k].sent();
        assert(outs[k + 1].sent() == operators::absorbed(before, outcomes[k].emit));
        assert(outcomes[k].emit =~= seq![outcomes[k].emit[0]]);
        assert(!signal::ended(before)) by {
            if k > 0 {
                assert(before.last() == outs[k].sent()[k - 1]);
            }
        }
        operators::lemma_absorbed_step(before, outcomes[k].emit[0], None);
        assert forall|j: int| 0 <= j < i implies (signals[j] matches Some(Ok(_))) && turns(
            f,
            signals[j],
            #[trigger] outs[i].sent()[j],
        ) by {
            if j < k {
                assert(outs[i].sent()[j] == outs[k].sent()[j]);
            }
        }
    }
}

/// From the call of `map` to its output. What a map on a live source leaves on
/// its output, once the source has sent `signals` after the call and the stage
/// was stepped on them until it stopped, is one signal for each: for a value
/// what `f` gave on it, and the end of the source unchanged. It is less only
/// where `f` failed on a value, which nothing follows.
pub proof fn law_map_from_call_to_output<T: Clone, U: Clone, E: Clone, F: Fn(T) -> Option<U>>(
    source: Subject<T, E>,
    capacity: usize,
    f: F,
    piped: Piped<T, U, E, MapStage<F>>,
    later: Subject<T, E>,
    signals: Seq<ChannelSignal<T, E>>,
    outcomes: Seq<Outcome<ChannelSignal<U, E>>>,
    outs: Seq<Subject<U, E>>,
)
    requires
        source.terminal() is None,
        maps(source, capacity, f, piped),
        later.wf(),
        later.sent() == source.sent() + signals,
        outcomes.len() <= signals.len(),
        forall|i: int|
            0 <= i < outcomes.len() ==> map_step(
                piped.stage.function(),
                Inbound::Signal(#[trigger] signals[i]),
                outcomes[i],
            ),
        forall|i: int| 0 <= i < outcomes.len() - 1 ==> !(#[trigger] outcomes[i]).stop,
        outcomes.len() == signals.len() || (outcomes.len() > 0 && outcomes.last().stop),
        operators::forwards(outs, outcomes),
        outs[0] == piped.out,
    ensures
        piped.start matches Start::Live(tap) && tap.origin() == source.handle() && tap.missed()
            == source.sent(),
        outs.last().sent().len() <= signals.len(),
        forall|i: int|
            0 <= i < outs.last().sent().len() ==> turns(
                f,
                signals[i],
                #[trigger] outs.last().sent()[i],
            ),
        outs.last().sent().len() < signals.len() ==> (
        signals[outs.last().sent().len() as int] matches Some(Ok(t)) && call_ensures(
            f,
            (t,),
            None,
        )),
{
    operators::lemma_sent_since(source, later, signals);
    if outcomes.len() > 0 {
        let m = outcomes.len() - 1;
        lemma_map_passes(f, signals, outcomes, outs, m);
        assert(map_step(f, Inbound::Signal(signals[m]), outcomes[m]));
        law_map_step(f, Inbound::Signal(signals[m]), outcomes[m]);
        let before = outs[m].sent();
        let emit = outcomes[m].emit;
        assert(outs[m + 1].sent() == operators::absorbed(before, emit));
        assert(!signal::ended(before)) by {
            if m > 0 {
                assert(before.last() == outs[m].sent()[m - 1]);
            }
        }
        operators::lemma_absorbed_step(before, emit[0], None);
        if emit.len() == 0 {
            assert(emit =~= Seq::empty());
        } else {
            assert(emit =~= seq![emit[0]]);
        }
        assert forall|i: int| 0 <= i < outs.last().sent().len() implies turns(
            f,
            signals[i],
            #[trigger] outs.last().sent()[i],
        ) by {
            if i < m {
                assert(outs.last().sent()[i] == outs[m].sent()[i]);
            }
        }
    }
}

} // verus!
