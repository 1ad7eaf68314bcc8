use vstd::prelude::*;

use crate::operators;
use crate::operators::judge;
use crate::operators::judge::{Asked, Judge};
use crate::operators::{Piped, Start};
use crate::signal;
use crate::signal::ChannelSignal;
use crate::stage;
use crate::stage::{Inbound, Outcome, Step};
use crate::subject::Subject;

verus! {

/// The stage of [`Subject::take_while`].
pub struct TakeWhileStage<F> {
    predicate: F,
}

/// What the stage passes on for a value on which the predicate gave
/// `verdict`: the value, or, in its place, an end. A predicate that gave no
/// verdict stops the stage.
pub open spec fn taken_while<T, E>(value: T, verdict: Option<bool>) -> Outcome<
    ChannelSignal<T, E>,
> {
    match verdict {
        Some(true) => Outcome::pass(Some(Ok(value))),
        Some(false) => Outcome::close(None),
        None => Outcome::halt(),
    }
}

/// One step of a stage that goes by `predicate`.
pub open spec fn take_while_step<T, E, F: Fn(&T) -> Option<bool>>(
    predicate: F,
    inbound: Inbound<T, E>,
    outcome: Outcome<ChannelSignal<T, E>>,
) -> bool {
    exists|verdict: Option<bool>| #[trigger]
        operators::judges::<T, E, F>(predicate, inbound, verdict) && ((), outcome)
            == take_while_machine::<T, E>()((), (inbound, verdict))
}

/// What a stage that takes values while `judge` holds does about one arrival.
/// The predicate is asked once about a value, and about nothing else.
pub fn take_while_by<T, E, J: Judge<T>>(judge: &mut J, inbound: Inbound<T, E>) -> (step: Step<
    ChannelSignal<T, E>,
>)
    requires
        inbound matches Inbound::Signal(Some(Ok(t))) ==> old(judge).ready(t),
    ensures
        ((), step@) == take_while_machine::<T, E>()((), (inbound, final(judge).asked().last().1)),
        inbound matches Inbound::Signal(Some(Ok(t))) ==> old(judge).gives(
            t,
            final(judge).asked().last().1,
        ),
        judge::asked_once(
            old(judge).asked(),
            match inbound {
                Inbound::Signal(Some(Ok(t))) => Some(t),
                _ => None,
            },
            final(judge).asked().last().1,
            final(judge).asked(),
        ),
        match inbound {
            Inbound::Signal(Some(Ok(t))) => final(judge).asked() == old(judge).asked().push(
                (t, final(judge).asked().last().1),
            ) && match final(judge).asked().last().1 {
                Some(true) => step.emit@ == seq![Some(Ok::<T, E>(t))] && !step.stop,
                Some(false) => step.emit@ == seq![None::<Result<T, E>>] && step.stop,
                None => step.emit@.len() == 0 && step.stop,
            },
            Inbound::Signal(Some(Err(e))) => final(judge).asked() == old(judge).asked()
                && step.emit@ == seq![Some(Err::<T, E>(e))] && step.stop,
            Inbound::Signal(None) => final(judge).asked() == old(judge).asked() && step.emit@
                == seq![None::<Result<T, E>>] && step.stop,
            _ => final(judge).asked() == old(judge).asked() && step.emit@.len() == 0 && step.stop,
        },
{
    match inbound {
        Inbound::Signal(Some(Ok(t))) => {
            match judge.judge(&t) {
                Some(true) => Step::pass(Some(Ok(t))),
                Some(false) => Step::close(None),
                // The predicate failed; there is nothing to pass on.
                None => Step::halt(),
            }
        },
        Inbound::Signal(Some(Err(e))) => Step::close(Some(Err(e))),
        Inbound::Signal(None) => Step::close(None),
        _ => Step::halt(),
    }
}

impl<F> TakeWhileStage<F> {
    /// The predicate that holds for the values taken.
    pub closed spec fn function(self) -> F {
        self.predicate
    }

    /// A stage that goes by `predicate`.
    pub fn new(predicate: F) -> (stage: Self)
        ensures
            stage.function() == predicate,
    {
        TakeWhileStage { predicate }
    }

    /// Handles one arrival.
    pub fn on_inbound<T, E>(&self, inbound: Inbound<T, E>) -> (step: Step<ChannelSignal<T, E>>)
        where F: Fn(&T) -> Option<bool>
        requires
            inbound matches Inbound::Signal(Some(Ok(t))) ==> call_requires(self.function(), (&t,)),
        ensures
            take_while_step(self.function(), inbound, step@),
            inbound matches Inbound::Signal(Some(Ok(t))) ==> exists|asked: Asked<F, T>| #[trigger]
                asked.record() == seq![(t, asked.record()[0].1)] && ((), step@)
                    == take_while_machine::<T, E>()((), (inbound, asked.record()[0].1)),
            match inbound {
                Inbound::Signal(Some(Ok(t))) => if step.stop {
                    ||| step.emit@ == seq![None::<Result<T, E>>] && call_ensures(
                        self.function(),
                        (&t,),
                        Some(false),
                    )
                    ||| step.emit@.len() == 0 && call_ensures(self.function(), (&t,), None)
                } else {
                    step.emit@ == seq![Some(Ok::<T, E>(t))] && call_ensures(
                        self.function(),
                        (&t,),
                        Some(true),
                    )
                },
                Inbound::Signal(Some(Err(e))) => step.emit@ == seq![Some(Err::<T, E>(e))]
                    && step.stop,
                Inbound::Signal(None) => step.emit@ == seq![None::<Result<T, E>>] && step.stop,
                _ => step.emit@.len() == 0 && step.stop,
            },
    {
        let mut asked = Asked::of(&self.predicate);
        let step = take_while_by(&mut asked, inbound);
        assert(match inbound {
            Inbound::Signal(Some(Ok(_))) => operators::judges::<T, E, F>(
                self.predicate,
                inbound,
                asked.record().last().1,
            ),
            _ => operators::judges::<T, E, F>(self.predicate, inbound, None),
        });
        assert(inbound matches Inbound::Signal(Some(Ok(t))) ==> asked.record() =~= seq![
            (t, asked.record()[0].1),
        ]);
        step
    }
}

/// A stage that takes values of `source` while `predicate` holds, about to run.
pub open spec fn takes_while<T: Clone, E: Clone, F>(
    source: Subject<T, E>,
    capacity: usize,
    predicate: F,
    piped: Piped<T, T, E, TakeWhileStage<F>>,
) -> bool {
    &&& operators::fresh(piped.out, capacity)
    &&& operators::starts(source, piped.start)
    &&& piped.stage.function() == predicate
}

impl<T: Clone, E: Clone> Subject<T, E> {
    /// Forwards `OnNext` values while `predicate` holds; on the first value
    /// that fails it, synthesizes `OnCompleted` (without forwarding that
    /// value) and stops. `OnError`/`OnCompleted` from the source pass
    /// through unchanged. A `predicate` that returns `None` has failed, and
    /// stops the stage.
    #[must_use]
    pub fn take_while<F>(&self, capacity: usize, predicate: F) -> (piped: Piped<
        T,
        T,
        E,
        TakeWhileStage<F>,
    >) where F: Fn(&T) -> Option<bool>
        requires
            0 < capacity <= usize::MAX / 2,
        ensures
            takes_while(*self, capacity, predicate, piped),
            operators::fresh(piped.out, capacity),
            operators::starts(*self, piped.start),
            piped.stage.function() == predicate,
    {
        Piped::new(capacity, self.begin(), TakeWhileStage::new(predicate))
    }
}

/// A take-while stage, fed each arrival beside the predicate's verdict on it.
pub open spec fn take_while_machine<T, E>() -> spec_fn((), (Inbound<T, E>, Option<bool>)) -> (
    (),
    Outcome<ChannelSignal<T, E>>,
) {
    |state: (), input: (Inbound<T, E>, Option<bool>)|
        (
            (),
            match input.0 {
                Inbound::Signal(Some(Ok(t))) => taken_while(t, input.1),
                _ => stage::relayed(input.0),
            },
        )
}

/// The steps of a take-while stage are those of its machine, for the predicate's
/// verdict on each arrival.
pub proof fn law_take_while_steps_follow_machine<T, E, F: Fn(&T) -> Option<bool>>(
    predicate: F,
    inbounds: Seq<Inbound<T, E>>,
    outcomes: Seq<Outcome<ChannelSignal<T, E>>>,
) -> (verdicts: Seq<Option<bool>>)
    requires
        outcomes.len() == inbounds.len(),
        forall|i: int|
            0 <= i < inbounds.len() ==> take_while_step(predicate, #[trigger] inbounds[i], outcomes[i]),
        forall|i: int| 0 <= i < outcomes.len() - 1 ==> !(#[trigger] outcomes[i]).stop,
    ensures
        verdicts.len() == inbounds.len(),
        forall|i: int|
            0 <= i < inbounds.len() ==> operators::judges::<T, E, F>(
                predicate,
                #[trigger] inbounds[i],
                verdicts[i],
            ),
        stage::follows(
            take_while_machine::<T, E>(),
            Seq::new(inbounds.len() + 1, |i: int| ()),
            stage::beside(inbounds, verdicts),
            outcomes,
        ),
{
    let verdicts = Seq::new(
        inbounds.len(),
        |i: int|
            choose|verdict: Option<bool>| #[trigger]
                operators::judges::<T, E, F>(predicate, inbounds[i], verdict) && ((), outcomes[i])
                    == take_while_machine::<T, E>()((), (inbounds[i], verdict)),
    );
    assert forall|i: int| 0 <= i < inbounds.len() implies operators::judges::<T, E, F>(
        predicate,
        #[trigger] inbounds[i],
        verdicts[i],
    ) && ((), outcomes[i]) == take_while_machine::<T, E>()((), (inbounds[i], verdicts[i])) by {
        assert(take_while_step(predicate, inbounds[i], outcomes[i]));
    }
    let inputs = stage::beside(inbounds, verdicts);
    assert forall|i: int| #![trigger inputs[i]] 0 <= i < inputs.len() implies ((), outcomes[i])
        == take_while_machine::<T, E>()((), inputs[i]) by {
        assert(inputs[i] == (inbounds[i], verdicts[i]));
    }
    verdicts
}

/// The values `values`, on each of which the predicate holds.
pub open spec fn holding<T, E>(values: Seq<T>) -> Seq<(Inbound<T, E>, Option<bool>)> {
    operators::judged(values, values.map_values(|t: T| true))
}

proof fn lemma_take_while_prefix<T, E>(
    values: Seq<T>,
    rest: Seq<(Inbound<T, E>, Option<bool>)>,
)
    ensures
        stage::run(take_while_machine::<T, E>(), (), holding(values) + rest) == signal::nexts::<
            T,
            E,
        >(values) + stage::run(take_while_machine::<T, E>(), (), rest),
    decreases values.len(),
{
    let machine = take_while_machine::<T, E>();
    let all = holding::<T, E>(values) + rest;
    let after = stage::run(machine, (), rest);
    if values.len() == 0 {
        assert(all =~= rest);
        assert(signal::nexts::<T, E>(values) + after =~= after);
    } else {
        let tail = values.drop_first();
        lemma_take_while_prefix(tail, rest);
        assert(all.drop_first() =~= holding(tail) + rest);
        assert(all[0] == (Inbound::Signal(Some(Ok::<T, E>(values[0]))), Some(true)));
        assert(stage::run(machine, (), all) =~= signal::nexts::<T, E>(values) + after);
    }
}

/// While the predicate holds `take_while` emits the values of the source as
/// they are, and then whatever ends the source: an `OnError` or `OnCompleted`
/// unchanged, nothing where the source is lagging or lost.
pub proof fn law_take_while_passes<T, E, F: Fn(&T) -> Option<bool>>(
    predicate: F,
    values: Seq<T>,
    end: (Inbound<T, E>, Option<bool>),
    rest: Seq<(Inbound<T, E>, Option<bool>)>,
)
    requires
        forall|i: int|
            0 <= i < values.len() ==> call_ensures(
                predicate,
                (&#[trigger] values[i],),
                Some(true),
            ),
        !stage::is_next(end.0),
    ensures
        stage::run(take_while_machine::<T, E>(), (), holding(values).push(end) + rest)
            == signal::nexts::<T, E>(values) + (match end.0 {
            Inbound::Signal(Some(Err(e))) => seq![Some(Err::<T, E>(e))],
            Inbound::Signal(None) => seq![None::<Result<T, E>>],
            _ => Seq::empty(),
        }),
{
    let tail = seq![end] + rest;
    assert(holding(values).push(end) + rest =~= holding(values) + tail);
    lemma_take_while_prefix(values, tail);
    assert(stage::run(take_while_machine::<T, E>(), (), tail) == stage::relayed::<T, T, E>(
        end.0,
    ).emit);
}

/// At the first value that fails the predicate `take_while` completes, without
/// emitting that value, whatever the source does afterwards.
pub proof fn law_take_while_completes<T, E, F: Fn(&T) -> Option<bool>>(
    predicate: F,
    values: Seq<T>,
    failing: T,
    rest: Seq<(Inbound<T, E>, Option<bool>)>,
)
    requires
        forall|i: int|
            0 <= i < values.len() ==> call_ensures(
                predicate,
                (&#[trigger] values[i],),
                Some(true),
            ),
        call_ensures(predicate, (&failing,), Some(false)),
    ensures
        stage::run(
            take_while_machine::<T, E>(),
            (),
            holding(values).push((Inbound::Signal(Some(Ok(failing))), Some(false))) + rest,
        ) == signal::nexts::<T, E>(values).push(None),
{
    let last = (Inbound::Signal(Some(Ok::<T, E>(failing))), Some(false));
    let tail = seq![last] + rest;
    assert(holding(values).push(last) + rest =~= holding(values) + tail);
    lemma_take_while_prefix(values, tail);
    assert(stage::run(take_while_machine::<T, E>(), (), tail) == seq![None::<Result<T, E>>]);
}

/// A value on which the predicate fails to give a verdict ends the stage: what
/// came before it was emitted, nothing after it is, and there is no terminal
/// signal.
pub proof fn law_take_while_stops_at_failure<T, E, F: Fn(&T) -> Option<bool>>(
    predicate: F,
    values: Seq<T>,
    bad: T,
    rest: Seq<(Inbound<T, E>, Option<bool>)>,
)
    requires
        forall|i: int|
            0 <= i < values.len() ==> call_ensures(
                predicate,
                (&#[trigger] values[i],),
                Some(true),
            ),
        call_ensures(predicate, (&bad,), None),
    ensures
        stage::run(
            take_while_machine::<T, E>(),
            (),
            holding(values).push((Inbound::Signal(Some(Ok(bad))), None)) + rest,
        ) == signal::nexts::<T, E>(values),
{
    let failure = (Inbound::Signal(Some(Ok::<T, E>(bad))), None::<bool>);
    let tail = seq![failure] + rest;
    assert(holding(values).push(failure) + rest =~= holding(values) + tail);
    lemma_take_while_prefix(values, tail);
    let emitted = signal::nexts::<T, E>(values);
    assert(stage::run(take_while_machine::<T, E>(), (), tail) =~= Seq::empty());
    assert(emitted + Seq::empty() =~= emitted);
}

/// On its output, a take-while stage that was stepped on `values` and then on
/// `last` leaves the values, on each of which the predicate held, and what the
/// last step passed on.
pub proof fn law_take_while_output<T: Clone, E: Clone, F: Fn(&T) -> Option<bool>>(
    predicate: F,
    values: Seq<T>,
    last: Inbound<T, E>,
    outcomes: Seq<Outcome<ChannelSignal<T, E>>>,
    outs: Seq<Subject<T, E>>,
)
    requires
        outcomes.len() == values.len() + 1,
        forall|i: int|
            0 <= i < outcomes.len() ==> take_while_step(
                predicate,
                #[trigger] stage::incoming(values).push(last)[i],
                outcomes[i],
            ),
        forall|i: int| 0 <= i < outcomes.len() - 1 ==> !(#[trigger] outcomes[i]).stop,
        operators::forwards(outs, outcomes),
        outs[0].sent().len() == 0,
    ensures
        forall|i: int|
            0 <= i < values.len() ==> call_ensures(
                predicate,
                (&#[trigger] values[i],),
                Some(true),
            ),
        outs.last().sent() == signal::nexts::<T, E>(values) + outcomes.last().emit,
        match last {
            Inbound::Signal(Some(Ok(_))) => true,
            Inbound::Signal(Some(Err(e))) => outcomes.last().emit == seq![Some(Err::<T, E>(e))],
            Inbound::Signal(None) => outcomes.last().emit == seq![None::<Result<T, E>>],
            _ => outcomes.last().emit.len() == 0,
        },
{
    let machine = take_while_machine::<T, E>();
    let inbounds = stage::incoming::<T, E>(values).push(last);
    let given = law_take_while_steps_follow_machine(predicate, inbounds, outcomes);
    let inputs = stage::beside(inbounds, given);
    let states = Seq::new(inbounds.len() + 1, |i: int| ());
    assert forall|i: int| 0 <= i < values.len() implies #[trigger] given[i] == Some(true) by {
        assert(inbounds[i] == Inbound::Signal(Some(Ok::<T, E>(values[i]))));
        assert(inputs[i] == (inbounds[i], given[i]));
        assert(!outcomes[i].stop);
    }
    assert forall|i: int| 0 <= i < values.len() implies call_ensures(
        predicate,
        (&#[trigger] values[i],),
        Some(true),
    ) by {
        assert(given[i] == Some(true));
        assert(inbounds[i] == Inbound::Signal(Some(Ok::<T, E>(values[i]))));
        assert(operators::judges::<T, E, F>(predicate, inbounds[i], given[i]));
    }
    law_take_while_keeps_grammar(inputs);
    operators::law_steps_leave_carried(machine, states, inputs, outcomes, outs);
    let tail = seq![inputs.last()];
    assert(inputs =~= holding(values) + tail);
    lemma_take_while_prefix(values, tail);
    assert(inputs[values.len() as int] == inputs.last());
    assert(stage::run(machine, (), tail) =~= outcomes.last().emit) by {
        reveal_with_fuel(stage::run, 2);
    }
}

/// Whatever a take-while stage is fed, what it emits obeys the notification grammar.
pub proof fn law_take_while_keeps_grammar<T, E>(inputs: Seq<(Inbound<T, E>, Option<bool>)>)
    ensures
        stage::orderly(take_while_machine::<T, E>()),
        signal::well_ordered(stage::run(take_while_machine::<T, E>(), (), inputs)),
{
    stage::lemma_orderly_run(take_while_machine::<T, E>(), (), inputs);
}

/// One step of a stage that takes values while `predicate` holds: a value on
/// which it gave true is passed on and the stage goes on; for one on which it
/// gave false an `OnCompleted` is passed on in its place, and the stage stops;
/// one on which it failed stops the stage silently. An end of the source is
/// passed on as it is; anything else stops the stage silently.
pub proof fn law_take_while_step<T, E, F: Fn(&T) -> Option<bool>>(
    predicate: F,
    inbound: Inbound<T, E>,
    outcome: Outcome<ChannelSignal<T, E>>,
)
    requires
        take_while_step(predicate, inbound, outcome),
    ensures
        match inbound {
            Inbound::Signal(Some(Ok(t))) => if outcome.stop {
                ||| outcome.emit == seq![None::<Result<T, E>>] && call_ensures(
                    predicate,
                    (&t,),
                    Some(false),
                )
                ||| outcome.emit.len() == 0 && call_ensures(predicate, (&t,), None)
            } else {
                outcome.emit == seq![Some(Ok::<T, E>(t))] && call_ensures(
                    predicate,
                    (&t,),
                    Some(true),
                )
            },
            Inbound::Signal(Some(Err(e))) => outcome.emit == seq![Some(Err::<T, E>(e))]
                && outcome.stop,
            Inbound::Signal(None) => outcome.emit == seq![None::<Result<T, E>>] && outcome.stop,
            _ => outcome.emit.len() == 0 && outcome.stop,
        },
{
}

proof fn lemma_take_while_holds<T: Clone, E: Clone, F: Fn(&T) -> Option<bool>>(
    predicate: F,
    signals: Seq<ChannelSignal<T, E>>,
    outcomes: Seq<Outcome<ChannelSignal<T, E>>>,
    outs: Seq<Subject<T, E>>,
    i: int,
)
    requires
        outs[0].sent().len() == 0,
        0 <= i < outcomes.len() <= signals.len(),
        forall|j: int|
            0 <= j < outcomes.len() ==> take_while_step(
                predicate,
                Inbound::Signal(#[trigger] signals[j]),
                outcomes[j],
            ),
        operators::forwards(outs, outcomes),
        forall|j: int| 0 <= j < outcomes.len() - 1 ==> !(#[trigger] outcomes[j]).stop,
    ensures
        outs[i].sent() == signals.take(i),
        forall|j: int|
            0 <= j < i ==> (#[trigger] signals[j] matches Some(Ok(t)) && call_ensures(
                predicate,
                (&t,),
                Some(true),
            )),
    decreases i,
{
    if i > 0 {
        let k = i - 1;
        lemma_take_while_holds(predicate, signals, outcomes, outs, k);
        assert(take_while_step(predicate, Inbound::Signal(signals[k]), outcomes[k]));
        law_take_while_step(predicate, Inbound::Signal(signals[k]), outcomes[k]);
        assert(!outcomes[k].stop);
        assert(outs[k + 1].sent() == operators::absorbed(outs[k].sent(), outcomes[k].emit));
        assert(!signal::ended(signals.take(k))) by {
            if k > 0 {
                assert(signals.take(k).last() == signals[k - 1]);
            }
        }
        operators::lemma_absorbed_step(signals.take(k), signals[k], None);
        assert(signals.take(i) =~= signals.take(k).push(signals[k]));
    } else {
        assert(outs[0].sent() =~= signals.take(0));
    }
}

/// From the call of `take_while` to its output. What a take-while on a live
/// source leaves on its output, once the source has sent `signals` after the
/// call and the stage was stepped on them until it stopped, is the first
/// `passed` of them: all, its end with them, where the predicate held of every
/// value; otherwise those before the first value of which it did not hold, with
/// an `OnCompleted` in that value's place, or nothing where the predicate failed
/// on it.
pub proof fn law_take_while_from_call_to_output<T: Clone, E: Clone, F: Fn(&T) -> Option<bool>>(
    source: Subject<T, E>,
    capacity: usize,
    predicate: F,
    piped: Piped<T, T, E, TakeWhileStage<F>>,
    later: Subject<T, E>,
    signals: Seq<ChannelSignal<T, E>>,
    outcomes: Seq<Outcome<ChannelSignal<T, E>>>,
    outs: Seq<Subject<T, E>>,
) -> (passed: int)
    requires
        source.terminal() is None,
        takes_while(source, capacity, predicate, piped),
        later.wf(),
        later.sent() == source.sent() + signals,
        outcomes.len() <= signals.len(),
        forall|i: int|
            0 <= i < outcomes.len() ==> take_while_step(
                piped.stage.function(),
                Inbound::Signal(#[trigger] signals[i]),
                outcomes[i],
            ),
        forall|i: int| 0 <= i < outcomes.len() - 1 ==> !(#[trigger] outcomes[i]).stop,
        outcomes.len() == signals.len() || (outcomes.len() > 0 && outcomes.last().stop),
        operators::forwards(outs, outcomes),
        outs[0] == piped.out,
    ensures
        piped.start matches Start::Live(tap) && tap.origin() == source.handle() && tap.missed()
            == source.sent(),
        0 <= passed <= signals.len(),
        forall|i: int|
            0 <= i < passed ==> (#[trigger] signals[i] matches Some(Ok(t)) ==> call_ensures(
                predicate,
                (&t,),
                Some(true),
            )),
        passed == signals.len() ==> outs.last().sent() == signals,
        passed < signals.len() ==> (signals[passed] matches Some(Ok(t)) && {
            ||| call_ensures(predicate, (&t,), Some(false)) && outs.last().sent() == signals.take(
                passed,
            ).push(None)
            ||| call_ensures(predicate, (&t,), None) && outs.last().sent() == signals.take(passed)
        }),
{
    operators::lemma_sent_since(source, later, signals);
    if outcomes.len() == 0 {
        assert(outs.last().sent() =~= signals);
        0
    } else {
        let m = outcomes.len() - 1;
        lemma_take_while_holds(predicate, signals, outcomes, outs, m);
        assert(take_while_step(predicate, Inbound::Signal(signals[m]), outcomes[m]));
        law_take_while_step(predicate, Inbound::Signal(signals[m]), outcomes[m]);
        let before = signals.take(m);
        let emit = outcomes[m].emit;
        assert(outs[m + 1].sent() == operators::absorbed(before, emit));
        assert(!signal::ended(before)) by {
            if m > 0 {
                assert(before.last() == signals[m - 1]);
            }
        }
        operators::lemma_absorbed_step(before, emit[0], None);
        if emit.len() == 0 {
            assert(emit =~= Seq::empty());
        } else {
            assert(emit =~= seq![emit[0]]);
        }
        if outcomes[m].stop && (signals[m] matches Some(Ok(_))) {
            m
        } else {
            assert(m + 1 == signals.len());
            assert(before.push(signals[m]) =~= signals);
            m + 1
        }
    }
}

} // verus!
