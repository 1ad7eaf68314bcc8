use vstd::prelude::*;

use crate::operators;
use crate::operators::judge;
use crate::operators::judge::{Asked, Judge};
use crate::operators::{Piped, Start};
use crate::signal;
use crate::signal::ChannelSignal;
use crate::stage;
use crate::stage::{Inbound, Outcome, Step};
use crate::subject::Subject;

verus! {

/// The stage of [`Subject::filter`].
pub struct FilterStage<F> {
    predicate: F,
}

/// What the stage passes on for a value on which the predicate gave
/// `verdict`. A predicate that gave none stops the stage.
pub open spec fn filtered<T, E>(value: T, verdict: Option<bool>) -> Outcome<ChannelSignal<T, E>> {
    match verdict {
        Some(true) => Outcome::pass(Some(Ok(value))),
        Some(false) => Outcome::skip(),
        None => Outcome::halt(),
    }
}

/// One step of a stage that goes by `predicate`.
pub open spec fn filter_step<T, E, F: Fn(&T) -> Option<bool>>(
    predicate: F,
    inbound: Inbound<T, E>,
    outcome: Outcome<ChannelSignal<T, E>>,
) -> bool {
    exists|verdict: Option<bool>| #[trigger]
        operators::judges::<T, E, F>(predicate, inbound, verdict) && ((), outcome)
            == filter_machine::<T, E>()((), (inbound, verdict))
}

/// What a stage that selects by `judge` does about one arrival. The predicate is
/// asked once about a value, and about nothing else.
pub fn filter_by<T, E, J: Judge<T>>(judge: &mut J, inbound: Inbound<T, E>) -> (step: Step<
    ChannelSignal<T, E>,
>)
    requires
        inbound matches Inbound::Signal(Some(Ok(t))) ==> old(judge).ready(t),
    ensures
        ((), step@) == filter_machine::<T, E>()((), (inbound, final(judge).asked().last().1)),
        inbound matches Inbound::Signal(Some(Ok(t))) ==> old(judge).gives(
            t,
            final(judge).asked().last().1,
        ),
        judge::asked_once(
            old(judge).asked(),
            match inbound {
                Inbound::Signal(Some(Ok(t))) => Some(t),
                _ => None,
            },
            final(judge).asked().last().1,
            final(judge).asked(),
        ),
        match inbound {
            Inbound::Signal(Some(Ok(t))) => final(judge).asked() == old(judge).asked().push(
                (t, final(judge).asked().last().1),
            ) && match final(judge).asked().last().1 {
                Some(true) => step.emit@ == seq![Some(Ok::<T, E>(t))] && !step.stop,
                Some(false) => step.emit@.len() == 0 && !step.stop,
                None => step.emit@.len() == 0 && step.stop,
            },
            Inbound::Signal(Some(Err(e))) => final(judge).asked() == old(judge).asked()
                && step.emit@ == seq![Some(Err::<T, E>(e))] && step.stop,
            Inbound::Signal(None) => final(judge).asked() == old(judge).asked() && step.emit@
                == seq![None::<Result<T, E>>] && step.stop,
            _ => final(judge).asked() == old(judge).asked() && step.emit@.len() == 0 && step.stop,
        },
{
    match inbound {
        Inbound::Signal(Some(Ok(t))) => {
            match judge.judge(&t) {
                Some(true) => Step::pass(Some(Ok(t))),
                // Filtered out, do not forward.
                Some(false) => Step::skip(),
                // The predicate failed; there is nothing to pass on.
                None => Step::halt(),
            }
        },
        Inbound::Signal(Some(Err(e))) => Step::close(Some(Err(e))),
        Inbound::Signal(None) => Step::close(None),
        _ => Step::halt(),
    }
}

impl<F> FilterStage<F> {
    /// The predicate that selects the values.
    pub closed spec fn function(self) -> F {
        self.predicate
    }

    /// A stage that goes by `predicate`.
    pub fn new(predicate: F) -> (stage: Self)
        ensures
            stage.function() == predicate,
    {
        FilterStage { predicate }
    }

    /// Handles one arrival.
    pub fn on_inbound<T, E>(&self, inbound: Inbound<T, E>) -> (step: Step<ChannelSignal<T, E>>)
        where F: Fn(&T) -> Option<bool>
        requires
            inbound matches Inbound::Signal(Some(Ok(t))) ==> call_requires(self.function(), (&t,)),
        ensures
            filter_step(self.function(), inbound, step@),
            inbound matches Inbound::Signal(Some(Ok(t))) ==> exists|asked: Asked<F, T>| #[trigger]
                asked.record() == seq![(t, asked.record()[0].1)] && ((), step@)
                    == filter_machine::<T, E>()((), (inbound, asked.record()[0].1)),
            match inbound {
                Inbound::Signal(Some(Ok(t))) => if step.stop {
                    step.emit@.len() == 0 && call_ensures(self.function(), (&t,), None)
                } else {
                    ||| step.emit@ == seq![Some(Ok::<T, E>(t))] && call_ensures(
                        self.function(),
                        (&t,),
                        Some(true),
                    )
                    ||| step.emit@.len() == 0 && call_ensures(self.function(), (&t,), Some(false))
                },
                Inbound::Signal(Some(Err(e))) => step.emit@ == seq![Some(Err::<T, E>(e))]
                    && step.stop,
                Inbound::Signal(None) => step.emit@ == seq![None::<Result<T, E>>] && step.stop,
                _ => step.emit@.len() == 0 && step.stop,
            },
    {
        let mut asked = Asked::of(&self.predicate);
        let step = filter_by(&mut asked, inbound);
        assert(match inbound {
            Inbound::Signal(Some(Ok(_))) => operators::judges::<T, E, F>(
                self.predicate,
                inbound,
                asked.record().last().1,
            ),
            _ => operators::judges::<T, E, F>(self.predicate, inbound, None),
        });
        assert(inbound matches Inbound::Signal(Some(Ok(t))) ==> asked.record() =~= seq![
            (t, asked.record()[0].1),
        ]);
        step
    }
}

/// A stage that selects values of `source` by `predicate`, about to run.
pub open spec fn filters<T: Clone, E: Clone, F>(
    source: Subject<T, E>,
    capacity: usize,
    predicate: F,
    piped: Piped<T, T, E, FilterStage<F>>,
) -> bool {
    &&& operators::fresh(piped.out, capacity)
    &&& operators::starts(source, piped.start)
    &&& piped.stage.function() == predicate
}

impl<T: Clone, E: Clone> Subject<T, E> {
    /// Keeps only `OnNext` values matching `predicate`. `OnError`/`OnCompleted`
    /// pass through unchanged. `capacity` sizes the output subject's channel. A
    /// `predicate` that returns `None` has failed, and stops the stage.
    #[must_use]
    pub fn filter<F>(&self, capacity: usize, predicate: F) -> (piped: Piped<
        T,
        T,
        E,
        FilterStage<F>,
    >) where F: Fn(&T) -> Option<bool>
        requires
            0 < capacity <= usize::MAX / 2,
        ensures
            filters(*self, capacity, predicate, piped),
            operators::fresh(piped.out, capacity),
            operators::starts(*self, piped.start),
            piped.stage.function() == predicate,
    {
        Piped::new(capacity, self.begin(), FilterStage::new(predicate))
    }
}

/// A filter stage, fed each arrival beside the predicate's verdict on it.
pub open spec fn filter_machine<T, E>() -> spec_fn((), (Inbound<T, E>, Option<bool>)) -> (
    (),
    Outcome<ChannelSignal<T, E>>,
) {
    |state: (), input: (Inbound<T, E>, Option<bool>)|
        (
            (),
            match input.0 {
                Inbound::Signal(Some(Ok(t))) => filtered(t, input.1),
                _ => stage::relayed(input.0),
            },
        )
}

/// The steps of a filter stage are those of its machine, for the predicate's
/// verdict on each arrival.
pub proof fn law_filter_steps_follow_machine<T, E, F: Fn(&T) -> Option<bool>>(
    predicate: F,
    inbounds: Seq<Inbound<T, E>>,
    outcomes: Seq<Outcome<ChannelSignal<T, E>>>,
) -> (verdicts: Seq<Option<bool>>)
    requires
        outcomes.len() == inbounds.len(),
        forall|i: int|
            0 <= i < inbounds.len() ==> filter_step(predicate, #[trigger] inbounds[i], outcomes[i]),
        forall|i: int| 0 <= i < outcomes.len() - 1 ==> !(#[trigger] outcomes[i]).stop,
    ensures
        verdicts.len() == inbounds.len(),
        forall|i: int|
            0 <= i < inbounds.len() ==> operators::judges::<T, E, F>(
                predicate,
                #[trigger] inbounds[i],
                verdicts[i],
            ),
        stage::follows(
            filter_machine::<T, E>(),
            Seq::new(inbounds.len() + 1, |i: int| ()),
            stage::beside(inbounds, verdicts),
            outcomes,
        ),
{
    let verdicts = Seq::new(
        inbounds.len(),
        |i: int|
            choose|verdict: Option<bool>| #[trigger]
                operators::judges::<T, E, F>(predicate, inbounds[i], verdict) && ((), outcomes[i])
                    == filter_machine::<T, E>()((), (inbounds[i], verdict)),
    );
    assert forall|i: int| 0 <= i < inbounds.len() implies operators::judges::<T, E, F>(
        predicate,
        #[trigger] inbounds[i],
        verdicts[i],
    ) && ((), outcomes[i]) == filter_machine::<T, E>()((), (inbounds[i], verdicts[i])) by {
        assert(filter_step(predicate, inbounds[i], outcomes[i]));
    }
    let inputs = stage::beside(inbounds, verdicts);
    assert forall|i: int| #![trigger inputs[i]] 0 <= i < inputs.len() implies ((), outcomes[i])
        == filter_machine::<T, E>()((), inputs[i]) by {
        assert(inputs[i] == (inbounds[i], verdicts[i]));
    }
    verdicts
}

/// The values of `values` whose verdict is true, in order.
pub open spec fn selected<T>(values: Seq<T>, verdicts: Seq<bool>) -> Seq<T>
    decreases values.len(),
{
    if values.len() == 0 {
        Seq::empty()
    } else {
        let rest = selected(values.drop_first(), verdicts.drop_first());
        if verdicts[0] {
            seq![values[0]] + rest
        } else {
            rest
        }
    }
}

proof fn lemma_filter_prefix<T, E>(
    values: Seq<T>,
    verdicts: Seq<bool>,
    rest: Seq<(Inbound<T, E>, Option<bool>)>,
)
    requires
        verdicts.len() == values.len(),
    ensures
        stage::run(filter_machine::<T, E>(), (), operators::judged(values, verdicts) + rest)
            == signal::nexts::<T, E>(selected(values, verdicts)) + stage::run(
            filter_machine::<T, E>(),
            (),
            rest,
        ),
    decreases values.len(),
{
    let machine = filter_machine::<T, E>();
    let all = operators::judged::<T, E>(values, verdicts) + rest;
    let kept = selected(values, verdicts);
    let after = stage::run(machine, (), rest);
    if values.len() == 0 {
        assert(all =~= rest);
        assert(signal::nexts::<T, E>(kept) + after =~= after);
    } else {
        let tail = values.drop_first();
        lemma_filter_prefix(tail, verdicts.drop_first(), rest);
        assert(all.drop_first() =~= operators::judged(tail, verdicts.drop_first()) + rest);
        assert(all[0] == (Inbound::Signal(Some(Ok::<T, E>(values[0]))), Some(verdicts[0])));
        assert(stage::run(machine, (), all) =~= signal::nexts::<T, E>(kept) + after);
    }
}

/// `filter` emits the values of the source on which the predicate gave true, in
/// order, and then whatever ends the source: an `OnError` or `OnCompleted`
/// unchanged, nothing where the source is lagging or lost.
pub proof fn law_filter_selects<T, E, F: Fn(&T) -> Option<bool>>(
    predicate: F,
    values: Seq<T>,
    verdicts: Seq<bool>,
    end: (Inbound<T, E>, Option<bool>),
    rest: Seq<(Inbound<T, E>, Option<bool>)>,
)
    requires
        verdicts.len() == values.len(),
        forall|i: int|
            0 <= i < values.len() ==> call_ensures(
                predicate,
                (&#[trigger] values[i],),
                Some(verdicts[i]),
            ),
        !stage::is_next(end.0),
    ensures
        stage::run(
            filter_machine::<T, E>(),
            (),
            operators::judged(values, verdicts).push(end) + rest,
        ) == signal::nexts::<T, E>(selected(values, verdicts)) + (match end.0 {
            Inbound::Signal(Some(Err(e))) => seq![Some(Err::<T, E>(e))],
            Inbound::Signal(None) => seq![None::<Result<T, E>>],
            _ => Seq::empty(),
        }),
{
    let before = operators::judged::<T, E>(values, verdicts);
    let tail = seq![end] + rest;
    assert(before.push(end) + rest =~= before + tail);
    lemma_filter_prefix(values, verdicts, tail);
    assert(stage::run(filter_machine::<T, E>(), (), tail) == stage::relayed::<T, T, E>(end.0).emit);
}

/// For a predicate that always gives the same verdict on the same value, the
/// values that `filter` emits are those that satisfy it.
pub proof fn law_filter_by_a_pure_predicate<T>(p: spec_fn(T) -> bool, values: Seq<T>)
    ensures
        selected(values, values.map_values(p)) == values.filter(p),
    decreases values.len(),
{
    reveal_with_fuel(Seq::filter, 2);
    if values.len() > 0 {
        let head = seq![values[0]];
        let tail = values.drop_first();
        law_filter_by_a_pure_predicate(p, tail);
        assert(values.map_values(p).drop_first() =~= tail.map_values(p));
        assert(values =~= head + tail);
        Seq::filter_distributes_over_add(head, tail, p);
        assert(head.drop_last() =~= Seq::<T>::empty());
        assert(head.last() == values[0]);
        if p(values[0]) {
            assert(head.filter(p) =~= head);
        } else {
            assert(head.filter(p) =~= Seq::<T>::empty());
        }
        assert(selected(values, values.map_values(p)) =~= values.filter(p));
    }
}

/// A value on which the predicate fails ends the stage: what was selected
/// before it was emitted, nothing after it is, and there is no terminal signal.
pub proof fn law_filter_stops_at_failure<T, E, F: Fn(&T) -> Option<bool>>(
    predicate: F,
    values: Seq<T>,
    verdicts: Seq<bool>,
    bad: T,
    rest: Seq<(Inbound<T, E>, Option<bool>)>,
)
    requires
        verdicts.len() == values.len(),
        forall|i: int|
            0 <= i < values.len() ==> call_ensures(
                predicate,
                (&#[trigger] values[i],),
                Some(verdicts[i]),
            ),
        call_ensures(predicate, (&bad,), None),
    ensures
        stage::run(
            filter_machine::<T, E>(),
            (),
            operators::judged(values, verdicts).push((Inbound::Signal(Some(Ok(bad))), None)) + rest,
        ) == signal::nexts::<T, E>(selected(values, verdicts)),
{
    let before = operators::judged::<T, E>(values, verdicts);
    let failure = (Inbound::Signal(Some(Ok::<T, E>(bad))), None::<bool>);
    let tail = seq![failure] + rest;
    assert(before.push(failure) + rest =~= before + tail);
    lemma_filter_prefix(values, verdicts, tail);
    let emitted = signal::nexts::<T, E>(selected(values, verdicts));
    assert(stage::run(filter_machine::<T, E>(), (), tail) =~= Seq::empty());
    assert(emitted + Seq::empty() =~= emitted);
}

/// On its output, a filter stage that was stepped on `values` and then on
/// `last` leaves the values on which the predicate gave true, in order, and what
/// the last step passed on.
pub proof fn law_filter_output<T: Clone, E: Clone, F: Fn(&T) -> Option<bool>>(
    predicate: F,
    values: Seq<T>,
    last: Inbound<T, E>,
    outcomes: Seq<Outcome<ChannelSignal<T, E>>>,
    outs: Seq<Subject<T, E>>,
) -> (verdicts: Seq<bool>)
    requires
        outcomes.len() == values.len() + 1,
        forall|i: int|
            0 <= i < outcomes.len() ==> filter_step(
                predicate,
                #[trigger] stage::incoming(values).push(last)[i],
                outcomes[i],
            ),
        forall|i: int| 0 <= i < outcomes.len() - 1 ==> !(#[trigger] outcomes[i]).stop,
        operators::forwards(outs, outcomes),
        outs[0].sent().len() == 0,
    ensures
        verdicts.len() == values.len(),
        forall|i: int|
            0 <= i < values.len() ==> call_ensures(
                predicate,
                (&#[trigger] values[i],),
                Some(verdicts[i]),
            ),
        outs.last().sent() == signal::nexts::<T, E>(selected(values, verdicts)) + outcomes.last().emit,
        match last {
            Inbound::Signal(Some(Ok(_))) => true,
            Inbound::Signal(Some(Err(e))) => outcomes.last().emit == seq![Some(Err::<T, E>(e))],
            Inbound::Signal(None) => outcomes.last().emit == seq![None::<Result<T, E>>],
            _ => outcomes.last().emit.len() == 0,
        },
{
    let machine = filter_machine::<T, E>();
    let inbounds = stage::incoming::<T, E>(values).push(last);
    let given = law_filter_steps_follow_machine(predicate, inbounds, outcomes);
    let inputs = stage::beside(inbounds, given);
    let states = Seq::new(inbounds.len() + 1, |i: int| ());
    let verdicts = Seq::new(values.len(), |i: int| given[i]->0);
    assert forall|i: int| 0 <= i < values.len() implies call_ensures(
        predicate,
        (&#[trigger] values[i],),
        Some(verdicts[i]),
    ) && given[i] == Some(verdicts[i]) by {
        assert(inbounds[i] == Inbound::Signal(Some(Ok::<T, E>(values[i]))));
        assert(inputs[i] == (inbounds[i], given[i]));
        assert(!outcomes[i].stop);
    }
    law_filter_keeps_grammar(inputs);
    operators::law_steps_leave_carried(machine, states, inputs, outcomes, outs);
    let tail = seq![inputs.last()];
    assert(inputs =~= operators::judged(values, verdicts) + tail);
    lemma_filter_prefix(values, verdicts, tail);
    assert(inputs[values.len() as int] == inputs.last());
    assert(stage::run(machine, (), tail) =~= outcomes.last().emit) by {
        reveal_with_fuel(stage::run, 2);
    }
    verdicts
}

/// Whatever a filter stage is fed, what it emits obeys the notification grammar.
pub proof fn law_filter_keeps_grammar<T, E>(inputs: Seq<(Inbound<T, E>, Option<bool>)>)
    ensures
        stage::orderly(filter_machine::<T, E>()),
        signal::well_ordered(stage::run(filter_machine::<T, E>(), (), inputs)),
{
    stage::lemma_orderly_run(filter_machine::<T, E>(), (), inputs);
}

/// One step of a stage that filters by `predicate`: a value on which it gave
/// true is passed on, one on which it gave false is not, and the stage goes on;
/// one on which it failed stops the stage silently. An end of the source is
/// passed on as it is; anything else stops the stage silently.
pub proof fn law_filter_step<T, E, F: Fn(&T) -> Option<bool>>(
    predicate: F,
    inbound: Inbound<T, E>,
    outcome: Outcome<ChannelSignal<T, E>>,
)
    requires
        filter_step(predicate, inbound, outcome),
    ensures
        match inbound {
            Inbound::Signal(Some(Ok(t))) => if outcome.stop {
                outcome.emit.len() == 0 && call_ensures(predicate, (&t,), None)
            } else {
                ||| outcome.emit == seq![Some(Ok::<T, E>(t))] && call_ensures(
                    predicate,
                    (&t,),
                    Some(true),
                )
                ||| outcome.emit.len() == 0 && call_ensures(predicate, (&t,), Some(false))
            },
            Inbound::Signal(Some(Err(e))) => outcome.emit == seq![Some(Err::<T, E>(e))]
                && outcome.stop,
            Inbound::Signal(None) => outcome.emit == seq![None::<Result<T, E>>] && outcome.stop,
            _ => outcome.emit.len() == 0 && outcome.stop,
        },
{
}

proof fn lemma_filter_passes<T: Clone, E: Clone, F: Fn(&T) -> Option<bool>>(
    predicate: F,
    signals: Seq<ChannelSignal<T, E>>,
    outcomes: Seq<Outcome<ChannelSignal<T, E>>>,
    outs: Seq<Subject<T, E>>,
    i: int,
) -> (picked: (Seq<bool>, Seq<int>))
    requires
        outs[0].sent().len() == 0,
        0 <= i < outcomes.len() <= signals.len(),
        forall|j: int|
            0 <= j < outcomes.len() ==> filter_step(
                predicate,
                Inbound::Signal(#[trigger] signals[j]),
                outcomes[j],
            ),
        operators::forwards(outs, outcomes),
        forall|j: int| 0 <= j < outcomes.len() - 1 ==> !(#[trigger] outcomes[j]).stop,
    ensures
        ({
            let (verdicts, kept) = picked;
            &&& verdicts.len() == i
            &&& forall|j: int|
                0 <= j < i ==> (signals[j] matches Some(Ok(t)) && call_ensures(
                    predicate,
                    (&t,),
                    Some(#[trigger] verdicts[j]),
                ))
            &&& forall|a: int|
                0 <= a < kept.len() ==> 0 <= #[trigger] kept[a] < i && verdicts[kept[a]]
            &&& forall|a: int, b: int|
                0 <= a < b < kept.len() ==> #[trigger] kept[a] < #[trigger] kept[b]
            &&& forall|j: int| 0 <= j < i && #[trigger] verdicts[j] ==> kept.contains(j)
            &&& outs[i].sent().len() == kept.len()
            &&& forall|a: int|
                0 <= a < kept.len() ==> #[trigger] outs[i].sent()[a] == signals[kept[a]]
        }),
    decreases i,
{
    if i == 0 {
        (Seq::empty(), Seq::empty())
    } else {
        let k = i - 1;
        let (earlier, found) = lemma_filter_passes(predicate, signals, outcomes, outs, k);
        assert(filter_step(predicate, Inbound::Signal(signals[k]), outcomes[k]));
        law_filter_step(predicate, Inbound::Signal(signals[k]), outcomes[k]);
        assert(!outcomes[k].stop);
        let before = outs[k].sent();
        assert(outs[k + 1].sent() == operators::absorbed(before, outcomes[k].emit));
        assert(!signal::ended(before)) by {
            if before.len() > 0 {
                let a = before.len() - 1;
                assert(outs[k].sent()[a] == signals[found[a]]);
                assert(call_ensures(predicate, (&signals[found[a]]->0->Ok_0,), Some(earlier[found[a]])));
            }
        }
        operators::lemma_absorbed_step(before, signals[k], None);
        let verdict = outcomes[k].emit.len() > 0;
        if !verdict {
            assert(outcomes[k].emit =~= Seq::empty());
        }
        let verdicts = earlier.push(verdict);
        let kept = if verdict {
            found.push(k)
        } else {
            found
        };
        lemma_picks_grow(earlier, found, verdict, verdicts, kept);
        assert forall|j: int| 0 <= j < i implies (signals[j] matches Some(Ok(t)) && call_ensures(
            predicate,
            (&t,),
            Some(#[trigger] verdicts[j]),
        )) by {
            if j < k {
                assert(verdicts[j] == earlier[j]);
            }
        }
        assert forall|a: int| 0 <= a < kept.len() implies #[trigger] outs[i].sent()[a]
            == signals[kept[a]] by {
            if a < found.len() {
                assert(outs[k].sent()[a] == signals[found[a]]);
            }
        }
        (verdicts, kept)
    }
}

/// Picking goes on with one more verdict.
proof fn lemma_picks_grow(
    verdicts: Seq<bool>,
    kept: Seq<int>,
    verdict: bool,
    more: Seq<bool>,
    picks: Seq<int>,
)
    requires
        forall|a: int|
            0 <= a < kept.len() ==> 0 <= #[trigger] kept[a] < verdicts.len() && verdicts[kept[a]],
        forall|a: int, b: int| 0 <= a < b < kept.len() ==> #[trigger] kept[a] < #[trigger] kept[b],
        forall|j: int| 0 <= j < verdicts.len() && #[trigger] verdicts[j] ==> kept.contains(j),
        more == verdicts.push(verdict),
        picks == if verdict {
            kept.push(verdicts.len() as int)
        } else {
            kept
        },
    ensures
        forall|a: int|
            0 <= a < picks.len() ==> 0 <= #[trigger] picks[a] < more.len() && more[picks[a]],
        forall|a: int, b: int|
            0 <= a < b < picks.len() ==> #[trigger] picks[a] < #[trigger] picks[b],
        forall|j: int| 0 <= j < more.len() && #[trigger] more[j] ==> picks.contains(j),
{
    assert forall|a: int| 0 <= a < picks.len() implies 0 <= #[trigger] picks[a] < more.len()
        && more[picks[a]] by {
        if a < kept.len() {
            assert(kept[a] == picks[a]);
        }
    }
    assert forall|j: int| 0 <= j < more.len() && #[trigger] more[j] implies picks.contains(j) by {
        if j < verdicts.len() {
            assert(verdicts[j]);
            let a = choose|a: int| 0 <= a < kept.len() && kept[a] == j;
            assert(picks[a] == j);
        } else {
            assert(picks[kept.len() as int] == j);
        }
    }
}

/// From the call of `filter` to its output. What a filter on a live source
/// leaves on its output, once the source has sent `signals` after the call and
/// the stage was stepped on them until it stopped, are those of them that were
/// found worth it, at the positions `kept`, in order and unchanged: each value on
/// which the predicate gave true, none on which it gave false, and the end of the
/// source. Something is left undecided only where the predicate failed on a
/// value, which nothing follows.
pub proof fn law_filter_from_call_to_output<T: Clone, E: Clone, F: Fn(&T) -> Option<bool>>(
    source: Subject<T, E>,
    capacity: usize,
    predicate: F,
    piped: Piped<T, T, E, FilterStage<F>>,
    later: Subject<T, E>,
    signals: Seq<ChannelSignal<T, E>>,
    outcomes: Seq<Outcome<ChannelSignal<T, E>>>,
    outs: Seq<Subject<T, E>>,
) -> (picked: (Seq<bool>, Seq<int>))
    requires
        source.terminal() is None,
        filters(source, capacity, predicate, piped),
        later.wf(),
        later.sent() == source.sent() + signals,
        outcomes.len() <= signals.len(),
        forall|i: int|
            0 <= i < outcomes.len() ==> filter_step(
                piped.stage.function(),
                Inbound::Signal(#[trigger] signals[i]),
                outcomes[i],
            ),
        forall|i: int| 0 <= i < outcomes.len() - 1 ==> !(#[trigger] outcomes[i]).stop,
        outcomes.len() == signals.len() || (outcomes.len() > 0 && outcomes.last().stop),
        operators::forwards(outs, outcomes),
        outs[0] == piped.out,
    ensures
        piped.start matches Start::Live(tap) && tap.origin() == source.handle() && tap.missed()
            == source.sent(),
        ({
            let (verdicts, kept) = picked;
            &&& verdicts.len() <= signals.len()
            &&& forall|i: int|
                0 <= i < verdicts.len() ==> match signals[i] {
                    Some(Ok(t)) => call_ensures(predicate, (&t,), Some(#[trigger] verdicts[i])),
                    _ => verdicts[i],
                }
            &&& forall|a: int|
                0 <= a < kept.len() ==> 0 <= #[trigger] kept[a] < verdicts.len() && verdicts[kept[a]]
            &&& forall|a: int, b: int|
                0 <= a < b < kept.len() ==> #[trigger] kept[a] < #[trigger] kept[b]
            &&& forall|i: int|
                0 <= i < verdicts.len() && #[trigger] verdicts[i] ==> kept.contains(i)
            &&& outs.last().sent().len() == kept.len()
            &&& forall|a: int|
                0 <= a < kept.len() ==> #[trigger] outs.last().sent()[a] == signals[kept[a]]
            &&& verdicts.len() < signals.len() ==> (
            signals[verdicts.len() as int] matches Some(Ok(t)) && call_ensures(
                predicate,
                (&t,),
                None,
            ))
        }),
{
    operators::lemma_sent_since(source, later, signals);
    if outcomes.len() == 0 {
        (Seq::empty(), Seq::empty())
    } else {
        let m = outcomes.len() - 1;
        let (earlier, found) = lemma_filter_passes(predicate, signals, outcomes, outs, m);
        assert(filter_step(predicate, Inbound::Signal(signals[m]), outcomes[m]));
        law_filter_step(predicate, Inbound::Signal(signals[m]), outcomes[m]);
        let before = outs[m].sent();
        assert(outs[m + 1].sent() == operators::absorbed(before, outcomes[m].emit));
        assert(!signal::ended(before)) by {
            if before.len() > 0 {
                let a = before.len() - 1;
                assert(outs[m].sent()[a] == signals[found[a]]);
                assert(call_ensures(predicate, (&signals[found[a]]->0->Ok_0,), Some(earlier[found[a]])));
            }
        }
        operators::lemma_absorbed_step(before, signals[m], None);
        let verdict = outcomes[m].emit.len() > 0;
        if !verdict {
            assert(outcomes[m].emit =~= Seq::empty());
        }
        if outcomes[m].stop && !verdict {
            assert(outs.last().sent() == before);
            (earlier, found)
        } else {
            let verdicts = earlier.push(verdict);
            let kept = if verdict {
                found.push(m)
            } else {
                found
            };
            lemma_picks_grow(earlier, found, verdict, verdicts, kept);
            assert(m + 1 == signals.len());
            assert forall|i: int| 0 <= i < verdicts.len() implies match signals[i] {
                Some(Ok(t)) => call_ensures(predicate, (&t,), Some(#[trigger] verdicts[i])),
                _ => verdicts[i],
            } by {
                if i < m {
                    assert(verdicts[i] == earlier[i]);
                }
            }
            assert forall|a: int| 0 <= a < kept.len() implies #[trigger] outs.last().sent()[a]
                == signals[kept[a]] by {
                if a < found.len() {
                    assert(outs[m].sent()[a] == signals[found[a]]);
                }
            }
            (verdicts, kept)
        }
    }
}

} // verus!
