use vstd::prelude::*;

use crate::operators;
use crate::operators::{Piped, Start};
use crate::signal;
use crate::signal::ChannelSignal;
use crate::stage;
use crate::stage::{Inbound, Outcome, Step};
use crate::subject::Subject;

verus! {

/// The stage of [`Subject::skip`].
pub struct SkipStage {
    remaining: usize,
}

/// What the stage passes on for a value when it still drops `remaining`.
pub open spec fn skipped<T, E>(value: T, remaining: nat) -> Outcome<ChannelSignal<T, E>> {
    if remaining > 0 {
        Outcome::skip()
    } else {
        Outcome::pass(Some(Ok(value)))
    }
}

/// How many values are still to be dropped after one more arrived.
pub open spec fn still_to_skip(remaining: nat) -> nat {
    if remaining > 0 {
        (remaining - 1) as nat
    } else {
        0
    }
}

impl SkipStage {
    /// How many more values the stage drops.
    pub closed spec fn remaining(self) -> nat {
        self.remaining as nat
    }

    /// A stage that drops `n` values.
    pub fn new(n: usize) -> (stage: Self)
        ensures
            stage.remaining() == n,
    {
        SkipStage { remaining: n }
    }

    /// Handles one arrival.
    pub fn on_inbound<T, E>(&mut self, inbound: Inbound<T, E>) -> (step: Step<ChannelSignal<T, E>>)
        ensures
            (final(self).remaining(), step@) == skip_machine::<T, E>()(
                old(self).remaining(),
                inbound,
            ),
            match inbound {
                Inbound::Signal(Some(Ok(t))) => if old(self).remaining() > 0 {
                    final(self).remaining() == old(self).remaining() - 1 && step.emit@.len() == 0
                        && !step.stop
                } else {
                    final(self).remaining() == 0 && step.emit@ == seq![Some(Ok::<T, E>(t))]
                        && !step.stop
                },
                Inbound::Signal(Some(Err(e))) => step.emit@ == seq![Some(Err::<T, E>(e))]
                    && step.stop,
                Inbound::Signal(None) => step.emit@ == seq![None::<Result<T, E>>] && step.stop,
                _ => step.emit@.len() == 0 && step.stop,
            },
    {
        match inbound {
            Inbound::Signal(Some(Ok(t))) => {
                if self.remaining > 0 {
                    self.remaining = self.remaining - 1;
                    Step::skip()
                } else {
                    Step::pass(Some(Ok(t)))
                }
            },
            Inbound::Signal(Some(Err(e))) => Step::close(Some(Err(e))),
            Inbound::Signal(None) => Step::close(None),
            _ => Step::halt(),
        }
    }
}

/// A stage that drops `n` values of `source`, about to run.
pub open spec fn skips<T: Clone, E: Clone>(
    source: Subject<T, E>,
    capacity: usize,
    n: usize,
    piped: Piped<T, T, E, SkipStage>,
) -> bool {
    &&& operators::fresh(piped.out, capacity)
    &&& operators::starts(source, piped.start)
    &&& piped.stage.remaining() == n
}

impl<T: Clone, E: Clone> Subject<T, E> {
    /// Drops the first `n` `OnNext` values, then forwards the rest.
    /// `OnError`/`OnCompleted` from the source pass through unchanged.
    #[must_use]
    pub fn skip(&self, capacity: usize, n: usize) -> (piped: Piped<T, T, E, SkipStage>)
        requires
            0 < capacity <= usize::MAX / 2,
        ensures
            skips(*self, capacity, n, piped),
            operators::fresh(piped.out, capacity),
            operators::starts(*self, piped.start),
            piped.stage.remaining() == n,
    {
        Piped::new(capacity, self.begin(), SkipStage::new(n))
    }
}

/// A skip stage, with how many more values it drops as its state.
pub open spec fn skip_machine<T, E>() -> spec_fn(nat, Inbound<T, E>) -> (
    nat,
    Outcome<ChannelSignal<T, E>>,
) {
    |remaining: nat, inbound: Inbound<T, E>|
        match inbound {
            Inbound::Signal(Some(Ok(t))) => (still_to_skip(remaining), skipped(t, remaining)),
            _ => (remaining, stage::relayed(inbound)),
        }
}

/// `skip` emits the values of the source but for the first `n`, in order, and
/// then whatever ends the source: an `OnError` or `OnCompleted` unchanged,
/// nothing where the source is lagging or lost.
#[verifier::spinoff_prover]
pub proof fn law_skip_drops<T, E>(
    n: nat,
    values: Seq<T>,
    end: Inbound<T, E>,
    rest: Seq<Inbound<T, E>>,
)
    requires
        !stage::is_next(end),
    ensures
        stage::run(skip_machine::<T, E>(), n, stage::incoming(values).push(end) + rest)
            == signal::nexts::<T, E>(
            if n <= values.len() {
                values.skip(n as int)
            } else {
                Seq::empty()
            },
        ) + (match end {
            Inbound::Signal(Some(Err(e))) => seq![Some(Err::<T, E>(e))],
            Inbound::Signal(None) => seq![None::<Result<T, E>>],
            _ => Seq::empty(),
        }),
    decreases values.len(),
{
    let machine = skip_machine::<T, E>();
    let all = stage::incoming(values).push(end) + rest;
    let kept = if n <= values.len() {
        values.skip(n as int)
    } else {
        Seq::empty()
    };
    let output = signal::nexts::<T, E>(kept) + stage::relayed::<T, T, E>(end).emit;
    if values.len() == 0 {
        assert(all[0] == end);
        assert(stage::run(machine, n, all) =~= output);
    } else {
        let tail = values.drop_first();
        let fewer = still_to_skip(n);
        law_skip_drops(fewer, tail, end, rest);
        assert(all[0] == Inbound::Signal(Some(Ok::<T, E>(values[0]))));
        assert(all.drop_first() =~= stage::incoming(tail).push(end) + rest);
        if n > 0 && n <= values.len() {
            assert(tail.skip(fewer as int) =~= kept);
        } else if n == 0 {
            assert(tail.skip(0) =~= tail);
        }
        assert(stage::run(machine, n, all) =~= output);
    }
}

proof fn lemma_skip_prefix<T, E>(n: nat, values: Seq<T>, rest: Seq<Inbound<T, E>>)
    ensures
        stage::run(skip_machine::<T, E>(), n, stage::incoming(values) + rest) == signal::nexts::<
            T,
            E,
        >(
            if n <= values.len() {
                values.skip(n as int)
            } else {
                Seq::empty()
            },
        ) + stage::run(
            skip_machine::<T, E>(),
            if n <= values.len() {
                0
            } else {
                (n - values.len()) as nat
            },
            rest,
        ),
    decreases values.len(),
{
    let machine = skip_machine::<T, E>();
    let all = stage::incoming::<T, E>(values) + rest;
    let kept = if n <= values.len() {
        values.skip(n as int)
    } else {
        Seq::empty()
    };
    let now: nat = if n <= values.len() {
        0
    } else {
        (n - values.len()) as nat
    };
    let after = stage::run(machine, now, rest);
    if values.len() == 0 {
        assert(all =~= rest);
        assert(signal::nexts::<T, E>(kept) + after =~= after);
    } else {
        let tail = values.drop_first();
        let fewer = still_to_skip(n);
        lemma_skip_prefix(fewer, tail, rest);
        assert(all[0] == Inbound::Signal(Some(Ok::<T, E>(values[0]))));
        assert(all.drop_first() =~= stage::incoming(tail) + rest);
        if n > 0 && n <= values.len() {
            assert(tail.skip(fewer as int) =~= kept);
        } else if n == 0 {
            assert(tail.skip(0) =~= tail);
        }
        assert(stage::run(machine, n, all) =~= signal::nexts::<T, E>(kept) + after);
    }
}

/// On its output, a skip stage of `n` values that was stepped on `values` and
/// then on `last` leaves the values but for the first `n`, and what the last
/// step passes on.
pub proof fn law_skip_output<T: Clone, E: Clone>(
    n: nat,
    states: Seq<nat>,
    values: Seq<T>,
    last: Inbound<T, E>,
    outcomes: Seq<Outcome<ChannelSignal<T, E>>>,
    outs: Seq<Subject<T, E>>,
)
    requires
        stage::follows(
            skip_machine::<T, E>(),
            states,
            stage::incoming(values).push(last),
            outcomes,
        ),
        states[0] == n,
        operators::forwards(outs, outcomes),
        outs[0].sent().len() == 0,
    ensures
        outs.last().sent() == signal::nexts::<T, E>(
            if n <= values.len() {
                values.skip(n as int)
            } else {
                Seq::empty()
            },
        ) + (match last {
            Inbound::Signal(Some(Ok(t))) => if n <= values.len() {
                seq![Some(Ok::<T, E>(t))]
            } else {
                Seq::empty()
            },
            Inbound::Signal(Some(Err(e))) => seq![Some(Err::<T, E>(e))],
            Inbound::Signal(None) => seq![None::<Result<T, E>>],
            _ => Seq::empty(),
        }),
{
    let machine = skip_machine::<T, E>();
    let inbounds = stage::incoming::<T, E>(values).push(last);
    law_skip_keeps_grammar(n, inbounds);
    operators::law_steps_leave_carried(machine, states, inbounds, outcomes, outs);
    let tail = seq![last];
    assert(inbounds =~= stage::incoming(values) + tail);
    lemma_skip_prefix(n, values, tail);
    assert(tail[0] == last);
    let now: nat = if n <= values.len() {
        0
    } else {
        (n - values.len()) as nat
    };
    let end = match last {
        Inbound::Signal(Some(Ok(t))) => skipped::<T, E>(t, now),
        _ => stage::relayed::<T, T, E>(last),
    };
    assert(stage::run(machine, now, tail) =~= end.emit) by {
        reveal_with_fuel(stage::run, 2);
    }
}

/// Whatever a skip stage is fed, what it emits obeys the notification grammar.
pub proof fn law_skip_keeps_grammar<T, E>(n: nat, inbounds: Seq<Inbound<T, E>>)
    ensures
        stage::orderly(skip_machine::<T, E>()),
        signal::well_ordered(stage::run(skip_machine::<T, E>(), n, inbounds)),
{
    stage::lemma_orderly_run(skip_machine::<T, E>(), n, inbounds);
}

/// One step of a stage that drops `remaining` more values: a value is dropped
/// and counted as long as there are any to drop, and passed on from then on; an
/// end of the source is passed on as it is; anything else stops the stage
/// silently.
pub proof fn law_skip_step<T, E>(remaining: nat, inbound: Inbound<T, E>)
    ensures
        match inbound {
            Inbound::Signal(Some(Ok(t))) => {
                &&& !skip_machine::<T, E>()(remaining, inbound).1.stop
                &&& remaining > 0 ==> skip_machine::<T, E>()(remaining, inbound).0 == remaining - 1
                    && skip_machine::<T, E>()(remaining, inbound).1.emit.len() == 0
                &&& remaining == 0 ==> skip_machine::<T, E>()(remaining, inbound).0 == 0
                    && skip_machine::<T, E>()(remaining, inbound).1.emit == seq![Some(Ok::<T, E>(t))]
            },
            Inbound::Signal(Some(Err(e))) => {
                &&& skip_machine::<T, E>()(remaining, inbound).1.stop
                &&& skip_machine::<T, E>()(remaining, inbound).1.emit == seq![Some(Err::<T, E>(e))]
            },
            Inbound::Signal(None) => {
                &&& skip_machine::<T, E>()(remaining, inbound).1.stop
                &&& skip_machine::<T, E>()(remaining, inbound).1.emit == seq![None::<Result<T, E>>]
            },
            _ => {
                &&& skip_machine::<T, E>()(remaining, inbound).1.stop
                &&& skip_machine::<T, E>()(remaining, inbound).1.emit.len() == 0
            },
        },
{
}

proof fn lemma_skip_passes<T: Clone, E: Clone>(
    n: nat,
    signals: Seq<ChannelSignal<T, E>>,
    states: Seq<nat>,
    outcomes: Seq<Outcome<ChannelSignal<T, E>>>,
    outs: Seq<Subject<T, E>>,
    i: int,
)
    requires
        states[0] == n,
        outs[0].sent().len() == 0,
        0 <= i < outcomes.len() <= signals.len(),
        forall|j: int|
            #![trigger signals[j]]
            0 <= j < outcomes.len() ==> (states[j + 1], outcomes[j]) == skip_machine::<T, E>()(
                states[j],
                Inbound::Signal(signals[j]),
            ),
        operators::forwards(outs, outcomes),
        forall|j: int| 0 <= j < outcomes.len() - 1 ==> !(#[trigger] outcomes[j]).stop,
    ensures
        states[i] == if i < n {
            n - i
        } else {
            0
        },
        outs[i].sent() == if i < n {
            Seq::empty()
        } else {
            signals.subrange(n as int, i)
        },
        forall|j: int| 0 <= j < i ==> (#[trigger] signals[j] matches Some(Ok(_))),
    decreases i,
{
    if i > 0 {
        let k = i - 1;
        lemma_skip_passes(n, signals, states, outcomes, outs, k);
        assert((states[k + 1], outcomes[k]) == skip_machine::<T, E>()(
            states[k],
            Inbound::Signal(signals[k]),
        ));
        assert(!outcomes[k].stop);
        assert(outs[k + 1].sent() == operators::absorbed(outs[k].sent(), outcomes[k].emit));
        assert(!signal::ended(outs[k].sent())) by {
            if k > n {
                assert(outs[k].sent().last() == signals[k - 1]);
            }
        }
        operators::lemma_absorbed_step(outs[k].sent(), signals[k], None);
        if k < n {
            assert(outs[i].sent() =~= Seq::empty());
            if i == n {
                assert(signals.subrange(n as int, i) =~= Seq::empty());
            }
        } else {
            assert(signals.subrange(n as int, i) =~= signals.subrange(n as int, k).push(signals[k]));
        }
    } else {
        assert(outs[0].sent() =~= Seq::empty());
        if n == 0 {
            assert(signals.subrange(0, 0) =~= Seq::empty());
        }
    }
}

/// From the call of `skip` to its output. What a skip of `n` on a live source
/// leaves on its output, once the source has sent `signals` after the call and
/// the stage was stepped on them, is what the source has sent but for its first
/// `n` values; the end of the source is never dropped.
pub proof fn law_skip_from_call_to_output<T: Clone, E: Clone>(
    source: Subject<T, E>,
    capacity: usize,
    n: usize,
    piped: Piped<T, T, E, SkipStage>,
    later: Subject<T, E>,
    signals: Seq<ChannelSignal<T, E>>,
    states: Seq<nat>,
    outcomes: Seq<Outcome<ChannelSignal<T, E>>>,
    outs: Seq<Subject<T, E>>,
)
    requires
        source.terminal() is None,
        skips(source, capacity, n, piped),
        later.wf(),
        later.sent() == source.sent() + signals,
        outcomes.len() <= signals.len(),
        states.len() == outcomes.len() + 1,
        states[0] == piped.stage.remaining(),
        forall|i: int|
            #![trigger signals[i]]
            0 <= i < outcomes.len() ==> (states[i + 1], outcomes[i]) == skip_machine::<T, E>()(
                states[i],
                Inbound::Signal(signals[i]),
            ),
        forall|i: int| 0 <= i < outcomes.len() - 1 ==> !(#[trigger] outcomes[i]).stop,
        outcomes.len() == signals.len() || (outcomes.len() > 0 && outcomes.last().stop),
        operators::forwards(outs, outcomes),
        outs[0] == piped.out,
    ensures
        piped.start matches Start::Live(tap) && tap.origin() == source.handle() && tap.missed()
            == source.sent(),
        signals.len() > 0 && !(signals[signals.len() - 1] matches Some(Ok(_))) ==> outs.last().sent()
            == if n < signals.len() {
            signals.skip(n as int)
        } else {
            seq![signals[signals.len() - 1]]
        },
        signals.len() == 0 || (signals[signals.len() - 1] matches Some(Ok(_))) ==> outs.last().sent()
            == if n < signals.len() {
            signals.skip(n as int)
        } else {
            Seq::empty()
        },
{
    operators::lemma_sent_since(source, later, signals);
    if outcomes.len() == 0 {
        assert(outs.last().sent() =~= Seq::empty());
    } else {
        let m = outcomes.len() - 1;
        lemma_skip_passes(n as nat, signals, states, outcomes, outs, m);
        let before = outs[m].sent();
        assert((states[m + 1], outcomes[m]) == skip_machine::<T, E>()(
            states[m],
            Inbound::Signal(signals[m]),
        ));
        assert(outs[m + 1].sent() == operators::absorbed(before, outcomes[m].emit));
        assert(!signal::ended(before)) by {
            if m > n {
                assert(before.last() == signals[m - 1]);
            }
        }
        operators::lemma_absorbed_step(before, signals[m], None);
        assert(m + 1 == signals.len());
        if n < signals.len() {
            assert(signals.skip(n as int) =~= signals.subrange(n as int, m).push(signals[m]));
        } else {
            assert(before =~= Seq::empty());
            assert(before.push(signals[m]) =~= seq![signals[m]]);
        }
    }
}

} // verus!
