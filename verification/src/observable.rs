use std::sync::Arc;

use vstd::prelude::*;

use crate::feed;
use crate::runs::{Factory, Runs};
use crate::signal;
use crate::signal::{is_terminal, ChannelSignal, Signal};
use crate::stage;
use crate::stage::Inbound;

verus! {

/// A cold observable: the factory runs once per subscriber, giving each its
/// own independent sequence from the start. Unlike [`Subject`](crate::Subject),
/// `T`/`E` don't need to be `Clone`. There's no fan-out to multiple receivers.
///
/// What the factory makes is up to the user: anything that channel signals
/// can be drawn from, one after the other.
pub struct Observable<F> {
    factory: Arc<F>,
}

impl<F> Clone for Observable<F> {
    /// Another handle on the same factory.
    fn clone(&self) -> (observable: Self)
        ensures
            observable.function() == self.function(),
    {
        Observable { factory: self.factory.clone() }
    }
}

impl<F> Observable<F> {
    /// The factory that makes the sequences.
    pub closed spec fn function(self) -> F {
        *self.factory
    }

    /// Wraps a factory that produces a fresh sequence for each subscriber.
    pub fn new(factory: F) -> (observable: Self)
        ensures
            observable.function() == factory,
    {
        Observable { factory: Arc::new(factory) }
    }

    /// Runs the factory once, for one subscriber, who gets the sequence that a
    /// plain stream would start from. What is drawn from the sequence is
    /// delivered as [`deliver`](crate::deliver) says, a sequence that has run
    /// out being [`Inbound::Closed`].
    pub fn subscribe<S>(&self) -> (sequence: S) where F: Fn() -> S
        requires
            call_requires(self.function(), ()),
        ensures
            call_ensures(self.function(), (), sequence),
    {
        self.to_stream().unwrap()
    }

    /// Runs the factory once and returns where a plain stream of [`Signal`]
    /// starts; each item of it comes from [`stream_item`]. The run is put on a
    /// record, and the stream starts from the one sequence on it.
    pub fn to_stream<S>(&self) -> (state: Option<S>) where F: Fn() -> S
        requires
            call_requires(self.function(), ()),
        ensures
            state matches Some(sequence) && call_ensures(self.function(), (), sequence),
            exists|runs: Runs<F, S>| #[trigger]
                runs.record() == seq![state->0] && call_ensures(runs.function(), (), state->0),
    {
        let mut runs = Runs::of(&*self.factory);
        let state = open_stream(&mut runs);
        assert(runs.record() =~= seq![state->0] && runs.makes(state->0));
        state
    }
}

/// What opening a plain stream does, where `before` was on the record of the
/// factory and `after` is: the factory was run once, and the stream starts from
/// what that run made.
pub open spec fn opened<S>(before: Seq<S>, after: Seq<S>, state: Option<S>) -> bool {
    state matches Some(sequence) && after == before.push(sequence)
}

/// Runs `factory` once and returns where a plain stream of [`Signal`] starts;
/// each item of it comes from [`stream_item`].
pub fn open_stream<S, R: Factory<S>>(factory: &mut R) -> (state: Option<S>)
    requires
        old(factory).ready(),
    ensures
        final(factory).ready(),
        forall|s: S| #[trigger] final(factory).makes(s) == old(factory).makes(s),
        opened(old(factory).made(), final(factory).made(), state),
        state matches Some(sequence) && old(factory).makes(sequence) && final(factory).made()
            == old(factory).made().push(sequence),
{
    Some(factory.make())
}

/// What a plain stream yields, and where it goes on, once `drawn` was drawn
/// from `sequence`: it ends where the sequence ran out, and after an `OnError`
/// or `OnCompleted` it has no state to go on from.
pub open spec fn streamed<T, E, S>(sequence: S, drawn: Option<ChannelSignal<T, E>>) -> Option<
    (Signal<T, E>, Option<S>),
> {
    match drawn {
        Some(channel_signal) => Some(
            (
                signal::notice(channel_signal),
                if signal::ends(channel_signal) {
                    None
                } else {
                    Some(sequence)
                },
            ),
        ),
        None => None,
    }
}

/// One item of a plain stream of [`Signal`], and the state that the next one
/// comes from.
pub fn stream_item<T, E, S>(sequence: S, drawn: Option<ChannelSignal<T, E>>) -> (item: Option<
    (Signal<T, E>, Option<S>),
>)
    ensures
        item == streamed(sequence, drawn),
        match drawn {
            Some(Some(Ok(t))) => item == Some((Signal::<T, E>::Next(t), Some(sequence))),
            Some(Some(Err(e))) => item == Some((Signal::<T, E>::Error(e), None::<S>)),
            Some(None) => item == Some((Signal::<T, E>::Complete, None::<S>)),
            None => item is None,
        },
{
    match drawn {
        Some(channel_signal) => {
            let terminal = is_terminal(&channel_signal);
            let next_state = if terminal {
                None
            } else {
                Some(sequence)
            };
            Some((Signal::from(channel_signal), next_state))
        },
        None => None,
    }
}

/// Everything that a plain stream yields over a sequence that gives `signals`
/// and then runs out.
pub open spec fn stream<T, E>(signals: Seq<ChannelSignal<T, E>>) -> Seq<Signal<T, E>>
    decreases signals.len(),
{
    if signals.len() == 0 {
        Seq::empty()
    } else {
        let rest = signals.drop_first();
        match streamed(rest, Some(signals[0])) {
            Some((item, Some(state))) => seq![item] + stream(state),
            Some((item, None)) => seq![item],
            None => Seq::empty(),
        }
    }
}

/// A plain stream yields what a subscriber of the same sequence is handed.
pub proof fn law_stream_is_delivery<T, E>(signals: Seq<ChannelSignal<T, E>>)
    ensures
        stream(signals) == stage::run(
            feed::delivery::<T, E>(),
            (),
            stage::arrivals(signals).push(Inbound::Closed),
        ),
    decreases signals.len(),
{
    let all = stage::arrivals(signals).push(Inbound::Closed);
    if signals.len() > 0 {
        let rest = signals.drop_first();
        law_stream_is_delivery(rest);
        assert(all[0] == Inbound::Signal(signals[0]));
        assert(all.drop_first() =~= stage::arrivals(rest).push(Inbound::Closed));
    } else {
        assert(all[0] == Inbound::<T, E>::Closed);
    }
}

/// A cold sequence is delivered up to and with its first `OnError` or
/// `OnCompleted`; whatever it holds after that is never delivered.
pub proof fn law_stream_ends_at_first_end<T, E>(
    values: Seq<T>,
    end: ChannelSignal<T, E>,
    rest: Seq<ChannelSignal<T, E>>,
)
    requires
        signal::ends(end),
    ensures
        stream(signal::nexts::<T, E>(values).push(end) + rest) == feed::next_notices::<T, E>(
            values,
        ).push(
            match end {
                Some(Err(e)) => Signal::<T, E>::Error(e),
                _ => Signal::<T, E>::Complete,
            },
        ),
    decreases values.len(),
{
    let all = signal::nexts::<T, E>(values).push(end) + rest;
    if values.len() == 0 {
        assert(all[0] == end);
        assert(stream(all) =~= feed::next_notices::<T, E>(values).push(signal::notice(end)));
    } else {
        let tail = values.drop_first();
        law_stream_ends_at_first_end(tail, end, rest);
        assert(all[0] == Some(Ok::<T, E>(values[0])));
        assert(all.drop_first() =~= signal::nexts::<T, E>(tail).push(end) + rest);
        assert(stream(all) =~= feed::next_notices::<T, E>(values).push(signal::notice(end)));
    }
}

/// A cold sequence that runs out without an end is delivered as it is: no
/// terminal signal is made up.
pub proof fn law_stream_adds_no_end<T, E>(values: Seq<T>)
    ensures
        stream(signal::nexts::<T, E>(values)) == feed::next_notices::<T, E>(values),
    decreases values.len(),
{
    let all = signal::nexts::<T, E>(values);
    if values.len() == 0 {
        assert(stream(all) =~= feed::next_notices::<T, E>(values));
    } else {
        let tail = values.drop_first();
        law_stream_adds_no_end::<T, E>(tail);
        assert(all.drop_first() =~= signal::nexts::<T, E>(tail));
        assert(stream(all) =~= feed::next_notices::<T, E>(values));
    }
}

/// One item of a plain stream: a value is yielded and the stream goes on from
/// the same sequence; an error or a completion is yielded as what it is, and
/// there is no state to go on from; where the sequence ran out nothing is.
pub proof fn law_stream_item_is_one_for_one<T, E, S>(sequence: S, value: T, error: E)
    ensures
        streamed::<T, E, S>(sequence, Some(Some(Ok(value)))) == Some(
            (Signal::<T, E>::Next(value), Some(sequence)),
        ),
        streamed::<T, E, S>(sequence, Some(Some(Err(error)))) == Some(
            (Signal::<T, E>::Error(error), None::<S>),
        ),
        streamed::<T, E, S>(sequence, Some(None)) == Some((Signal::<T, E>::Complete, None::<S>)),
        streamed::<T, E, S>(sequence, None) is None,
{
}

/// Opening a plain stream runs the factory exactly once, and the stream starts
/// from the sequence that this run made. Of two streams each has a run of its
/// own, in the order in which they were opened.
pub proof fn law_each_stream_is_one_run<S>(
    before: Seq<S>,
    between: Seq<S>,
    after: Seq<S>,
    first: Option<S>,
    second: Option<S>,
)
    requires
        opened(before, between, first),
        opened(between, after, second),
    ensures
        between.len() == before.len() + 1,
        first == Some(between[before.len() as int]),
        after.len() == before.len() + 2,
        first == Some(after[before.len() as int]),
        second == Some(after[before.len() as int + 1]),
        forall|i: int| 0 <= i < before.len() ==> #[trigger] after[i] == before[i],
{
}

} // verus!
