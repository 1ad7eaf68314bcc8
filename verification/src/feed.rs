use vstd::prelude::*;

use crate::channel::Tap;
use crate::error::SendError;
use crate::policy::SubjectPolicy;
use crate::signal;
use crate::signal::{is_terminal, ChannelSignal, Signal, TerminalState};
use crate::stage;
use crate::stage::{Inbound, Outcome, Step};
use crate::subject;
use crate::subject::Subject;

verus! {

/// What a subscriber has to look forward to: `backlog`, delivered first and
/// in order, and then what arrives at `tap`, if anything can.
#[verifier::reject_recursive_types(T)]
#[verifier::reject_recursive_types(E)]
pub struct Feed<T, E> {
    /// What is delivered at once: the replayed items, and the end of a
    /// subject that already ended.
    pub backlog: Vec<Signal<T, E>>,
    /// Where everything emitted from now on arrives, while the subject lives.
    pub tap: Option<Tap<T, E>>,
}

/// The values of `values` as notifications.
pub open spec fn next_notices<T, E>(values: Seq<T>) -> Seq<Signal<T, E>> {
    values.map_values(|t: T| Signal::<T, E>::Next(t))
}

/// What channel signals stand for, one by one.
pub open spec fn notices<T, E>(signals: Seq<ChannelSignal<T, E>>) -> Seq<Signal<T, E>> {
    signals.map_values(|channel_signal: ChannelSignal<T, E>| signal::notice(channel_signal))
}

/// What a new subscriber of `subject` gets. The items that the policy replays
/// come first. A subject that has ended then gives the stored end, and nothing
/// more is to be expected; any other gives what it emits from now on.
pub open spec fn feeds<T: Clone, E: Clone, P: SubjectPolicy<T>>(
    subject: Subject<T, E, P>,
    feed: Feed<T, E>,
) -> bool {
    match subject.terminal() {
        Some(end) => {
            &&& feed.tap is None
            &&& exists|copy: TerminalState<E>| #[trigger]
                signal::same_end(end, copy) && feed.backlog@ == next_notices::<T, E>(
                    subject.retained(),
                ).push(signal::notice(signal::announcement(copy)))
        },
        None => {
            &&& feed.backlog@ == next_notices::<T, E>(subject.retained())
            &&& feed.tap matches Some(tap)
            &&& tap.origin() == subject.handle()
            &&& tap.missed() == subject.sent()
        },
    }
}

impl<T: Clone, E: Clone, P: SubjectPolicy<T>> Subject<T, E, P> {
    /// Starts a subscription. If the subject already terminated, the stored
    /// terminal signal is part of what is delivered at once, since a receiver
    /// opened now would never see it on the channel. Any items the policy
    /// replays are delivered first, in order.
    pub fn subscribe(&self) -> (feed: Feed<T, E>)
        ensures
            feeds(*self, feed),
            match self.terminal() {
                Some(TerminalState::Error(e)) => feed.tap is None && feed.backlog@.len() > 0 && (
                feed.backlog@.last() matches Signal::Error(copy) && cloned(e, copy)),
                Some(TerminalState::Complete) => feed.tap is None && feed.backlog@.len() > 0
                    && feed.backlog@.last() is Complete,
                None => feed.tap matches Some(tap) && tap.origin() == self.handle() && tap.missed()
                    == self.sent(),
            },
    {
        let mut replay = self.replay();
        let mut backlog: Vec<Signal<T, E>> = Vec::new();
        let ghost held = replay@;
        while replay.len() > 0
            invariant
                backlog@ + next_notices::<T, E>(replay@) == next_notices::<T, E>(held),
            decreases replay.len(),
        {
            let ghost before = replay@;
            let ghost done = backlog@;
            let value = replay.remove(0);
            backlog.push(Signal::Next(value));
            assert(backlog@ + next_notices::<T, E>(replay@) =~= done + next_notices::<T, E>(before));
        }
        assert(backlog@ =~= next_notices::<T, E>(held));
        match self.end() {
            Some(terminal) => {
                backlog.push(terminal.to_signal());
                Feed { backlog, tap: None }
            },
            None => Feed { backlog, tap: Some(self.tap()) },
        }
    }
}

/// What a subscriber is handed for an arrival, and whether delivery stops. It
/// stops after `OnError` and `OnCompleted`, and, without anything being
/// delivered, if the source lags this subscriber, is gone, or the subscription
/// was cancelled.
pub open spec fn delivered<T, E>(inbound: Inbound<T, E>) -> Outcome<Signal<T, E>> {
    match inbound {
        Inbound::Signal(channel_signal) => Outcome {
            emit: seq![signal::notice(channel_signal)],
            stop: signal::ends(channel_signal),
        },
        _ => Outcome::halt(),
    }
}

/// Decides what a subscriber is handed for one arrival.
pub fn deliver<T, E>(inbound: Inbound<T, E>) -> (step: Step<Signal<T, E>>)
    ensures
        step@ == delivered(inbound),
        match inbound {
            Inbound::Signal(Some(Ok(t))) => step.emit@ == seq![Signal::<T, E>::Next(t)]
                && !step.stop,
            Inbound::Signal(Some(Err(e))) => step.emit@ == seq![Signal::<T, E>::Error(e)]
                && step.stop,
            Inbound::Signal(None) => step.emit@ == seq![Signal::<T, E>::Complete] && step.stop,
            _ => step.emit@.len() == 0 && step.stop,
        },
{
    match inbound {
        Inbound::Signal(channel_signal) => {
            let terminal = is_terminal(&channel_signal);
            Step { emit: vec![Signal::from(channel_signal)], stop: terminal }
        },
        _ => Step::halt(),
    }
}

/// The delivery to one subscriber.
pub open spec fn delivery<T, E>() -> spec_fn((), Inbound<T, E>) -> ((), Outcome<Signal<T, E>>) {
    |state: (), inbound: Inbound<T, E>| ((), delivered(inbound))
}

/// A subscriber is handed every signal that arrives, in order, up to and with
/// the first end; nothing that arrives after that reaches it.
pub proof fn law_delivery_follows_source<T, E>(
    signals: Seq<ChannelSignal<T, E>>,
    rest: Seq<Inbound<T, E>>,
)
    requires
        signal::well_ordered(signals),
    ensures
        stage::run(delivery::<T, E>(), (), stage::arrivals(signals) + rest) == if signal::ended(
            signals,
        ) {
            notices(signals)
        } else {
            notices(signals) + stage::run(delivery::<T, E>(), (), rest)
        },
    decreases signals.len(),
{
    let all = stage::arrivals(signals) + rest;
    let after = stage::run(delivery::<T, E>(), (), rest);
    if signals.len() == 0 {
        assert(all =~= rest);
        assert(notices(signals) + after =~= after);
    } else {
        let tail = signals.drop_first();
        assert(all[0] == Inbound::Signal(signals[0]));
        assert(all.drop_first() =~= stage::arrivals(tail) + rest);
        if signals.len() == 1 {
            assert(signals.last() == signals[0]);
            assert(tail =~= Seq::empty());
            assert(stage::arrivals(tail) + rest =~= rest);
            assert(notices(signals) =~= seq![signal::notice(signals[0])]);
        } else {
            assert(!signal::ends(signals[0]));
            assert forall|i: int| 0 <= i < tail.len() - 1 implies !signal::ends(
                #[trigger] tail[i],
            ) by {
                assert(tail[i] == signals[i + 1]);
            }
            law_delivery_follows_source(tail, rest);
            assert(tail.last() == signals.last());
            assert(notices(signals) =~= seq![signal::notice(signals[0])] + notices(tail));
            assert(notices(signals) + after =~= seq![signal::notice(signals[0])] + (notices(tail)
                + after));
        }
    }
}

/// A subscriber that joined while the subject had emitted `missed` sees exactly
/// what the subject emitted afterwards, in order, with the end if there is one;
/// it never sees what it missed. Once the subject has ended, nothing else that
/// could still arrive is delivered.
pub proof fn law_subscriber_sees_what_follows<T: Clone, E: Clone, P: SubjectPolicy<T>>(
    subject: Subject<T, E, P>,
    missed: Seq<ChannelSignal<T, E>>,
    rest: Seq<Inbound<T, E>>,
)
    requires
        subject.wf(),
        missed.is_prefix_of(subject.sent()),
        !signal::ended(missed),
    ensures
        ({
            let seen = subject.sent().skip(missed.len() as int);
            stage::run(delivery::<T, E>(), (), stage::arrivals(seen) + rest)
                == if subject.terminal() is Some {
                notices(seen)
            } else {
                notices(seen) + stage::run(delivery::<T, E>(), (), rest)
            }
        }),
{
    let sent = subject.sent();
    let seen = sent.skip(missed.len() as int);
    assert forall|i: int| 0 <= i < seen.len() - 1 implies !signal::ends(#[trigger] seen[i]) by {
        assert(seen[i] == sent[i + missed.len()]);
    }
    law_delivery_follows_source(seen, rest);
    if seen.len() == 0 {
        assert(missed =~= sent);
    } else {
        assert(seen.last() == sent.last());
    }
}

/// A subscriber that the source outran, whose source is gone, or whose wait was
/// called off gets nothing from then on, no terminal signal either.
pub proof fn law_delivery_stops_silently<T, E>(
    signals: Seq<ChannelSignal<T, E>>,
    break_off: Inbound<T, E>,
    rest: Seq<Inbound<T, E>>,
)
    requires
        signal::well_ordered(signals),
        !signal::ended(signals),
        !(break_off is Signal),
    ensures
        stage::run(delivery::<T, E>(), (), stage::arrivals(signals).push(break_off) + rest)
            == notices(signals),
{
    let tail = seq![break_off] + rest;
    assert(stage::arrivals(signals).push(break_off) + rest =~= stage::arrivals(signals) + tail);
    law_delivery_follows_source(signals, tail);
    assert(stage::run(delivery::<T, E>(), (), tail) =~= Seq::empty());
    assert(notices(signals) + Seq::empty() =~= notices(signals));
}

/// What a subscriber is handed obeys the notification grammar, whatever the
/// source does: nothing follows an `OnError` or `OnCompleted`.
pub proof fn law_delivery_keeps_grammar<T, E>(inbounds: Seq<Inbound<T, E>>)
    ensures
        forall|i: int|
            0 <= i < stage::run(delivery::<T, E>(), (), inbounds).len() - 1 ==> (
            #[trigger] stage::run(delivery::<T, E>(), (), inbounds)[i]) is Next,
    decreases inbounds.len(),
{
    if inbounds.len() > 0 {
        law_delivery_keeps_grammar(inbounds.drop_first());
    }
}

/// Whether delivery goes on: not after the last step, nor after a handler that
/// failed.
pub open spec fn continues(handled: Option<()>, stop: bool) -> bool {
    handled is Some && !stop
}

/// Decides whether delivery goes on, once a subscriber's handler was run on
/// what it was handed. `None` means that the handler failed; `stop` is that of
/// the [`Step`], and false for what is delivered from the backlog of a
/// [`Feed`].
pub fn goes_on(handled: Option<()>, stop: bool) -> (on: bool)
    ensures
        on == continues(handled, stop),
        on <==> handled is Some && !stop,
{
    handled.is_some() && !stop
}

/// The delivery to one subscriber whose handler behaves as `handler`.
pub open spec fn handled_delivery<T, E>(handler: spec_fn(Signal<T, E>) -> Option<()>) -> spec_fn(
    (),
    Inbound<T, E>,
) -> ((), Outcome<Signal<T, E>>) {
    |state: (), inbound: Inbound<T, E>|
        {
            let outcome = delivered(inbound);
            (
                (),
                Outcome {
                    emit: outcome.emit,
                    stop: outcome.emit.len() == 0 || !continues(
                        handler(outcome.emit[0]),
                        outcome.stop,
                    ),
                },
            )
        }
}

/// Everything that a handler is run on, from the backlog and then from what
/// arrives.
pub open spec fn handed<T, E>(
    handler: spec_fn(Signal<T, E>) -> Option<()>,
    backlog: Seq<Signal<T, E>>,
    inbounds: Seq<Inbound<T, E>>,
) -> Seq<Signal<T, E>>
    decreases backlog.len(),
{
    if backlog.len() == 0 {
        stage::run(handled_delivery(handler), (), inbounds)
    } else if continues(handler(backlog[0]), false) {
        seq![backlog[0]] + handed(handler, backlog.drop_first(), inbounds)
    } else {
        seq![backlog[0]]
    }
}

/// A handler that never fails is handed all of the backlog, and then all that
/// is delivered.
pub proof fn law_sound_handler_gets_everything<T, E>(
    handler: spec_fn(Signal<T, E>) -> Option<()>,
    backlog: Seq<Signal<T, E>>,
    inbounds: Seq<Inbound<T, E>>,
)
    requires
        forall|signal: Signal<T, E>| (#[trigger] handler(signal)) is Some,
    ensures
        handed(handler, backlog, inbounds) == backlog + stage::run(
            delivery::<T, E>(),
            (),
            inbounds,
        ),
    decreases backlog.len(), inbounds.len(),
{
    let all = stage::run(delivery::<T, E>(), (), inbounds);
    if backlog.len() == 0 {
        if inbounds.len() > 0 {
            law_sound_handler_gets_everything(handler, backlog, inbounds.drop_first());
            let rest = stage::run(delivery::<T, E>(), (), inbounds.drop_first());
            assert(backlog + rest =~= rest);
        }
        assert(backlog + all =~= all);
    } else {
        law_sound_handler_gets_everything(handler, backlog.drop_first(), inbounds);
        assert(backlog + all =~= seq![backlog[0]] + (backlog.drop_first() + all));
    }
}

/// A handler that fails is handed nothing after that: neither the rest of the
/// backlog nor anything that arrives.
pub proof fn law_failing_handler_stops_delivery<T, E>(
    handler: spec_fn(Signal<T, E>) -> Option<()>,
    backlog: Seq<Signal<T, E>>,
    values: Seq<T>,
    bad: T,
    rest: Seq<Inbound<T, E>>,
)
    requires
        forall|i: int| 0 <= i < backlog.len() ==> handler(#[trigger] backlog[i]) is Some,
        forall|i: int|
            0 <= i < values.len() ==> handler(Signal::Next(#[trigger] values[i])) is Some,
        handler(Signal::Next(bad)) is None,
    ensures
        handed(handler, backlog, stage::incoming(values.push(bad)) + rest) == backlog
            + next_notices::<T, E>(values.push(bad)),
        forall|more: Seq<Signal<T, E>>, inbounds: Seq<Inbound<T, E>>| #[trigger]
            handed(handler, backlog.push(Signal::Next(bad)) + more, inbounds) == backlog.push(
                Signal::Next(bad),
            ),
    decreases backlog.len(), values.len(),
{
    let inbounds = stage::incoming::<T, E>(values.push(bad)) + rest;
    let last = Signal::<T, E>::Next(bad);
    if backlog.len() == 0 {
        assert(backlog + next_notices::<T, E>(values.push(bad)) =~= next_notices::<T, E>(
            values.push(bad),
        ));
        if values.len() == 0 {
            assert(inbounds[0] == Inbound::Signal(Some(Ok::<T, E>(bad))));
            assert(delivered(inbounds[0]).emit[0] == last);
            assert(handed(handler, backlog, inbounds) =~= next_notices::<T, E>(values.push(bad)));
        } else {
            let tail = values.drop_first();
            assert forall|i: int| 0 <= i < tail.len() implies handler(
                Signal::Next(#[trigger] tail[i]),
            ) is Some by {
                assert(tail[i] == values[i + 1]);
            }
            law_failing_handler_stops_delivery(handler, backlog, tail, bad, rest);
            assert(inbounds[0] == Inbound::Signal(Some(Ok::<T, E>(values[0]))));
            assert(delivered(inbounds[0]).emit[0] == Signal::<T, E>::Next(values[0]));
            assert(inbounds.drop_first() =~= stage::incoming(tail.push(bad)) + rest);
            let later = next_notices::<T, E>(tail.push(bad));
            assert(backlog + later =~= later);
            assert(handed(handler, backlog, inbounds) =~= next_notices::<T, E>(values.push(bad)));
        }
        assert forall|more: Seq<Signal<T, E>>, inbounds: Seq<Inbound<T, E>>| #[trigger]
            handed(handler, backlog.push(last) + more, inbounds) == backlog.push(last) by {
            assert((backlog.push(last) + more)[0] == last);
            assert(backlog.push(last) =~= seq![last]);
        }
    } else {
        let tail = backlog.drop_first();
        assert forall|i: int| 0 <= i < tail.len() implies handler(#[trigger] tail[i]) is Some by {
            assert(tail[i] == backlog[i + 1]);
        }
        law_failing_handler_stops_delivery(handler, tail, values, bad, rest);
        assert(handler(backlog[0]) is Some);
        assert(handed(handler, backlog, inbounds) =~= backlog + next_notices::<T, E>(
            values.push(bad),
        ));
        assert forall|more: Seq<Signal<T, E>>, inbounds: Seq<Inbound<T, E>>| #[trigger]
            handed(handler, backlog.push(last) + more, inbounds) == backlog.push(last) by {
            let all = backlog.push(last) + more;
            assert(all[0] == backlog[0]);
            assert(all.drop_first() =~= tail.push(last) + more);
            assert(handed(handler, tail.push(last) + more, inbounds) == tail.push(last));
            assert(handed(handler, all, inbounds) =~= backlog.push(last));
        }
    }
}

/// How a signal got onto a channel: through its subject, or through a raw
/// handle that [`Subject::sender`] gave out.
pub enum Via {
    /// Through the subject.
    Subject,
    /// Through a raw handle.
    Handle,
}

/// What of all that is on a channel came through its subject.
pub open spec fn through_subject<T, E>(wire: Seq<(Via, ChannelSignal<T, E>)>) -> Seq<ChannelSignal<T, E>>
    decreases wire.len(),
{
    if wire.len() == 0 {
        Seq::empty()
    } else {
        let before = through_subject(wire.drop_last());
        match wire.last().0 {
            Via::Subject => before.push(wire.last().1),
            Via::Handle => before,
        }
    }
}

/// What is sent through a raw handle reaches the receivers that are there, but
/// the subject does not track it: whatever it is, an end too, the subject's
/// record of the channel is what it was. A subject that has not ended itself
/// still emits what comes next, and hands a later subscriber no terminal
/// signal, but a receiver to wait on.
pub proof fn law_raw_sends_leave_no_record<T: Clone, E: Clone, P: SubjectPolicy<T>>(
    subject: Subject<T, E, P>,
    wire: Seq<(Via, ChannelSignal<T, E>)>,
    raw: ChannelSignal<T, E>,
    rest: Seq<Inbound<T, E>>,
    feed: Feed<T, E>,
    value: T,
    after: Subject<T, E, P>,
    result: Result<usize, SendError>,
)
    requires
        subject.wf(),
        subject.terminal() is None,
        through_subject(wire) == subject.sent(),
        feeds(subject, feed),
        subject::emitted(subject, Some(Ok(value)), after, result),
    ensures
        through_subject(wire.push((Via::Handle, raw))) == subject.sent(),
        stage::run(delivery::<T, E>(), (), seq![Inbound::Signal(raw)] + rest).len() > 0,
        stage::run(delivery::<T, E>(), (), seq![Inbound::Signal(raw)] + rest)[0] == signal::notice(
            raw,
        ),
        feed.tap is Some,
        forall|i: int| 0 <= i < feed.backlog@.len() ==> (#[trigger] feed.backlog@[i]) is Next,
        after.sent() == subject.sent().push(Some(Ok(value))),
        after.terminal() is None,
        result != Ok::<usize, SendError>(0),
{
    assert(wire.push((Via::Handle, raw)).drop_last() =~= wire);
    assert((seq![Inbound::Signal(raw)] + rest)[0] == Inbound::Signal(raw));
}

/// A subscriber that joins a subject that has ended is handed the replayed
/// items and then, last of all, the notification of the last signal on the
/// subject's channel: the error where that was an error, a clone of the clone
/// that the subject keeps, the completion where it was one. It has nothing to
/// wait on.
pub proof fn law_late_subscriber_gets_the_end<T: Clone, E: Clone, P: SubjectPolicy<T>>(
    subject: Subject<T, E, P>,
    feed: Feed<T, E>,
)
    requires
        subject.wf(),
        subject.terminal() is Some,
        feeds(subject, feed),
    ensures
        feed.tap is None,
        feed.backlog@.len() == subject.retained().len() + 1,
        forall|i: int|
            0 <= i < subject.retained().len() ==> #[trigger] feed.backlog@[i] == Signal::<
                T,
                E,
            >::Next(subject.retained()[i]),
        subject.sent().len() > 0,
        match subject.sent()[subject.sent().len() - 1] {
            Some(Ok(_)) => false,
            Some(Err(e)) => feed.backlog@.last() matches Signal::Error(copy) && exists|kept: E| #[trigger]
                cloned(e, kept) && cloned(kept, copy),
            None => feed.backlog@.last() == Signal::<T, E>::Complete,
        },
{
    subject::law_memory_agrees_with_the_channel(subject);
    let end = subject.terminal()->0;
    let copy = choose|copy: TerminalState<E>| #[trigger]
        signal::same_end(end, copy) && feed.backlog@ == next_notices::<T, E>(
            subject.retained(),
        ).push(signal::notice(signal::announcement(copy)));
    assert(signal::same_end(end, copy));
}

/// A subscriber that joins a subject that has not ended is handed the replayed
/// items, no end, and a receiver of the subject's channel that has missed what
/// was sent before and nothing else.
pub proof fn law_early_subscriber_gets_a_receiver<T: Clone, E: Clone, P: SubjectPolicy<T>>(
    subject: Subject<T, E, P>,
    feed: Feed<T, E>,
)
    requires
        subject.terminal() is None,
        feeds(subject, feed),
    ensures
        feed.tap matches Some(tap) && tap.origin() == subject.handle() && tap.missed()
            == subject.sent(),
        feed.backlog@.len() == subject.retained().len(),
        forall|i: int|
            0 <= i < subject.retained().len() ==> #[trigger] feed.backlog@[i] == Signal::<
                T,
                E,
            >::Next(subject.retained()[i]),
{
}

/// From an emission to the late subscriber: whoever joins after `OnError` or
/// `OnCompleted` was emitted on a live subject is handed just that end, last.
pub proof fn law_emitted_end_reaches_late_subscriber<T: Clone, E: Clone, P: SubjectPolicy<T>>(
    before: Subject<T, E, P>,
    signal: ChannelSignal<T, E>,
    after: Subject<T, E, P>,
    result: Result<usize, SendError>,
    feed: Feed<T, E>,
)
    requires
        before.terminal() is None,
        subject::emitted(before, signal, after, result),
        !(signal matches Some(Ok(_))),
        after.wf(),
        feeds(after, feed),
    ensures
        feed.tap is None,
        feed.backlog@.len() > 0,
        signal matches Some(Err(e)) ==> (feed.backlog@.last() matches Signal::Error(copy)
            && exists|kept: E| #[trigger] cloned(e, kept) && cloned(kept, copy)),
        signal is None ==> feed.backlog@.last() == Signal::<T, E>::Complete,
{
    subject::law_end_is_remembered(before, signal, after, result);
    law_late_subscriber_gets_the_end(after, feed);
    assert(after.sent().last() == signal);
}

/// What a subscriber is handed for one arrival: a value as `Next`, an error as
/// `Error` and a completion as `Complete`, the latter two as the last thing it
/// is handed; for anything else nothing, and delivery stops.
pub proof fn law_delivery_is_one_for_one<T, E>(inbound: Inbound<T, E>)
    ensures
        match inbound {
            Inbound::Signal(Some(Ok(t))) => delivered(inbound).emit == seq![
                Signal::<T, E>::Next(t),
            ] && !delivered(inbound).stop,
            Inbound::Signal(Some(Err(e))) => delivered(inbound).emit == seq![
                Signal::<T, E>::Error(e),
            ] && delivered(inbound).stop,
            Inbound::Signal(None) => delivered(inbound).emit == seq![Signal::<T, E>::Complete]
                && delivered(inbound).stop,
            _ => delivered(inbound).emit.len() == 0 && delivered(inbound).stop,
        },
        delivery::<T, E>()((), inbound).1 == delivered(inbound),
{
}

/// Values and signals as notifications: all of them, in order, each as what it
/// is.
pub proof fn law_notices_keep_their_order<T, E>(values: Seq<T>, signals: Seq<ChannelSignal<T, E>>)
    ensures
        next_notices::<T, E>(values).len() == values.len(),
        forall|i: int|
            0 <= i < values.len() ==> #[trigger] next_notices::<T, E>(values)[i] == Signal::<
                T,
                E,
            >::Next(values[i]),
        notices(signals).len() == signals.len(),
        forall|i: int|
            0 <= i < signals.len() ==> match signals[i] {
                Some(Ok(t)) => #[trigger] notices(signals)[i] == Signal::<T, E>::Next(t),
                Some(Err(e)) => notices(signals)[i] == Signal::<T, E>::Error(e),
                None => notices(signals)[i] == Signal::<T, E>::Complete,
            },
{
}

/// Delivery goes on exactly where the handler did not fail on a step that was
/// not the last.
pub proof fn law_delivery_goes_on_unless_stopped(handled: Option<()>, stop: bool)
    ensures
        continues(handled, stop) <==> handled is Some && !stop,
{
}

/// From a subject to its subscriber: one that joined while `missed` had been
/// sent, and to whom everything that was sent afterwards arrives, is handed
/// that, signal by signal: values as `Next`, the error as `Error`, the
/// completion as `Complete`.
pub proof fn law_subscriber_is_handed_what_was_sent<T: Clone, E: Clone, P: SubjectPolicy<T>>(
    subject: Subject<T, E, P>,
    missed: Seq<ChannelSignal<T, E>>,
    outcomes: Seq<Outcome<Signal<T, E>>>,
)
    requires
        subject.wf(),
        missed.is_prefix_of(subject.sent()),
        outcomes.len() == subject.sent().len() - missed.len(),
        forall|i: int|
            0 <= i < outcomes.len() ==> #[trigger] outcomes[i] == delivered(
                Inbound::Signal(subject.sent()[missed.len() + i]),
            ),
    ensures
        forall|i: int|
            0 <= i < outcomes.len() ==> match subject.sent()[missed.len() + i] {
                Some(Ok(t)) => (#[trigger] outcomes[i]).emit == seq![Signal::<T, E>::Next(t)]
                    && !outcomes[i].stop,
                Some(Err(e)) => outcomes[i].emit == seq![Signal::<T, E>::Error(e)]
                    && outcomes[i].stop && i == outcomes.len() - 1,
                None => outcomes[i].emit == seq![Signal::<T, E>::Complete] && outcomes[i].stop && i
                    == outcomes.len() - 1,
            },
{
    subject::law_memory_agrees_with_the_channel(subject);
    assert forall|i: int| 0 <= i < outcomes.len() implies match subject.sent()[missed.len() + i] {
        Some(Ok(t)) => (#[trigger] outcomes[i]).emit == seq![Signal::<T, E>::Next(t)]
            && !outcomes[i].stop,
        Some(Err(e)) => outcomes[i].emit == seq![Signal::<T, E>::Error(e)] && outcomes[i].stop && i
            == outcomes.len() - 1,
        None => outcomes[i].emit == seq![Signal::<T, E>::Complete] && outcomes[i].stop && i
            == outcomes.len() - 1,
    } by {
        law_delivery_is_one_for_one(Inbound::Signal(subject.sent()[missed.len() + i]));
    }
}

} // verus!
