use tokio::sync::broadcast;
use vstd::prelude::*;

use crate::channel::{Channel, Tap};
use crate::error;
use crate::error::{report, SendError};
use crate::policy::{NoReplay, SubjectPolicy};
use crate::signal;
use crate::signal::{ChannelSignal, TerminalState};

verus! {

/// Whether a subject has already ended, and what its policy holds for replay.
struct SubjectState<E, Buf> {
    terminal: Option<TerminalState<E>>,
    buffer: Buf,
}

/// Returned by [`Subject::snapshot`]: replayed items (none under the default
/// [`NoReplay`] policy) plus either a receiver opened before anything further
/// is emitted, or the way the subject already ended; a receiver opened now
/// would never see that, since a broadcast channel doesn't replay history.
#[verifier::reject_recursive_types(T)]
#[verifier::reject_recursive_types(E)]
pub enum SourceSnapshot<T, E> {
    /// The subject may still emit.
    Live {
        /// What to deliver first, in order.
        replay: Vec<T>,
        /// Where everything emitted from now on arrives.
        tap: Tap<T, E>,
    },
    /// The subject has ended.
    Terminated {
        /// What to deliver first, in order.
        replay: Vec<T>,
        /// How it ended.
        terminal: TerminalState<E>,
    },
}

/// A hot observable: values are emitted regardless of subscriber count, and
/// late subscribers miss earlier items.
///
/// Once terminated (via [`error`](Subject::error) or
/// [`complete`](Subject::complete)), a `Subject` remembers it: further
/// emissions are ignored, and any subscriber that subscribes afterward
/// immediately receives the stored terminal signal.
///
/// Emitting takes `&mut self`: whoever shares a subject between threads puts
/// it behind one lock, so that nothing can end (or emit) between the check of
/// the terminal state and the send or subscription that follows it.
#[verifier::reject_recursive_types(T)]
#[verifier::reject_recursive_types(E)]
pub struct Subject<T, E, P: SubjectPolicy<T> = NoReplay> {
    channel: Channel<T, E>,
    state: SubjectState<E, P::Buffer>,
}

/// Whether `terminal` is what a subject remembers of having emitted `signal`.
pub open spec fn remembers<T, E: Clone>(
    signal: ChannelSignal<T, E>,
    terminal: TerminalState<E>,
) -> bool {
    match signal {
        Some(Ok(_)) => false,
        Some(Err(e)) => terminal matches TerminalState::Error(copy) && cloned(e, copy),
        None => terminal is Complete,
    }
}

/// What is held for replay once `signal` was accepted.
pub open spec fn held_after<T, E, P: SubjectPolicy<T>>(
    held: Seq<T>,
    signal: ChannelSignal<T, E>,
) -> Seq<T> {
    match signal {
        Some(Ok(t)) => P::retain(held, t),
        _ => held,
    }
}

impl<T: Clone, E: Clone, P: SubjectPolicy<T>> Subject<T, E, P> {
    /// The broadcast channel that this subject emits on.
    pub closed spec fn handle(self) -> broadcast::Sender<ChannelSignal<T, E>> {
        self.channel.handle()
    }

    /// The capacity that this subject's channel was opened with.
    pub closed spec fn capacity(self) -> usize {
        self.channel.capacity()
    }

    /// Everything that this subject has put on its channel, in order.
    pub closed spec fn sent(self) -> Seq<ChannelSignal<T, E>> {
        self.channel.sent()
    }

    /// What the channel answered each time, in order: how many receivers it
    /// had, or the signal itself where it had none.
    pub closed spec fn answers(self) -> Seq<Result<usize, ChannelSignal<T, E>>> {
        self.channel.answers()
    }

    /// How this subject ended, if it has.
    pub closed spec fn terminal(self) -> Option<TerminalState<E>> {
        self.state.terminal
    }

    /// What is held for replay.
    pub closed spec fn retained(self) -> Seq<T> {
        P::retained(self.state.buffer)
    }

    /// The remembered end agrees with what is on the channel, and what is on
    /// the channel obeys the notification grammar and was answered signal by
    /// signal.
    pub open spec fn wf(self) -> bool {
        &&& self.answers().len() == self.sent().len()
        &&& signal::well_ordered(self.sent())
        &&& self.terminal() is Some <==> signal::ended(self.sent())
        &&& self.terminal() matches Some(terminal) ==> remembers(self.sent().last(), terminal)
    }

    /// Creates a new hot `Subject` with the given channel capacity.
    #[must_use]
    pub fn new(capacity: usize) -> (subject: Self)
        requires
            0 < capacity <= usize::MAX / 2,
        ensures
            subject.wf(),
            subject.capacity() == capacity,
            subject.sent() == Seq::<ChannelSignal<T, E>>::empty(),
            subject.terminal() is None,
            subject.retained() == Seq::<T>::empty(),
    {
        Subject {
            channel: Channel::open(capacity),
            state: SubjectState { terminal: None, buffer: P::empty() },
        }
    }

    /// Emits `OnNext(value)` to all current subscribers.
    ///
    /// Returns the number of subscribers the value was delivered to, or
    /// `Ok(0)` without sending anything if this subject already terminated.
    ///
    /// # Errors
    /// Returns [`SendError::NoReceivers`] if there are no active subscribers.
    pub fn next(&mut self, value: T) -> (result: Result<usize, SendError>)
        requires
            old(self).wf(),
        ensures
            final(self).wf(),
            emitted(*old(self), Some(Ok(value)), *final(self), result),
            old(self).terminal() is None ==> final(self).terminal() is None,
            old(self).terminal() is None ==> match final(self).answers().last() {
                Ok(receivers) => result == Ok::<usize, SendError>(receivers),
                Err(_) => result == Err::<usize, SendError>(SendError::NoReceivers),
            },
            old(self).terminal() is Some ==> result == Ok::<usize, SendError>(0),
    {
        self.send(Some(Ok(value)))
    }

    /// Emits `OnError(err)`, terminating the sequence for all subscribers.
    ///
    /// A no-op (returns `Ok(0)`) if this subject already terminated.
    ///
    /// # Errors
    /// Returns [`SendError::NoReceivers`] if there are no active subscribers.
    pub fn error(&mut self, err: E) -> (result: Result<usize, SendError>)
        requires
            old(self).wf(),
        ensures
            final(self).wf(),
            emitted(*old(self), Some(Err(err)), *final(self), result),
            old(self).terminal() is None ==> (final(self).terminal() matches Some(
                TerminalState::Error(copy),
            ) && cloned(err, copy)),
            old(self).terminal() is None ==> match final(self).answers().last() {
                Ok(receivers) => result == Ok::<usize, SendError>(receivers),
                Err(_) => result == Err::<usize, SendError>(SendError::NoReceivers),
            },
            old(self).terminal() is Some ==> result == Ok::<usize, SendError>(0),
    {
        self.send(Some(Err(err)))
    }

    /// Emits `OnCompleted`, terminating the sequence for all subscribers.
    ///
    /// A no-op (returns `Ok(0)`) if this subject already terminated.
    ///
    /// # Errors
    /// Returns [`SendError::NoReceivers`] if there are no active subscribers.
    pub fn complete(&mut self) -> (result: Result<usize, SendError>)
        requires
            old(self).wf(),
        ensures
            final(self).wf(),
            emitted(*old(self), None, *final(self), result),
            old(self).terminal() is None ==> final(self).terminal() == Some(
                TerminalState::<E>::Complete,
            ),
            old(self).terminal() is None ==> match final(self).answers().last() {
                Ok(receivers) => result == Ok::<usize, SendError>(receivers),
                Err(_) => result == Err::<usize, SendError>(SendError::NoReceivers),
            },
            old(self).terminal() is Some ==> result == Ok::<usize, SendError>(0),
    {
        self.send(None)
    }

    /// Emits a channel signal, updating the terminal state first. An end is
    /// remembered also where nobody is listening.
    pub fn send(&mut self, channel_signal: ChannelSignal<T, E>) -> (result: Result<
        usize,
        SendError,
    >)
        requires
            old(self).wf(),
        ensures
            final(self).wf(),
            emitted(*old(self), channel_signal, *final(self), result),
            old(self).terminal() is None ==> match channel_signal {
                Some(Ok(_)) => final(self).terminal() is None,
                Some(Err(e)) => final(self).terminal() matches Some(TerminalState::Error(copy))
                    && cloned(e, copy),
                None => final(self).terminal() == Some(TerminalState::<E>::Complete),
            },
            old(self).terminal() is None ==> match final(self).answers().last() {
                Ok(receivers) => result == Ok::<usize, SendError>(receivers),
                Err(_) => result == Err::<usize, SendError>(SendError::NoReceivers),
            },
            old(self).terminal() is Some ==> result == Ok::<usize, SendError>(0),
    {
        if self.state.terminal.is_some() {
            // Already terminated: further emissions are ignored.
            return Ok(0);
        }
        match &channel_signal {
            Some(Ok(t)) => P::record(&mut self.state.buffer, t),
            Some(Err(e)) => self.state.terminal = Some(TerminalState::Error(e.clone())),
            None => self.state.terminal = Some(TerminalState::Complete),
        }
        report(self.channel.send(channel_signal))
    }

    /// Returns another handle on the underlying channel, for direct use
    /// instead of [`next`](Subject::next)/[`error`](Subject::error)/
    /// [`complete`](Subject::complete).
    ///
    /// Sending through it bypasses this subject's terminal-state tracking: a
    /// subscriber that subscribes after a terminal signal was sent this way
    /// isn't told that the subject ended.
    #[must_use]
    pub fn sender(&self) -> (sender: broadcast::Sender<ChannelSignal<T, E>>)
        ensures
            sender == self.handle(),
    {
        self.channel.sender()
    }

    /// What to replay to a subscriber joining right now.
    pub(crate) fn replay(&self) -> (values: Vec<T>)
        ensures
            values@ == self.retained(),
    {
        P::replay(&self.state.buffer)
    }

    /// How this subject ended, if it has.
    pub(crate) fn end(&self) -> (end: Option<&TerminalState<E>>)
        ensures
            match end {
                Some(terminal) => self.terminal() == Some(*terminal),
                None => self.terminal() is None,
            },
    {
        self.state.terminal.as_ref()
    }

    /// Opens a receiver for what this subject emits from now on.
    pub(crate) fn tap(&self) -> (tap: Tap<T, E>)
        ensures
            tap.origin() == self.handle(),
            tap.missed() == self.sent(),
    {
        self.channel.tap()
    }

    /// Returns replayed items plus either a live receiver, or the way this
    /// subject already ended.
    pub fn snapshot(&self) -> (snapshot: SourceSnapshot<T, E>)
        ensures
            captures(*self, snapshot),
            match self.terminal() {
                Some(TerminalState::Error(e)) => snapshot matches SourceSnapshot::Terminated {
                    terminal: TerminalState::Error(copy),
                    ..
                } && cloned(e, copy),
                Some(TerminalState::Complete) => snapshot matches SourceSnapshot::Terminated {
                    terminal: TerminalState::Complete,
                    ..
                },
                None => snapshot matches SourceSnapshot::Live { tap, .. } && tap.origin()
                    == self.handle() && tap.missed() == self.sent(),
            },
    {
        let replay = P::replay(&self.state.buffer);
        match &self.state.terminal {
            Some(terminal) => SourceSnapshot::Terminated { replay, terminal: terminal.clone() },
            None => SourceSnapshot::Live { replay, tap: self.channel.tap() },
        }
    }
}

/// What emitting `signal` does to a subject and returns. A subject that has
/// ended is left alone, and `Ok(0)` comes back. Otherwise the signal goes on
/// the channel, an `OnNext` value is recorded by the policy, an end is
/// remembered, and the result is what the channel answered: a count of
/// receivers that is not zero, or that there are none.
pub open spec fn emitted<T: Clone, E: Clone, P: SubjectPolicy<T>>(
    before: Subject<T, E, P>,
    signal: ChannelSignal<T, E>,
    after: Subject<T, E, P>,
    result: Result<usize, SendError>,
) -> bool {
    if before.terminal() is Some {
        &&& after == before
        &&& result == Ok::<usize, SendError>(0)
    } else {
        &&& after.handle() == before.handle()
        &&& after.capacity() == before.capacity()
        &&& after.sent() == before.sent().push(signal)
        &&& after.retained() == held_after::<T, E, P>(before.retained(), signal)
        &&& match after.terminal() {
            Some(terminal) => remembers(signal, terminal),
            None => !signal::ends(signal),
        }
        &&& after.answers() == before.answers().push(after.answers().last())
        &&& result == error::reported(after.answers().last())
        &&& match after.answers().last() {
            Ok(receivers) => receivers > 0,
            Err(returned) => returned == signal,
        }
    }
}

/// What a snapshot says of the subject that it was taken of.
pub open spec fn captures<T: Clone, E: Clone, P: SubjectPolicy<T>>(
    subject: Subject<T, E, P>,
    snapshot: SourceSnapshot<T, E>,
) -> bool {
    match snapshot {
        SourceSnapshot::Live { replay, tap } => {
            &&& subject.terminal() is None
            &&& replay@ == subject.retained()
            &&& tap.origin() == subject.handle()
            &&& tap.missed() == subject.sent()
        },
        SourceSnapshot::Terminated { replay, terminal } => {
            &&& subject.terminal() matches Some(end)
            &&& replay@ == subject.retained()
            &&& signal::same_end(end, terminal)
        },
    }
}

/// The notification grammar: whatever was done to a subject, what it has put
/// on its channel is any number of `OnNext`, then at most one `OnError` or
/// `OnCompleted`, and it has ended exactly if there is one.
pub proof fn law_subject_keeps_grammar<T: Clone, E: Clone, P: SubjectPolicy<T>>(
    subject: Subject<T, E, P>,
)
    requires
        subject.wf(),
    ensures
        forall|i: int|
            0 <= i < subject.sent().len() && signal::ends(#[trigger] subject.sent()[i]) ==> i
                == subject.sent().len() - 1,
        subject.terminal() is Some <==> exists|i: int|
            0 <= i < subject.sent().len() && signal::ends(#[trigger] subject.sent()[i]),
{
    let sent = subject.sent();
    if subject.terminal() is Some {
        assert(signal::ends(sent[sent.len() - 1]));
    }
}

/// Once a subject has ended, whatever is emitted on it any number of times
/// changes nothing and is answered with `Ok(0)`.
pub proof fn law_end_is_final<T: Clone, E: Clone, P: SubjectPolicy<T>>(
    states: Seq<Subject<T, E, P>>,
    signals: Seq<ChannelSignal<T, E>>,
    results: Seq<Result<usize, SendError>>,
)
    requires
        history(states, signals, results),
        states[0].terminal() is Some,
    ensures
        forall|i: int| 0 <= i < states.len() ==> #[trigger] states[i] == states[0],
        forall|i: int|
            0 <= i < results.len() ==> #[trigger] results[i] == Ok::<usize, SendError>(0),
{
    assert forall|i: int| 0 <= i < states.len() implies #[trigger] states[i] == states[0] by {
        lemma_end_is_kept(states, signals, results, i);
    }
    assert forall|i: int| 0 <= i < results.len() implies #[trigger] results[i] == Ok::<
        usize,
        SendError,
    >(0) by {
        lemma_end_is_kept(states, signals, results, i);
        assert(emitted(states[i], signals[i], states[i + 1], results[i]));
    }
}

/// A subject that went through `states` as `signals` were emitted on it, with
/// `results` as the answers.
pub open spec fn history<T: Clone, E: Clone, P: SubjectPolicy<T>>(
    states: Seq<Subject<T, E, P>>,
    signals: Seq<ChannelSignal<T, E>>,
    results: Seq<Result<usize, SendError>>,
) -> bool {
    &&& states.len() == signals.len() + 1
    &&& results.len() == signals.len()
    &&& forall|i: int|
        #![trigger signals[i]]
        0 <= i < signals.len() ==> emitted(states[i], signals[i], states[i + 1], results[i])
}

proof fn lemma_end_is_kept<T: Clone, E: Clone, P: SubjectPolicy<T>>(
    states: Seq<Subject<T, E, P>>,
    signals: Seq<ChannelSignal<T, E>>,
    results: Seq<Result<usize, SendError>>,
    i: int,
)
    requires
        history(states, signals, results),
        states[0].terminal() is Some,
        0 <= i < states.len(),
    ensures
        states[i] == states[0],
    decreases i,
{
    if i > 0 {
        lemma_end_is_kept(states, signals, results, i - 1);
        assert(emitted(states[i - 1], signals[i - 1], states[i - 1 + 1], results[i - 1]));
    }
}

/// What a subject has emitted stays as it is and only grows, so that whoever
/// subscribes at some point has missed a prefix of all that is ever emitted.
pub proof fn law_emissions_only_append<T: Clone, E: Clone, P: SubjectPolicy<T>>(
    states: Seq<Subject<T, E, P>>,
    signals: Seq<ChannelSignal<T, E>>,
    results: Seq<Result<usize, SendError>>,
)
    requires
        history(states, signals, results),
    ensures
        states[0].sent().is_prefix_of(states.last().sent()),
    decreases signals.len(),
{
    if signals.len() > 0 {
        let fewer = signals.drop_last();
        assert forall|i: int| #![trigger fewer[i]] 0 <= i < fewer.len() implies emitted(
            states.drop_last()[i],
            fewer[i],
            states.drop_last()[i + 1],
            results.drop_last()[i],
        ) by {
            assert(emitted(states[i], signals[i], states[i + 1], results[i]));
        }
        law_emissions_only_append(states.drop_last(), fewer, results.drop_last());
        let last = signals.len() - 1;
        assert(emitted(states[last], signals[last], states[last + 1], results[last]));
        let before = states.drop_last().last().sent();
        let after = states.last().sent();
        assert(before.is_prefix_of(after));
        assert(states[0].sent() =~= before.take(states[0].sent().len() as int));
        assert(states[0].sent() =~= after.take(states[0].sent().len() as int));
    } else {
        assert(states[0] == states.last());
    }
}

/// Under the default policy nothing is ever held for replay.
pub proof fn law_no_replay_holds_nothing<T: Clone, E: Clone>(subject: Subject<T, E>)
    ensures
        subject.retained() == Seq::<T>::empty(),
{
}

/// Emitting on a subject that has not ended puts the signal, as it is, behind
/// all that is on its channel, and nothing else.
pub proof fn law_emission_reaches_the_channel<T: Clone, E: Clone, P: SubjectPolicy<T>>(
    before: Subject<T, E, P>,
    signal: ChannelSignal<T, E>,
    after: Subject<T, E, P>,
    result: Result<usize, SendError>,
)
    requires
        emitted(before, signal, after, result),
        before.terminal() is None,
    ensures
        after.handle() == before.handle(),
        after.capacity() == before.capacity(),
        after.sent().len() == before.sent().len() + 1,
        after.sent()[before.sent().len() as int] == signal,
        forall|i: int|
            0 <= i < before.sent().len() ==> #[trigger] after.sent()[i] == before.sent()[i],
        signal matches Some(Ok(value)) ==> after.retained() == P::retain(before.retained(), value),
        !(signal matches Some(Ok(_))) ==> after.retained() == before.retained(),
{
}

/// Emitting on a subject that has not ended asks the channel once, and reports
/// what it answered: a count of receivers exactly where the channel gave that
/// count, which is not zero, and that there are no receivers exactly where the
/// channel handed the signal back.
pub proof fn law_emission_reports_the_answer<T: Clone, E: Clone, P: SubjectPolicy<T>>(
    before: Subject<T, E, P>,
    signal: ChannelSignal<T, E>,
    after: Subject<T, E, P>,
    result: Result<usize, SendError>,
)
    requires
        emitted(before, signal, after, result),
        before.terminal() is None,
    ensures
        after.answers().len() == before.answers().len() + 1,
        forall|i: int|
            0 <= i < before.answers().len() ==> #[trigger] after.answers()[i] == before.answers()[i],
        match result {
            Ok(receivers) => receivers > 0 && after.answers()[before.answers().len() as int] == Ok::<
                usize,
                ChannelSignal<T, E>,
            >(receivers),
            Err(_) => after.answers()[before.answers().len() as int] == Err::<
                usize,
                ChannelSignal<T, E>,
            >(signal),
        },
        match after.answers()[before.answers().len() as int] {
            Ok(receivers) => result == Ok::<usize, SendError>(receivers),
            Err(_) => result == Err::<usize, SendError>(SendError::NoReceivers),
        },
{
}

/// Emitting on a subject that has ended does nothing, and is answered with
/// `Ok(0)`.
pub proof fn law_emission_after_the_end_is_ignored<T: Clone, E: Clone, P: SubjectPolicy<T>>(
    before: Subject<T, E, P>,
    signal: ChannelSignal<T, E>,
    after: Subject<T, E, P>,
    result: Result<usize, SendError>,
)
    requires
        emitted(before, signal, after, result),
        before.terminal() is Some,
    ensures
        after == before,
        result == Ok::<usize, SendError>(0),
{
}

/// A subject remembers how it ended: an error as that error, a clone of it, a
/// completion as a completion; a value ends nothing.
pub proof fn law_end_is_remembered<T: Clone, E: Clone, P: SubjectPolicy<T>>(
    before: Subject<T, E, P>,
    signal: ChannelSignal<T, E>,
    after: Subject<T, E, P>,
    result: Result<usize, SendError>,
)
    requires
        emitted(before, signal, after, result),
        before.terminal() is None,
    ensures
        match signal {
            Some(Ok(_)) => after.terminal() is None,
            Some(Err(e)) => after.terminal() matches Some(TerminalState::Error(copy)) && cloned(
                e,
                copy,
            ),
            None => after.terminal() == Some(TerminalState::<E>::Complete),
        },
{
}

/// What a subject remembers of its end is what the last thing on its channel
/// says: nothing as long as there is none or it is a value, a clone of the
/// error, or the completion.
pub proof fn law_memory_agrees_with_the_channel<T: Clone, E: Clone, P: SubjectPolicy<T>>(
    subject: Subject<T, E, P>,
)
    requires
        subject.wf(),
    ensures
        subject.answers().len() == subject.sent().len(),
        forall|i: int|
            0 <= i && i + 1 < subject.sent().len() ==> (#[trigger] subject.sent()[i] matches Some(
                Ok(_),
            )),
        subject.sent().len() == 0 ==> subject.terminal() is None,
        subject.sent().len() > 0 ==> match subject.sent()[subject.sent().len() - 1] {
            Some(Ok(_)) => subject.terminal() is None,
            Some(Err(e)) => subject.terminal() matches Some(TerminalState::Error(copy)) && cloned(
                e,
                copy,
            ),
            None => subject.terminal() == Some(TerminalState::<E>::Complete),
        },
{
    signal::law_grammar_is_values_then_an_end(subject.sent());
}

/// Everything that is emitted on a new subject gets onto its channel, in order
/// and as it is, up to and with the first error or completion; whatever is
/// emitted after that does not, and is answered with `Ok(0)`.
pub proof fn law_channel_carries_emissions_to_the_end<T: Clone, E: Clone, P: SubjectPolicy<T>>(
    states: Seq<Subject<T, E, P>>,
    signals: Seq<ChannelSignal<T, E>>,
    results: Seq<Result<usize, SendError>>,
    values: int,
)
    requires
        history(states, signals, results),
        states[0].sent().len() == 0,
        states[0].terminal() is None,
        0 <= values <= signals.len(),
        forall|i: int| 0 <= i < values ==> (#[trigger] signals[i] matches Some(Ok(_))),
        values < signals.len() ==> !(signals[values] matches Some(Ok(_))),
    ensures
        values == signals.len() ==> states.last().sent() == signals,
        values < signals.len() ==> states.last().sent() == signals.take(values + 1),
        forall|i: int|
            values < i < results.len() ==> #[trigger] results[i] == Ok::<usize, SendError>(0),
{
    lemma_channel_carries(states, signals, results, values, values);
    if values < signals.len() {
        let late = states.skip(values + 1);
        let more = signals.skip(values + 1);
        let answers = results.skip(values + 1);
        assert(emitted(states[values], signals[values], states[values + 1], results[values]));
        assert forall|i: int| #![trigger more[i]] 0 <= i < more.len() implies emitted(
            late[i],
            more[i],
            late[i + 1],
            answers[i],
        ) by {
            let k = i + values + 1;
            assert(emitted(states[k], signals[k], states[k + 1], results[k]));
        }
        law_end_is_final(late, more, answers);
        assert(late.last() == late[0]);
        assert(late.last() == states.last());
        assert(states[values + 1].sent() =~= signals.take(values + 1));
        assert forall|i: int| values < i < results.len() implies #[trigger] results[i] == Ok::<
            usize,
            SendError,
        >(0) by {
            assert(answers[i - values - 1] == results[i]);
        }
    } else {
        assert(signals.take(values) =~= signals);
    }
}

proof fn lemma_channel_carries<T: Clone, E: Clone, P: SubjectPolicy<T>>(
    states: Seq<Subject<T, E, P>>,
    signals: Seq<ChannelSignal<T, E>>,
    results: Seq<Result<usize, SendError>>,
    values: int,
    i: int,
)
    requires
        history(states, signals, results),
        states[0].sent().len() == 0,
        states[0].terminal() is None,
        0 <= i <= values <= signals.len(),
        forall|j: int| 0 <= j < values ==> (#[trigger] signals[j] matches Some(Ok(_))),
    ensures
        states[i].sent() == signals.take(i),
        states[i].terminal() is None,
    decreases i,
{
    if i > 0 {
        lemma_channel_carries(states, signals, results, values, i - 1);
        assert(emitted(states[i - 1], signals[i - 1], states[i - 1 + 1], results[i - 1]));
        assert(signals.take(i) =~= signals.take(i - 1).push(signals[i - 1]));
    } else {
        assert(states[0].sent() =~= signals.take(0));
    }
}

/// A snapshot of a subject that has not ended has a receiver of its channel,
/// which has missed what was sent before and nothing else; one of a subject
/// that has ended has the subject's own end.
pub proof fn law_snapshot_tells_live_from_ended<T: Clone, E: Clone, P: SubjectPolicy<T>>(
    subject: Subject<T, E, P>,
    snapshot: SourceSnapshot<T, E>,
)
    requires
        captures(subject, snapshot),
    ensures
        match snapshot {
            SourceSnapshot::Live { replay, tap } => {
                &&& subject.terminal() is None
                &&& replay@ == subject.retained()
                &&& tap.origin() == subject.handle()
                &&& tap.missed() == subject.sent()
            },
            SourceSnapshot::Terminated { replay, terminal: TerminalState::Error(copy) } => {
                &&& replay@ == subject.retained()
                &&& subject.terminal() matches Some(TerminalState::Error(e))
                &&& cloned(e, copy)
            },
            SourceSnapshot::Terminated { replay, terminal: TerminalState::Complete } => {
                &&& replay@ == subject.retained()
                &&& subject.terminal() == Some(TerminalState::<E>::Complete)
            },
        },
{
}

} // verus!
