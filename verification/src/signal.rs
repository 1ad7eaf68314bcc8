use vstd::prelude::*;
use vstd::std_specs::convert::FromSpecImpl;

verus! {

/// The encoding of a notification on a subject's channel.
///
/// - `Some(Ok(t))`: `OnNext`, deliver `t`.
/// - `Some(Err(e))`: `OnError`, terminal.
/// - `None`: `OnCompleted`, terminal.
pub type ChannelSignal<T, E> = Option<Result<T, E>>;

/// Whether a channel signal ends the sequence.
pub open spec fn ends<T, E>(channel_signal: ChannelSignal<T, E>) -> bool {
    !(channel_signal matches Some(Ok(_)))
}

/// The notification grammar: any number of `OnNext`, then at most one
/// `OnError` or `OnCompleted`, then nothing.
pub open spec fn well_ordered<T, E>(signals: Seq<ChannelSignal<T, E>>) -> bool {
    forall|i: int| 0 <= i < signals.len() - 1 ==> !ends(#[trigger] signals[i])
}

/// Whether a sequence of channel signals has come to its end.
pub open spec fn ended<T, E>(signals: Seq<ChannelSignal<T, E>>) -> bool {
    signals.len() > 0 && ends(signals.last())
}

/// The values of `values` as `OnNext` channel signals.
pub open spec fn nexts<T, E>(values: Seq<T>) -> Seq<ChannelSignal<T, E>> {
    values.map_values(|t: T| Some(Ok::<T, E>(t)))
}

/// Returns whether a channel signal ends the sequence (`OnError` or `OnCompleted`).
pub fn is_terminal<T, E>(channel_signal: &ChannelSignal<T, E>) -> (terminal: bool)
    ensures
        terminal == ends(*channel_signal),
        terminal <==> !(*channel_signal matches Some(Ok(_))),
{
    matches!(channel_signal, None | Some(Err(_)))
}

/// How a sequence ended: it errored, or it completed. Never stands for
/// `OnNext`, so "has it ended, and how?" is an `Option<TerminalState<E>>`.
pub enum TerminalState<E> {
    /// The sequence ended with an error.
    Error(E),
    /// The sequence ended successfully.
    Complete,
}

/// The channel signal that announces `terminal`.
pub open spec fn announcement<T, E>(terminal: TerminalState<E>) -> ChannelSignal<T, E> {
    match terminal {
        TerminalState::Error(e) => Some(Err(e)),
        TerminalState::Complete => None,
    }
}

/// Whether `copy` ends a sequence as `terminal` does, its error being a clone.
pub open spec fn same_end<E: Clone>(terminal: TerminalState<E>, copy: TerminalState<E>) -> bool {
    match terminal {
        TerminalState::Error(e) => copy matches TerminalState::Error(c) && cloned(e, c),
        TerminalState::Complete => copy is Complete,
    }
}

impl<E: Clone> Clone for TerminalState<E> {
    fn clone(&self) -> (copy: Self)
        ensures
            same_end(*self, copy),
    {
        match self {
            TerminalState::Error(e) => TerminalState::Error(e.clone()),
            TerminalState::Complete => TerminalState::Complete,
        }
    }
}

impl<E: Clone> TerminalState<E> {
    /// The channel signal that announces this end.
    pub fn to_channel_signal<T>(&self) -> (channel_signal: ChannelSignal<T, E>)
        ensures
            exists|copy: TerminalState<E>|
                #[trigger] same_end(*self, copy) && channel_signal == announcement::<T, E>(copy),
            match *self {
                TerminalState::Error(e) => channel_signal matches Some(Err(copy)) && cloned(e, copy),
                TerminalState::Complete => channel_signal is None,
            },
    {
        match self {
            TerminalState::Error(e) => {
                let copy = e.clone();
                assert(same_end(*self, TerminalState::Error(copy)));
                Some(Err(copy))
            },
            TerminalState::Complete => {
                assert(same_end(*self, TerminalState::Complete));
                None
            },
        }
    }

    /// The notification that a subscriber receives for this end.
    pub fn to_signal<T>(&self) -> (signal: Signal<T, E>)
        ensures
            exists|copy: TerminalState<E>|
                #[trigger] same_end(*self, copy) && signal == notice(announcement::<T, E>(copy)),
            match *self {
                TerminalState::Error(e) => signal matches Signal::Error(copy) && cloned(e, copy),
                TerminalState::Complete => signal is Complete,
            },
    {
        match self {
            TerminalState::Error(e) => {
                let copy = e.clone();
                assert(same_end(*self, TerminalState::Error(copy)));
                Signal::Error(copy)
            },
            TerminalState::Complete => {
                assert(same_end(*self, TerminalState::Complete));
                Signal::Complete
            },
        }
    }
}

/// A single notification from a `Subject` or `Observable`.
///
/// A sequence emits zero or more [`Signal::Next`] values, then optionally
/// ends with exactly one of [`Signal::Error`] or [`Signal::Complete`];
/// never both, and never another `Next` afterward.
#[derive(Debug, Clone, PartialEq, Eq)]
pub enum Signal<T, E> {
    /// Delivers (emits) the next item in the sequence.
    Next(T),
    /// Terminates (notifies) the sequence with an error.
    Error(E),
    /// Terminates (notifies) the sequence successfully.
    Complete,
}

/// The notification that a channel signal stands for.
pub open spec fn notice<T, E>(channel_signal: ChannelSignal<T, E>) -> Signal<T, E> {
    match channel_signal {
        Some(Ok(t)) => Signal::Next(t),
        Some(Err(e)) => Signal::Error(e),
        None => Signal::Complete,
    }
}

impl<T, E> From<ChannelSignal<T, E>> for Signal<T, E> {
    fn from(channel_signal: ChannelSignal<T, E>) -> (signal: Self) {
        match channel_signal {
            Some(Ok(t)) => Signal::Next(t),
            Some(Err(e)) => Signal::Error(e),
            None => Signal::Complete,
        }
    }
}

impl<T, E> FromSpecImpl<ChannelSignal<T, E>> for Signal<T, E> {
    open spec fn obeys_from_spec() -> bool {
        true
    }

    open spec fn from_spec(channel_signal: ChannelSignal<T, E>) -> Self {
        notice(channel_signal)
    }
}

/// Exactly the signals that are no `OnNext` are terminal, and the way a
/// sequence ended is announced by one of them, to the channel and to a
/// subscriber alike.
pub proof fn law_ends_are_announced<T, E>(
    channel_signal: ChannelSignal<T, E>,
    terminal: TerminalState<E>,
)
    ensures
        ends(channel_signal) <==> !(notice(channel_signal) is Next),
        ends(channel_signal) <==> exists|end: TerminalState<E>|
            channel_signal == #[trigger] announcement::<T, E>(end),
        notice(announcement::<T, E>(terminal)) == match terminal {
            TerminalState::Error(e) => Signal::<T, E>::Error(e),
            TerminalState::Complete => Signal::<T, E>::Complete,
        },
{
    match channel_signal {
        Some(Err(e)) => {
            assert(channel_signal == announcement::<T, E>(TerminalState::Error(e)));
        },
        None => {
            assert(channel_signal == announcement::<T, E>(TerminalState::Complete));
        },
        _ => {},
    }
}

/// The three channel signals: a value does not end a sequence and is handed to
/// a subscriber as a value, an error and a completion do end it and are handed
/// on as what they are, the error with them.
pub proof fn law_signals_keep_their_meaning<T, E>(value: T, error: E)
    ensures
        !ends(Some(Ok::<T, E>(value))),
        ends(Some(Err::<T, E>(error))),
        ends(None::<Result<T, E>>),
        notice(Some(Ok::<T, E>(value))) == Signal::<T, E>::Next(value),
        notice(Some(Err::<T, E>(error))) == Signal::<T, E>::Error(error),
        notice(None::<Result<T, E>>) == Signal::<T, E>::Complete,
        announcement::<T, E>(TerminalState::Error(error)) == Some(Err::<T, E>(error)),
        announcement::<T, E>(TerminalState::Complete) == None::<Result<T, E>>,
{
}

/// A copy of an end is an end of the same kind, and the error in it is a clone.
pub proof fn law_copies_end_alike<E: Clone>(terminal: TerminalState<E>, copy: TerminalState<E>)
    ensures
        same_end(terminal, copy) <==> match (terminal, copy) {
            (TerminalState::Error(e), TerminalState::Error(c)) => cloned(e, c),
            (TerminalState::Complete, TerminalState::Complete) => true,
            _ => false,
        },
{
}

/// A sequence obeys the grammar exactly if whatever is followed by anything is
/// a value, and has come to its end exactly if the last thing in it is none.
pub proof fn law_grammar_is_values_then_an_end<T, E>(signals: Seq<ChannelSignal<T, E>>)
    ensures
        well_ordered(signals) <==> forall|i: int|
            0 <= i && i + 1 < signals.len() ==> (#[trigger] signals[i] matches Some(Ok(_))),
        ended(signals) <==> signals.len() > 0 && !(signals[signals.len() - 1] matches Some(Ok(_))),
{
    if well_ordered(signals) {
        assert forall|i: int| 0 <= i && i + 1 < signals.len() implies (
        #[trigger] signals[i] matches Some(Ok(_))) by {
            assert(!ends(signals[i]));
        }
    }
}

/// Values as channel signals: all of them, in order, each as it is.
pub proof fn law_nexts_carry_the_values<T, E>(values: Seq<T>)
    ensures
        nexts::<T, E>(values).len() == values.len(),
        forall|i: int|
            0 <= i < values.len() ==> #[trigger] nexts::<T, E>(values)[i] == Some(
                Ok::<T, E>(values[i]),
            ),
{
}

} // verus!
