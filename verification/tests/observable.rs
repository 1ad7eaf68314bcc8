use std::cell::Cell;
use std::collections::VecDeque;

use ferx::{
    deliver, is_terminal, panic_message, stream_item, ChannelSignal, Inbound, NoReplay, Observable,
    Signal, SubjectPolicy, TerminalState,
};

type Items = VecDeque<ChannelSignal<i32, String>>;

/// Delivers a sequence as it would be to a subscriber.
fn collect(mut sequence: Items) -> Vec<Signal<i32, String>> {
    let mut store = Vec::new();
    loop {
        let inbound = match sequence.pop_front() {
            Some(signal) => Inbound::Signal(signal),
            None => Inbound::Closed,
        };
        let step = deliver(inbound);
        store.extend(step.emit);
        if step.stop {
            return store;
        }
    }
}

#[test]
fn factory_runs_once_per_subscriber() {
    let calls = Cell::new(0);
    let observable = Observable::new(|| {
        calls.set(calls.get() + 1);
        Items::from(vec![Some(Ok(1)), Some(Ok(2)), None])
    });

    let store_a = collect(observable.subscribe());
    let store_b = collect(observable.subscribe());

    assert_eq!(calls.get(), 2);
    let expected = vec![Signal::Next(1), Signal::Next(2), Signal::Complete];
    assert_eq!(store_a, expected);
    assert_eq!(store_b, expected);
}

#[test]
fn observable_error_terminates_the_sequence() {
    let observable = Observable::new(|| {
        Items::from(vec![
            Some(Ok(1)),
            Some(Err("boom".to_string())),
            Some(Ok(2)),
        ])
    });

    let got = collect(observable.subscribe());

    assert_eq!(
        got,
        vec![Signal::Next(1), Signal::Error("boom".to_string())]
    );
}

#[test]
fn to_stream_interops_with_stream_combinators() {
    let observable = Observable::new(|| Items::from(vec![Some(Ok(1)), Some(Ok(2)), None]));

    let mut state: Option<Items> = observable.to_stream();
    let mut got = Vec::new();
    while let Some(mut sequence) = state {
        let drawn = sequence.pop_front();
        state = match stream_item(sequence, drawn) {
            Some((signal, next)) => {
                got.push(signal);
                next
            }
            None => None,
        };
    }

    assert_eq!(
        got,
        vec![Signal::Next(1), Signal::Next(2), Signal::Complete]
    );
}

#[test]
fn stream_yields_what_a_subscriber_is_handed() {
    let items = vec![Some(Ok(1)), Some(Err("boom".to_string())), Some(Ok(2))];
    let observable = Observable::new(|| Items::from(items.clone()));

    let mut state: Option<Items> = observable.to_stream();
    let mut streamed = Vec::new();
    while let Some(mut sequence) = state.take() {
        let drawn = sequence.pop_front();
        if let Some((signal, next)) = stream_item(sequence, drawn) {
            streamed.push(signal);
            state = next;
        }
    }

    assert_eq!(streamed, collect(observable.subscribe()));
    assert_eq!(streamed.len(), 2);
}

#[test]
fn exhausted_sequence_gets_no_end() {
    let observable = Observable::new(|| Items::from(vec![Some(Ok(1))]));
    assert_eq!(collect(observable.subscribe()), vec![Signal::Next(1)]);
    let sequence = Items::new();
    assert!(stream_item::<i32, String, Items>(sequence, None).is_none());
}

#[test]
fn clone_of_an_observable_shares_the_factory() {
    let calls = Cell::new(0);
    let observable = Observable::new(move || {
        calls.set(calls.get() + 1);
        Items::from(vec![Some(Ok(calls.get())), None])
    });
    let copy = observable.clone();
    assert_eq!(
        collect(observable.subscribe()),
        vec![Signal::Next(1), Signal::Complete]
    );
    assert_eq!(
        collect(copy.subscribe()),
        vec![Signal::Next(2), Signal::Complete]
    );
}

#[test]
fn cancelled_subscription_gets_nothing_more() {
    let step = deliver(Inbound::<i32, String>::Cancelled);
    assert!(step.emit.is_empty());
    assert!(step.stop);
}

#[test]
fn terminal_signals_are_told_apart() {
    assert!(!is_terminal::<i32, String>(&Some(Ok(1))));
    assert!(is_terminal::<i32, String>(&Some(Err("boom".to_string()))));
    assert!(is_terminal::<i32, String>(&None));
}

#[test]
fn terminal_states_are_announced() {
    let error = TerminalState::Error("boom".to_string());
    assert_eq!(
        error.to_channel_signal::<i32>(),
        Some(Err("boom".to_string()))
    );
    assert_eq!(
        error.to_signal::<i32>(),
        Signal::Error("boom".to_string())
    );
    assert_eq!(
        error.clone().to_signal::<i32>(),
        Signal::Error("boom".to_string())
    );
    let complete: TerminalState<String> = TerminalState::Complete;
    assert_eq!(complete.to_channel_signal::<i32>(), None);
    assert_eq!(complete.to_signal::<i32>(), Signal::Complete);
}

#[test]
fn no_replay_replays_nothing() {
    let mut buffer = <NoReplay as SubjectPolicy<i32>>::empty();
    <NoReplay as SubjectPolicy<i32>>::record(&mut buffer, &3);
    assert!(<NoReplay as SubjectPolicy<i32>>::replay(&buffer).is_empty());
}

#[test]
fn panic_payloads_have_a_message() {
    assert_eq!(panic_message(Some("literal"), Some("owned")), "literal");
    assert_eq!(panic_message(None, Some("owned")), "owned");
    assert_eq!(panic_message(None, None), "<non-string panic payload>");
}
