use ferx::{
    deliver, goes_on, report, ChannelSignal, Feed, Inbound, MergeArm, MergeProgress, Piped, SendError, Signal,
    SourceSnapshot, Start, Step, Subject, TerminalState,
};
use tokio::sync::broadcast::error::TryRecvError;
use tokio::sync::broadcast::Receiver;

type Source = Subject<i32, String>;

/// What a receiver finds without waiting.
fn poll(receiver: &mut Receiver<ChannelSignal<i32, String>>) -> Option<Inbound<i32, String>> {
    match receiver.try_recv() {
        Ok(signal) => Some(Inbound::Signal(signal)),
        Err(TryRecvError::Empty) => None,
        Err(TryRecvError::Lagged(missed)) => Some(Inbound::Lagged(missed)),
        Err(TryRecvError::Closed) => Some(Inbound::Closed),
    }
}

/// A subscriber that collects what it is handed.
struct Collector {
    store: Vec<Signal<i32, String>>,
    receiver: Option<Receiver<ChannelSignal<i32, String>>>,
}

impl Collector {
    fn new(feed: Feed<i32, String>) -> Collector {
        Collector {
            store: feed.backlog,
            receiver: feed.tap.map(|tap| tap.into_receiver()),
        }
    }

    fn pump(&mut self) {
        while let Some(receiver) = self.receiver.as_mut() {
            let inbound = match poll(receiver) {
                Some(inbound) => inbound,
                None => return,
            };
            let step = deliver(inbound);
            self.store.extend(step.emit);
            if step.stop {
                self.receiver = None;
            }
        }
    }
}

/// A stage that reads from a source and emits on its output.
struct Stage<F> {
    receiver: Option<Receiver<ChannelSignal<i32, String>>>,
    settled: Option<TerminalState<String>>,
    on_inbound: F,
}

impl<F> Stage<F>
where
    F: FnMut(Inbound<i32, String>) -> Step<ChannelSignal<i32, String>>,
{
    fn new(start: Start<i32, String>, on_inbound: F) -> Stage<F> {
        let (receiver, settled) = match start {
            Start::Settled(terminal) => (None, Some(terminal)),
            Start::Live(tap) => (Some(tap.into_receiver()), None),
        };
        Stage { receiver, settled, on_inbound }
    }

    fn pump(&mut self, out: &mut Source) {
        if let Some(terminal) = self.settled.take() {
            out.conclude(&terminal).ok();
        }
        while let Some(receiver) = self.receiver.as_mut() {
            let inbound = match poll(receiver) {
                Some(inbound) => inbound,
                None => return,
            };
            if out.forward((self.on_inbound)(inbound)) {
                self.receiver = None;
            }
        }
    }

    fn feed(&mut self, inbound: Inbound<i32, String>, out: &mut Source) {
        if out.forward((self.on_inbound)(inbound)) {
            self.receiver = None;
        }
    }
}

#[test]
fn subject_delivers_next_and_complete() {
    let mut subject: Source = Subject::new(16);
    let mut sub = Collector::new(subject.subscribe());

    subject.next(1).unwrap();
    subject.next(2).unwrap();
    subject.complete().unwrap();
    sub.pump();

    assert_eq!(
        sub.store,
        vec![Signal::Next(1), Signal::Next(2), Signal::Complete]
    );
}

#[test]
fn late_subscriber_immediately_receives_stored_completion() {
    let mut subject: Source = Subject::new(16);
    subject.next(1).ok();
    subject.complete().ok();

    let mut sub = Collector::new(subject.subscribe());
    sub.pump();

    assert_eq!(sub.store, vec![Signal::Complete]);
}

#[test]
fn late_subscriber_immediately_receives_stored_error() {
    let mut subject: Source = Subject::new(16);
    subject.error("boom".to_string()).ok();

    let mut sub = Collector::new(subject.subscribe());
    sub.pump();

    assert_eq!(sub.store, vec![Signal::Error("boom".to_string())]);
}

#[test]
fn next_after_termination_is_ignored() {
    let mut subject: Source = Subject::new(16);
    let mut sub = Collector::new(subject.subscribe());

    subject.complete().unwrap();
    subject.next(1).ok();
    sub.pump();

    assert_eq!(sub.store, vec![Signal::Complete]);
}

#[test]
fn map_of_an_already_terminated_source_forwards_immediately() {
    let mut subject: Source = Subject::new(16);
    subject.error("boom".to_string()).ok();

    let Piped { mut out, start, stage } = subject.map(16, |n| Some(n * 2));
    let mut mapped = Stage::new(start, |inbound| stage.on_inbound(inbound));
    let mut sub = Collector::new(out.subscribe());
    mapped.pump(&mut out);
    sub.pump();

    assert_eq!(sub.store, vec![Signal::Error("boom".to_string())]);
}

#[test]
fn subject_error_terminates_the_sequence() {
    let mut subject: Source = Subject::new(16);
    let mut sub = Collector::new(subject.subscribe());

    subject.next(1).unwrap();
    subject.error("boom".to_string()).unwrap();
    subject.next(2).unwrap();
    sub.pump();

    assert_eq!(
        sub.store,
        vec![Signal::Next(1), Signal::Error("boom".to_string())]
    );
}

#[test]
fn map_transforms_next_and_passes_terminal_through() {
    let mut subject: Source = Subject::new(16);
    let Piped { mut out, start, stage } = subject.map(16, |n| Some(n * 10));
    let mut mapped = Stage::new(start, |inbound| stage.on_inbound(inbound));
    let mut sub = Collector::new(out.subscribe());

    subject.next(1).unwrap();
    subject.next(2).unwrap();
    subject.complete().unwrap();
    mapped.pump(&mut out);
    sub.pump();

    assert_eq!(
        sub.store,
        vec![Signal::Next(10), Signal::Next(20), Signal::Complete]
    );
}

#[test]
fn filter_drops_non_matching_and_passes_terminal_through() {
    let mut subject: Source = Subject::new(16);
    let Piped { mut out, start, stage } = subject.filter(16, |n: &i32| Some(n % 2 == 0));
    let mut evens = Stage::new(start, |inbound| stage.on_inbound(inbound));
    let mut sub = Collector::new(out.subscribe());

    for n in 1..=4 {
        subject.next(n).unwrap();
    }
    subject.complete().unwrap();
    evens.pump(&mut out);
    sub.pump();

    assert_eq!(
        sub.store,
        vec![Signal::Next(2), Signal::Next(4), Signal::Complete]
    );
}

#[test]
fn take_stops_after_n_and_synthesizes_complete() {
    let mut subject: Source = Subject::new(16);
    let Piped { mut out, start, mut stage } = subject.take(16, 2);
    let mut taken = Stage::new(start, |inbound| stage.on_inbound(inbound));
    let mut sub = Collector::new(out.subscribe());

    for n in 1..=5 {
        subject.next(n).unwrap();
    }
    subject.complete().unwrap();
    taken.pump(&mut out);
    sub.pump();

    assert_eq!(
        sub.store,
        vec![Signal::Next(1), Signal::Next(2), Signal::Complete]
    );
}

#[test]
fn take_zero_completes_immediately() {
    let subject: Source = Subject::new(16);
    let Piped { mut out, start, mut stage } = subject.take(16, 0);
    let mut taken = Stage::new(start, |inbound| stage.on_inbound(inbound));
    let mut sub = Collector::new(out.subscribe());
    taken.pump(&mut out);
    sub.pump();

    assert_eq!(sub.store, vec![Signal::Complete]);
    assert_eq!(subject.sender().receiver_count(), 0);
}

#[test]
fn take_zero_of_a_failed_source_completes() {
    let mut subject: Source = Subject::new(16);
    subject.error("boom".to_string()).ok();
    let Piped { start, .. } = subject.take(16, 0);
    assert!(matches!(start, Start::Settled(TerminalState::Complete)));
}

#[test]
fn take_of_a_short_source_passes_its_end_through() {
    let mut subject: Source = Subject::new(16);
    let Piped { mut out, start, mut stage } = subject.take(16, 3);
    let mut taken = Stage::new(start, |inbound| stage.on_inbound(inbound));
    let mut sub = Collector::new(out.subscribe());

    subject.next(1).unwrap();
    subject.error("boom".to_string()).unwrap();
    taken.pump(&mut out);
    sub.pump();

    assert_eq!(
        sub.store,
        vec![Signal::Next(1), Signal::Error("boom".to_string())]
    );
}

#[test]
fn take_while_stops_at_first_failing_value() {
    let mut subject: Source = Subject::new(16);
    let Piped { mut out, start, stage } = subject.take_while(16, |n: &i32| Some(*n < 3));
    let mut taken = Stage::new(start, |inbound| stage.on_inbound(inbound));
    let mut sub = Collector::new(out.subscribe());

    for n in 1..=5 {
        subject.next(n).unwrap();
    }
    taken.pump(&mut out);
    sub.pump();

    assert_eq!(
        sub.store,
        vec![Signal::Next(1), Signal::Next(2), Signal::Complete]
    );
}

#[test]
fn take_while_passes_the_end_of_its_source_through() {
    let mut subject: Source = Subject::new(16);
    let Piped { mut out, start, stage } = subject.take_while(16, |n: &i32| Some(*n < 3));
    let mut taken = Stage::new(start, |inbound| stage.on_inbound(inbound));
    let mut sub = Collector::new(out.subscribe());

    subject.next(1).unwrap();
    subject.error("boom".to_string()).unwrap();
    taken.pump(&mut out);
    sub.pump();

    assert_eq!(
        sub.store,
        vec![Signal::Next(1), Signal::Error("boom".to_string())]
    );
}

#[test]
fn skip_drops_first_n_and_forwards_the_rest() {
    let mut subject: Source = Subject::new(16);
    let Piped { mut out, start, mut stage } = subject.skip(16, 2);
    let mut skipped = Stage::new(start, |inbound| stage.on_inbound(inbound));
    let mut sub = Collector::new(out.subscribe());

    for n in 1..=4 {
        subject.next(n).unwrap();
    }
    subject.complete().unwrap();
    skipped.pump(&mut out);
    sub.pump();

    assert_eq!(
        sub.store,
        vec![Signal::Next(3), Signal::Next(4), Signal::Complete]
    );
}

#[test]
fn skip_of_more_than_there_is_leaves_the_end() {
    let mut subject: Source = Subject::new(16);
    let Piped { mut out, start, mut stage } = subject.skip(16, 5);
    let mut skipped = Stage::new(start, |inbound| stage.on_inbound(inbound));
    let mut sub = Collector::new(out.subscribe());

    subject.next(1).unwrap();
    subject.complete().unwrap();
    skipped.pump(&mut out);
    sub.pump();

    assert_eq!(sub.store, vec![Signal::Complete]);
}

#[test]
fn skip_of_nothing_passes_everything() {
    let subject: Source = Subject::new(16);
    let mut stage = subject.skip(16, 0).stage;
    let step = stage.on_inbound(Inbound::<i32, String>::Signal(Some(Ok(1))));
    assert_eq!(step.emit, vec![Some(Ok(1))]);
    assert!(!step.stop);
}

#[test]
fn merge_forwards_both_sources_and_completes_after_both() {
    let mut a: Source = Subject::new(16);
    let mut b: Source = Subject::new(16);
    let merge = a.merge(16, &b);
    let mut out = merge.out;
    let (mut arm_a, mut arm_b) = (merge.left.stage, merge.right.stage);
    let mut left = Stage::new(merge.left.start, |inbound| arm_a.on_inbound(inbound));
    let mut right = Stage::new(merge.right.start, |inbound| arm_b.on_inbound(inbound));
    let mut sub = Collector::new(out.subscribe());

    a.next(1).unwrap();
    b.next(2).unwrap();
    a.complete().unwrap();
    left.pump(&mut out);
    right.pump(&mut out);
    sub.pump();
    assert_eq!(sub.store.len(), 2);

    b.complete().unwrap();
    left.pump(&mut out);
    right.pump(&mut out);
    sub.pump();

    assert_eq!(
        sub.store,
        vec![Signal::Next(1), Signal::Next(2), Signal::Complete]
    );
}

#[test]
fn merge_forwards_error_from_either_side_immediately() {
    let mut a: Source = Subject::new(16);
    let mut b: Source = Subject::new(16);
    let merge = a.merge(16, &b);
    let mut out = merge.out;
    let (mut arm_a, mut arm_b) = (merge.left.stage, merge.right.stage);
    let mut left = Stage::new(merge.left.start, |inbound| arm_a.on_inbound(inbound));
    let mut right = Stage::new(merge.right.start, |inbound| arm_b.on_inbound(inbound));
    let mut sub = Collector::new(out.subscribe());

    a.next(1).unwrap();
    b.error("boom".to_string()).unwrap();
    left.pump(&mut out);
    right.pump(&mut out);
    a.next(2).ok();
    left.pump(&mut out);
    sub.pump();

    assert_eq!(
        sub.store,
        vec![Signal::Next(1), Signal::Error("boom".to_string())]
    );
}

#[test]
fn merge_losing_arm_stops_listening_after_error() {
    let a: Source = Subject::new(16);
    let mut b: Source = Subject::new(16);
    let merge = a.merge(16, &b);
    let mut out = merge.out;
    let bell = merge.left.bell.into_receiver();
    let (mut arm_a, mut arm_b) = (merge.left.stage, merge.right.stage);
    let mut left = Stage::new(merge.left.start, |inbound| arm_a.on_inbound(inbound));
    let mut right = Stage::new(merge.right.start, |inbound| arm_b.on_inbound(inbound));
    assert_eq!(a.sender().receiver_count(), 1);
    assert!(!bell.has_changed().unwrap());

    b.error("boom".to_string()).unwrap();
    right.pump(&mut out);
    assert!(bell.has_changed().unwrap());
    left.feed(Inbound::Cancelled, &mut out);

    assert_eq!(a.sender().receiver_count(), 0);
}

#[test]
fn merge_forwards_only_the_first_error() {
    let mut a: Source = Subject::new(16);
    let mut b: Source = Subject::new(16);
    let mut merge = a.merge(16, &b);
    a.error("first".to_string()).unwrap();
    b.error("second".to_string()).unwrap();

    let one = merge
        .left
        .stage
        .on_inbound(Inbound::<i32, String>::Signal(Some(Err("first".to_string()))));
    assert_eq!(one.emit, vec![Some(Err("first".to_string()))]);
    assert!(one.stop);
    let two = merge
        .right
        .stage
        .on_inbound(Inbound::<i32, String>::Signal(Some(Err("second".to_string()))));
    assert!(two.emit.is_empty());
    assert!(two.stop);
}

#[test]
fn merge_of_ended_sources_settles_at_once() {
    let mut a: Source = Subject::new(16);
    let mut b: Source = Subject::new(16);
    a.complete().ok();
    b.complete().ok();
    let merge = a.merge(16, &b);
    let mut out = merge.out;
    let mut sub = Collector::new(out.subscribe());
    for mut arm in [merge.left, merge.right] {
        match arm.start {
            Start::Settled(terminal) => {
                assert!(out.forward(arm.stage.on_settled(terminal)));
            }
            Start::Live(_) => panic!("an ended source has nothing to wait for"),
        }
    }
    sub.pump();
    assert_eq!(sub.store, vec![Signal::Complete]);
}

#[test]
fn merge_with_a_lost_source_never_completes() {
    let a: Source = Subject::new(16);
    let b: Source = Subject::new(16);
    let mut merge = a.merge(16, &b);
    let lost = merge.left.stage.on_inbound(Inbound::<i32, String>::Lagged(3));
    assert!(lost.emit.is_empty() && lost.stop);
    let done = merge.right.stage.on_inbound(Inbound::<i32, String>::Signal(None));
    assert!(done.emit.is_empty() && done.stop);
}

#[test]
fn merge_goes_on_without_a_lost_arm() {
    let a: Source = Subject::new(16);
    let b: Source = Subject::new(16);
    let mut merge = a.merge(16, &b);
    let lost = merge.left.stage.on_inbound(Inbound::<i32, String>::Closed);
    assert!(lost.emit.is_empty() && lost.stop);
    let value = merge.right.stage.on_inbound(Inbound::<i32, String>::Signal(Some(Ok(2))));
    assert_eq!(value.emit, vec![Some(Ok(2))]);
    assert!(!value.stop);
    let failure = merge
        .right
        .stage
        .on_inbound(Inbound::<i32, String>::Signal(Some(Err("boom".to_string()))));
    assert_eq!(failure.emit, vec![Some(Err("boom".to_string()))]);
}

#[test]
fn progress_of_a_merge_counts_ends_only() {
    let mut progress = MergeProgress::new();
    let step: Step<ChannelSignal<i32, String>> = progress.arrive(Inbound::Signal(Some(Ok(1))));
    assert_eq!(step.emit, vec![Some(Ok(1))]);
    let step: Step<ChannelSignal<i32, String>> = progress.arrive(Inbound::Lagged(4));
    assert!(step.emit.is_empty() && step.stop);
    assert_eq!((progress.remaining, progress.terminated), (2, false));
    let step: Step<ChannelSignal<i32, String>> = progress.arrive(Inbound::Signal(None));
    assert!(step.emit.is_empty() && step.stop);
    assert_eq!((progress.remaining, progress.terminated), (1, false));
    let step: Step<ChannelSignal<i32, String>> = progress.arrive(Inbound::Signal(None));
    assert_eq!(step.emit, vec![None]);
    assert_eq!((progress.remaining, progress.terminated), (0, false));
}

#[test]
fn progress_of_a_merge_grants_the_first_error() {
    let mut progress = MergeProgress::new();
    let step: Step<ChannelSignal<i32, String>> =
        progress.arrive(Inbound::Signal(Some(Err("first".to_string()))));
    assert_eq!(step.emit, vec![Some(Err("first".to_string()))]);
    assert_eq!((progress.remaining, progress.terminated), (2, true));
    let step: Step<ChannelSignal<i32, String>> =
        progress.arrive(Inbound::Signal(Some(Err("second".to_string()))));
    assert!(step.emit.is_empty() && step.stop);
    assert_eq!((progress.remaining, progress.terminated), (2, true));
}

#[test]
fn failing_handler_gets_nothing_more() {
    assert!(goes_on(Some(()), false));
    assert!(!goes_on(None, false));
    assert!(!goes_on(Some(()), true));

    let mut subject: Source = Subject::new(16);
    let mut receiver = subject.subscribe().tap.unwrap().into_receiver();
    subject.next(1).unwrap();
    subject.next(2).unwrap();
    subject.next(3).unwrap();
    let mut store = Vec::new();
    while let Some(inbound) = poll(&mut receiver) {
        let step = deliver(inbound);
        let mut handled = Some(());
        for signal in step.emit {
            handled = if signal == Signal::Next(2) { None } else { Some(()) };
            store.push(signal);
        }
        if !goes_on(handled, step.stop) {
            break;
        }
    }
    assert_eq!(store, vec![Signal::Next(1), Signal::Next(2)]);
}

#[test]
fn merge_arm_goes_by_the_answer_to_its_claim() {
    let granted: Step<ChannelSignal<i32, String>> =
        MergeArm::settle(Inbound::Signal(Some(Err("boom".to_string()))), true);
    assert_eq!(granted.emit, vec![Some(Err("boom".to_string()))]);
    let denied: Step<ChannelSignal<i32, String>> =
        MergeArm::settle(Inbound::Signal(Some(Err("boom".to_string()))), false);
    assert!(denied.emit.is_empty() && denied.stop);
    let value: Step<ChannelSignal<i32, String>> =
        MergeArm::settle(Inbound::Signal(Some(Ok(4))), false);
    assert_eq!(value.emit, vec![Some(Ok(4))]);
    assert!(!value.stop);
}

#[test]
fn map_stops_at_a_failing_closure() {
    let mut subject: Source = Subject::new(16);
    let Piped { mut out, start, stage } =
        subject.map(16, |n| if n == 2 { None } else { Some(n * 10) });
    let mut mapped = Stage::new(start, |inbound| stage.on_inbound(inbound));
    let mut sub = Collector::new(out.subscribe());

    subject.next(1).unwrap();
    subject.next(2).unwrap();
    subject.next(3).unwrap();
    mapped.pump(&mut out);
    sub.pump();

    assert_eq!(sub.store, vec![Signal::Next(10)]);
}

#[test]
fn filter_and_take_while_stop_at_a_failing_predicate() {
    let subject: Source = Subject::new(16);
    let filter = subject.filter(16, |_: &i32| None).stage;
    let step = filter.on_inbound(Inbound::<i32, String>::Signal(Some(Ok(1))));
    assert!(step.emit.is_empty() && step.stop);
    let take_while = subject.take_while(16, |_: &i32| None).stage;
    let step = take_while.on_inbound(Inbound::<i32, String>::Signal(Some(Ok(1))));
    assert!(step.emit.is_empty() && step.stop);
}

#[test]
fn lagged_subscriber_stops_without_hanging() {
    let mut subject: Source = Subject::new(1);
    let mut sub = Collector::new(subject.subscribe());

    subject.next(1).unwrap();
    subject.next(2).unwrap();
    subject.next(3).unwrap();
    sub.pump();

    assert!(sub.store.is_empty());
    assert!(sub.receiver.is_none());
}

#[test]
fn lagged_map_source_stops_that_stage_without_hanging() {
    let mut subject: Source = Subject::new(1);
    let Piped { mut out, start, stage } = subject.map(1, |n| Some(n * 2));
    let mut mapped = Stage::new(start, |inbound| stage.on_inbound(inbound));
    let mut sub = Collector::new(out.subscribe());

    subject.next(1).unwrap();
    subject.next(2).unwrap();
    subject.next(3).unwrap();
    mapped.pump(&mut out);
    sub.pump();

    assert!(sub.store.is_empty());
    assert!(mapped.receiver.is_none());
}

#[test]
fn lost_source_stops_every_stage_silently() {
    let subject: Source = Subject::new(16);
    let map = subject.map(16, |n: i32| Some(n)).stage;
    let filter = subject.filter(16, |_: &i32| Some(true)).stage;
    let mut take = subject.take(16, 2).stage;
    let take_while = subject.take_while(16, |_: &i32| Some(true)).stage;
    let mut skip = subject.skip(16, 2).stage;
    let mut arm = subject.merge(16, &subject).left.stage;
    let steps: Vec<Step<ChannelSignal<i32, String>>> = vec![
        map.on_inbound(Inbound::Closed),
        filter.on_inbound(Inbound::Closed),
        take.on_inbound(Inbound::Closed),
        take_while.on_inbound(Inbound::Closed),
        skip.on_inbound(Inbound::Closed),
        arm.on_inbound(Inbound::Closed),
    ];
    for step in steps {
        assert!(step.emit.is_empty());
        assert!(step.stop);
    }
    let step = deliver(Inbound::<i32, String>::Closed);
    assert!(step.emit.is_empty() && step.stop);
}

#[test]
fn emission_counts_receivers() {
    let mut subject: Source = Subject::new(16);
    assert!(matches!(subject.next(1), Err(SendError::NoReceivers)));
    let one = Collector::new(subject.subscribe());
    let two = Collector::new(subject.subscribe());
    assert!(matches!(subject.next(2), Ok(2)));
    drop(one);
    assert!(matches!(subject.next(3), Ok(1)));
    drop(two);
    assert!(matches!(subject.complete(), Err(SendError::NoReceivers)));
    assert!(matches!(subject.complete(), Ok(0)));
    assert!(matches!(subject.error("late".to_string()), Ok(0)));
    assert!(matches!(subject.next(4), Ok(0)));
}

#[test]
fn send_error_has_its_message() {
    assert_eq!(
        SendError::NoReceivers.message(),
        "no active receivers for this subject"
    );
    assert!(matches!(report::<i32>(Ok(3)), Ok(3)));
    assert!(matches!(report::<i32>(Err(7)), Err(SendError::NoReceivers)));
}

#[test]
fn late_subscriber_misses_earlier_items() {
    let mut subject: Source = Subject::new(16);
    let mut early = Collector::new(subject.subscribe());
    subject.next(1).unwrap();
    let mut late = Collector::new(subject.subscribe());
    subject.next(2).unwrap();
    subject.complete().unwrap();
    early.pump();
    late.pump();
    assert_eq!(
        early.store,
        vec![Signal::Next(1), Signal::Next(2), Signal::Complete]
    );
    assert_eq!(late.store, vec![Signal::Next(2), Signal::Complete]);
}

#[test]
fn snapshot_tells_live_from_terminated() {
    let mut subject: Source = Subject::new(16);
    assert!(matches!(
        subject.snapshot(),
        SourceSnapshot::Live { replay, .. } if replay.is_empty()
    ));
    subject.error("boom".to_string()).ok();
    match subject.snapshot() {
        SourceSnapshot::Terminated { replay, terminal: TerminalState::Error(e) } => {
            assert!(replay.is_empty());
            assert_eq!(e, "boom");
        }
        _ => panic!("the subject has ended"),
    }
}

#[test]
fn raw_sender_is_a_handle_on_the_same_channel() {
    let subject: Source = Subject::new(16);
    let mut sub = Collector::new(subject.subscribe());
    subject.sender().send(Some(Ok(5))).unwrap();
    sub.pump();
    assert_eq!(sub.store, vec![Signal::Next(5)]);
}

#[test]
fn raw_end_is_not_remembered() {
    let mut subject: Source = Subject::new(16);
    let mut early = Collector::new(subject.subscribe());
    subject.sender().send(None).unwrap();
    let mut late = Collector::new(subject.subscribe());
    assert!(late.store.is_empty());
    assert!(matches!(subject.next(1), Ok(2)));
    early.pump();
    late.pump();
    assert_eq!(early.store, vec![Signal::Complete]);
    assert_eq!(late.store, vec![Signal::Next(1)]);
}

#[test]
fn evens_are_doubled_through_two_stages() {
    let mut source: Source = Subject::new(16);
    let Piped { out: mut evens, start, stage } = source.filter(16, |n: &i32| Some(n % 2 == 0));
    let mut first = Stage::new(start, |inbound| stage.on_inbound(inbound));
    let Piped { out: mut doubled, start, stage } = evens.map(16, |n| Some(n * 2));
    let mut second = Stage::new(start, |inbound| stage.on_inbound(inbound));
    let mut sub = Collector::new(doubled.subscribe());

    for n in 1..=5 {
        source.next(n).ok();
    }
    source.complete().ok();
    first.pump(&mut evens);
    second.pump(&mut doubled);
    sub.pump();

    assert_eq!(
        sub.store,
        vec![Signal::Next(4), Signal::Next(8), Signal::Complete]
    );
}

#[test]
fn grammar_holds_wherever_the_end_and_the_subscribers_fall() {
    for end in 0..=8 {
        for joined in 0..=9 {
            let mut subject: Source = Subject::new(64);
            let mut sub = None;
            for step in 0..=8 {
                if step == joined {
                    sub = Some(Collector::new(subject.subscribe()));
                }
                if step == end {
                    subject.complete().ok();
                }
                subject.next(step).ok();
            }
            let mut sub = sub.unwrap_or_else(|| Collector::new(subject.subscribe()));
            sub.pump();
            assert_eq!(sub.store.last(), Some(&Signal::Complete));
            let terminals = sub
                .store
                .iter()
                .filter(|signal| matches!(signal, Signal::Complete | Signal::Error(_)))
                .count();
            assert_eq!(terminals, 1);
        }
    }
}
