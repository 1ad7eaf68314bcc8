use tokio::sync::watch;
use vstd::prelude::*;

use crate::operators;
use crate::operators::referee::{Bell, MergeProgress, Referee};
use crate::operators::Start;
use crate::signal;
use crate::signal::{ChannelSignal, TerminalState};
use crate::stage::{Inbound, Outcome, Step};
use crate::subject::Subject;

verus! {

/// What one arm of [`Subject::merge`] does with what its source emits.
pub struct MergeArm {
    referee: Referee,
}

/// One arm of a merge, ready to run.
#[verifier::reject_recursive_types(T)]
#[verifier::reject_recursive_types(E)]
pub struct Arm<T, E> {
    /// How the arm starts.
    pub start: Start<T, E>,
    /// What the arm does with each arrival.
    pub stage: MergeArm,
    /// Rings when the merge has ended, which cancels the arm's wait.
    pub bell: Bell,
}

/// A merge, ready to run: both arms emit on `out`.
#[verifier::reject_recursive_types(T)]
#[verifier::reject_recursive_types(E)]
pub struct Merged<T: Clone, E> {
    /// The subject that the arms emit on.
    pub out: Subject<T, E>,
    /// The arm that reads from the first source.
    pub left: Arm<T, E>,
    /// The arm that reads from the second source.
    pub right: Arm<T, E>,
}

/// What an arm passes on, where `granted` says whether an end of its source
/// ends the merge. Values pass as they are; an end is passed on if it is
/// granted, and ends the arm in any case.
pub open spec fn merged<T, E>(inbound: Inbound<T, E>, granted: bool) -> Outcome<
    ChannelSignal<T, E>,
> {
    match inbound {
        Inbound::Signal(Some(Ok(t))) => Outcome::pass(Some(Ok(t))),
        Inbound::Signal(channel_signal) => if granted {
            Outcome::close(channel_signal)
        } else {
            Outcome::halt()
        },
        _ => Outcome::halt(),
    }
}

/// Whether an arrival is an end of its source, and if so whether it is an
/// error.
pub open spec fn ending<T, E>(inbound: Inbound<T, E>) -> Option<bool> {
    match inbound {
        Inbound::Signal(Some(Err(_))) => Some(true),
        Inbound::Signal(None) => Some(false),
        _ => None,
    }
}

/// Whether what arrived is an end that ends the merge, where the merge has come
/// as far as `held`.
pub open spec fn granted<T, E>(held: MergeProgress, inbound: Inbound<T, E>) -> bool {
    match ending(inbound) {
        Some(failed) => held.grants(failed),
        None => false,
    }
}

/// How far the merge has come after an arrival. Only an end of a source counts:
/// a value does not, nor does a source that is lagging or lost.
pub open spec fn progressed<T, E>(held: MergeProgress, inbound: Inbound<T, E>) -> MergeProgress {
    match ending(inbound) {
        Some(failed) => held.after(failed),
        None => held,
    }
}

/// Whether an arrival is an end of its source, and if so whether it is an
/// error.
fn end_of<T, E>(inbound: &Inbound<T, E>) -> (end: Option<bool>)
    ensures
        end == ending(*inbound),
{
    match inbound {
        Inbound::Signal(Some(Err(_))) => Some(true),
        Inbound::Signal(None) => Some(false),
        _ => None,
    }
}

impl MergeProgress {
    /// What an arm passes on for an arrival where this progress is the one that
    /// the arms share, and what becomes of the progress.
    pub fn arrive<T, E>(&mut self, inbound: Inbound<T, E>) -> (step: Step<ChannelSignal<T, E>>)
        ensures
            step@ == merged(inbound, granted(*old(self), inbound)),
            *final(self) == progressed(*old(self), inbound),
            match inbound {
                Inbound::Signal(Some(Ok(t))) => step.emit@ == seq![Some(Ok::<T, E>(t))]
                    && !step.stop,
                Inbound::Signal(Some(Err(e))) => step.stop && step.emit@ == if !old(self).terminated {
                    seq![Some(Err::<T, E>(e))]
                } else {
                    Seq::empty()
                },
                Inbound::Signal(None) => step.stop && step.emit@ == if old(self).remaining == 1 {
                    seq![None::<Result<T, E>>]
                } else {
                    Seq::empty()
                },
                _ => step.stop && step.emit@.len() == 0,
            },
    {
        let answer = match end_of(&inbound) {
            Some(failed) => self.claim(failed),
            None => false,
        };
        MergeArm::settle(inbound, answer)
    }
}

/// What an arm does about an arrival. An end of its source is claimed, once and
/// as what it is, and the step goes by the answer; anything else is not
/// claimed.
pub open spec fn acts<T, E>(
    before: MergeArm,
    inbound: Inbound<T, E>,
    after: MergeArm,
    outcome: Outcome<ChannelSignal<T, E>>,
) -> bool {
    &&& after.handle() == before.handle()
    &&& after.initial() == before.initial()
    &&& match ending(inbound) {
        Some(failed) => {
            let answer = after.claims().last().1;
            &&& after.claims() == before.claims().push((failed, answer))
            &&& outcome == merged(inbound, answer)
        },
        None => {
            &&& after.claims() == before.claims()
            &&& outcome == merged(inbound, false)
        },
    }
}

impl MergeArm {
    /// The watched progress that this arm shares with the other.
    pub closed spec fn handle(self) -> watch::Sender<MergeProgress> {
        self.referee.handle()
    }

    /// The progress that was there at the start.
    pub closed spec fn initial(self) -> MergeProgress {
        self.referee.initial()
    }

    /// The claims that this arm has made on the progress, in order: whether
    /// each was that of an error (or of a completion), and whether it was
    /// granted. One that is granted rings the bells of both arms.
    pub closed spec fn claims(self) -> Seq<(bool, bool)> {
        self.referee.claims()
    }

    /// What the arm passes on for an arrival, once it is known whether an end
    /// of its source ends the merge.
    pub fn settle<T, E>(inbound: Inbound<T, E>, granted: bool) -> (step: Step<ChannelSignal<T, E>>)
        ensures
            step@ == merged(inbound, granted),
            match inbound {
                Inbound::Signal(Some(Ok(t))) => step.emit@ == seq![Some(Ok::<T, E>(t))]
                    && !step.stop,
                Inbound::Signal(Some(Err(e))) => step.stop && step.emit@ == if granted {
                    seq![Some(Err::<T, E>(e))]
                } else {
                    Seq::empty()
                },
                Inbound::Signal(None) => step.stop && step.emit@ == if granted {
                    seq![None::<Result<T, E>>]
                } else {
                    Seq::empty()
                },
                _ => step.stop && step.emit@.len() == 0,
            },
    {
        match inbound {
            Inbound::Signal(Some(Ok(t))) => Step::pass(Some(Ok(t))),
            Inbound::Signal(channel_signal) => if granted {
                Step::close(channel_signal)
            } else {
                Step::halt()
            },
            _ => Step::halt(),
        }
    }

    /// Handles one arrival. Only the first arm to observe an error forwards
    /// it, and only the arm that observes that both sources have completed
    /// signals completion.
    pub fn on_inbound<T, E>(&mut self, inbound: Inbound<T, E>) -> (step: Step<ChannelSignal<T, E>>)
        ensures
            acts(*old(self), inbound, *final(self), step@),
            match inbound {
                Inbound::Signal(Some(Ok(t))) => step.emit@ == seq![Some(Ok::<T, E>(t))]
                    && !step.stop,
                Inbound::Signal(Some(Err(e))) => step.stop && step.emit@ == if final(self).claims().last().1 {
                    seq![Some(Err::<T, E>(e))]
                } else {
                    Seq::empty()
                },
                Inbound::Signal(None) => step.stop && step.emit@ == if final(self).claims().last().1 {
                    seq![None::<Result<T, E>>]
                } else {
                    Seq::empty()
                },
                _ => step.stop && step.emit@.len() == 0,
            },
    {
        let answer = match end_of(&inbound) {
            Some(failed) => self.referee.claim(failed),
            None => false,
        };
        Self::settle(inbound, answer)
    }

    /// Handles a source that had ended before the arm started: what an arm
    /// does when the end arrives, it does at once.
    pub fn on_settled<T, E>(&mut self, terminal: TerminalState<E>) -> (step: Step<
        ChannelSignal<T, E>,
    >)
        ensures
            acts(
                *old(self),
                Inbound::Signal(signal::announcement::<T, E>(terminal)),
                *final(self),
                step@,
            ),
    {
        match terminal {
            TerminalState::Error(e) => self.on_inbound(Inbound::Signal(Some(Err(e)))),
            TerminalState::Complete => self.on_inbound(Inbound::Signal(None)),
        }
    }
}

/// Two arms that share one progress, on which both sources are still to
/// complete, and that have claimed nothing yet.
pub open spec fn paired(left: MergeArm, right: MergeArm) -> bool {
    &&& left.handle() == right.handle()
    &&& left.initial() == MergeProgress::initial()
    &&& right.initial() == MergeProgress::initial()
    &&& left.claims() == Seq::<(bool, bool)>::empty()
    &&& right.claims() == Seq::<(bool, bool)>::empty()
}

/// A merge that is about to start: its output is fresh, and its arms share one
/// progress, whose bells they wait for.
pub open spec fn ready<T: Clone, E: Clone>(merge: Merged<T, E>, capacity: usize) -> bool {
    &&& operators::fresh(merge.out, capacity)
    &&& paired(merge.left.stage, merge.right.stage)
    &&& merge.left.bell.origin() == merge.left.stage.handle()
    &&& merge.right.bell.origin() == merge.left.stage.handle()
}

impl<T: Clone, E: Clone> Merged<T, E> {
    /// A merge of two sources on which its arms start as `left` and `right`.
    pub fn new(capacity: usize, left: Start<T, E>, right: Start<T, E>) -> (merge: Self)
        requires
            0 < capacity <= usize::MAX / 2,
        ensures
            ready(merge, capacity),
            merge.left.start == left,
            merge.right.start == right,
    {
        let referee = Referee::open(MergeProgress::new());
        let left = Arm {
            start: left,
            bell: referee.bell(),
            stage: MergeArm { referee: referee.share() },
        };
        let right = Arm { start: right, bell: referee.bell(), stage: MergeArm { referee } };
        assert(right.stage.claims() =~= Seq::empty());
        Merged { out: Subject::new(capacity), left, right }
    }
}

/// A merge of `source` with `other`, about to run.
pub open spec fn merges<T: Clone, E: Clone>(
    source: Subject<T, E>,
    other: Subject<T, E>,
    capacity: usize,
    merge: Merged<T, E>,
) -> bool {
    &&& ready(merge, capacity)
    &&& operators::starts(source, merge.left.start)
    &&& operators::starts(other, merge.right.start)
}

impl<T: Clone, E: Clone> Subject<T, E> {
    /// Combines this subject with `other`, forwarding `OnNext` from both.
    /// The output completes once *both* sources have completed; an `OnError`
    /// from either source is forwarded immediately and ends the merge.
    #[must_use]
    pub fn merge(&self, capacity: usize, other: &Self) -> (merge: Merged<T, E>)
        requires
            0 < capacity <= usize::MAX / 2,
        ensures
            merges(*self, *other, capacity, merge),
            ready(merge, capacity),
            operators::starts(*self, merge.left.start),
            operators::starts(*other, merge.right.start),
    {
        Merged::new(capacity, self.begin(), other.begin())
    }
}

/// What an arm passes on for one arrival: a value, as it is, whatever the answer
/// to any claim; an error or a completion of its source as it is where it was
/// granted, and nothing where it was not, the arm stopping either way; for
/// anything else nothing, and the arm stops.
pub proof fn law_arm_passes_values_and_granted_ends<T, E>(inbound: Inbound<T, E>, answer: bool)
    ensures
        match inbound {
            Inbound::Signal(Some(Ok(t))) => {
                &&& merged(inbound, answer).emit == seq![Some(Ok::<T, E>(t))]
                &&& !merged(inbound, answer).stop
            },
            Inbound::Signal(Some(Err(e))) => {
                &&& answer ==> merged(inbound, answer).emit == seq![Some(Err::<T, E>(e))]
                &&& !answer ==> merged(inbound, answer).emit.len() == 0
                &&& merged(inbound, answer).stop
            },
            Inbound::Signal(None) => {
                &&& answer ==> merged(inbound, answer).emit == seq![None::<Result<T, E>>]
                &&& !answer ==> merged(inbound, answer).emit.len() == 0
                &&& merged(inbound, answer).stop
            },
            _ => merged(inbound, answer).emit.len() == 0 && merged(inbound, answer).stop,
        },
{
}

/// What arrives counts as an end where it is an error or a completion, as that
/// of an error exactly where it is one. An end is granted as the progress grants
/// it and moves the progress on; nothing else is granted, or moves it.
pub proof fn law_only_ends_are_claimed<T, E>(held: MergeProgress, inbound: Inbound<T, E>)
    ensures
        match inbound {
            Inbound::Signal(Some(Err(_))) => {
                &&& ending(inbound) == Some(true)
                &&& granted(held, inbound) <==> !held.terminated
                &&& progressed(held, inbound).terminated
                &&& progressed(held, inbound).remaining == held.remaining
            },
            Inbound::Signal(None) => {
                &&& ending(inbound) == Some(false)
                &&& granted(held, inbound) <==> held.remaining == 1
                &&& progressed(held, inbound).terminated == held.terminated
                &&& held.remaining > 0 ==> progressed(held, inbound).remaining == held.remaining - 1
            },
            _ => {
                &&& ending(inbound) is None
                &&& !granted(held, inbound)
                &&& progressed(held, inbound) == held
            },
        },
{
}

/// What an arm does about one arrival. For an error or a completion of its
/// source it makes one claim, as what it is, and the end is on the output
/// exactly if that claim was granted. For anything else it claims nothing; a
/// value is passed on as it is.
pub proof fn law_arm_acts_by_its_claim<T, E>(
    before: MergeArm,
    inbound: Inbound<T, E>,
    after: MergeArm,
    outcome: Outcome<ChannelSignal<T, E>>,
)
    requires
        acts(before, inbound, after, outcome),
    ensures
        after.handle() == before.handle(),
        after.initial() == before.initial(),
        match inbound {
            Inbound::Signal(Some(Ok(t))) => {
                &&& after.claims() == before.claims()
                &&& outcome.emit == seq![Some(Ok::<T, E>(t))]
                &&& !outcome.stop
            },
            Inbound::Signal(Some(Err(e))) => {
                &&& after.claims().len() == before.claims().len() + 1
                &&& after.claims().drop_last() == before.claims()
                &&& after.claims().last().0
                &&& outcome.stop
                &&& outcome.emit == if after.claims().last().1 {
                    seq![Some(Err::<T, E>(e))]
                } else {
                    Seq::empty()
                }
            },
            Inbound::Signal(None) => {
                &&& after.claims().len() == before.claims().len() + 1
                &&& after.claims().drop_last() == before.claims()
                &&& !after.claims().last().0
                &&& outcome.stop
                &&& outcome.emit == if after.claims().last().1 {
                    seq![None::<Result<T, E>>]
                } else {
                    Seq::empty()
                }
            },
            _ => {
                &&& after.claims() == before.claims()
                &&& outcome.stop
                &&& outcome.emit.len() == 0
            },
        },
{
    match ending(inbound) {
        Some(failed) => {
            assert(after.claims().drop_last() =~= before.claims());
        },
        None => {},
    }
}

/// A merge that is about to run has a new output of the capacity asked for and
/// two arms that have claimed nothing, on one progress with two sources still to
/// complete and no error, and with a bell each on that progress. Each arm starts
/// as its own source stands: live, on a receiver of that subject's channel that
/// has missed what was sent before, or settled, with that subject's end.
pub proof fn law_merge_starts_as_its_sources_stand<T: Clone, E: Clone>(
    source: Subject<T, E>,
    other: Subject<T, E>,
    capacity: usize,
    merge: Merged<T, E>,
)
    requires
        merges(source, other, capacity, merge),
    ensures
        merge.out.wf(),
        merge.out.capacity() == capacity,
        merge.out.sent().len() == 0,
        merge.out.terminal() is None,
        merge.left.stage.handle() == merge.right.stage.handle(),
        merge.left.bell.origin() == merge.left.stage.handle(),
        merge.right.bell.origin() == merge.left.stage.handle(),
        merge.left.stage.claims().len() == 0,
        merge.right.stage.claims().len() == 0,
        merge.left.stage.initial().remaining == 2,
        !merge.left.stage.initial().terminated,
        merge.right.stage.initial() == merge.left.stage.initial(),
        match source.terminal() {
            Some(TerminalState::Error(e)) => merge.left.start matches Start::Settled(
                TerminalState::Error(copy),
            ) && cloned(e, copy),
            Some(TerminalState::Complete) => merge.left.start == Start::<T, E>::Settled(
                TerminalState::Complete,
            ),
            None => merge.left.start matches Start::Live(tap) && tap.origin() == source.handle()
                && tap.missed() == source.sent(),
        },
        match other.terminal() {
            Some(TerminalState::Error(e)) => merge.right.start matches Start::Settled(
                TerminalState::Error(copy),
            ) && cloned(e, copy),
            Some(TerminalState::Complete) => merge.right.start == Start::<T, E>::Settled(
                TerminalState::Complete,
            ),
            None => merge.right.start matches Start::Live(tap) && tap.origin() == other.handle()
                && tap.missed() == other.sent(),
        },
{
}

/// An arm whose source had ended before it started claims just that end, and
/// passes it on exactly if the claim is granted: the error as it is, or the
/// completion.
pub proof fn law_settled_arm_claims_its_end<T, E>(
    before: MergeArm,
    terminal: TerminalState<E>,
    after: MergeArm,
    outcome: Outcome<ChannelSignal<T, E>>,
)
    requires
        acts(before, Inbound::Signal(signal::announcement::<T, E>(terminal)), after, outcome),
    ensures
        outcome.stop,
        after.claims().len() == before.claims().len() + 1,
        match terminal {
            TerminalState::Error(e) => after.claims().last().0 && outcome.emit
                == if after.claims().last().1 {
                seq![Some(Err::<T, E>(e))]
            } else {
                Seq::empty()
            },
            TerminalState::Complete => !after.claims().last().0 && outcome.emit
                == if after.claims().last().1 {
                seq![None::<Result<T, E>>]
            } else {
                Seq::empty()
            },
        },
{
}

} // verus!
