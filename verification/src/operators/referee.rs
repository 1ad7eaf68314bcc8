use tokio::sync::watch;
use vstd::prelude::*;

verus! {

/// `tokio::sync::watch::Sender`: a handle on a watched value. Two handles are
/// equal when they are handles on the same value.
#[verifier::external_type_specification]
#[verifier::external_body]
#[verifier::reject_recursive_types(T)]
pub struct ExWatchSender<T>(watch::Sender<T>);

/// `tokio::sync::watch::Receiver`: one that is told of changes of a watched
/// value.
#[verifier::external_type_specification]
#[verifier::external_body]
#[verifier::reject_recursive_types(T)]
pub struct ExWatchReceiver<T>(watch::Receiver<T>);

/// `clone` of `tokio::sync::watch::Sender` returns another handle on the same
/// watched value.
pub assume_specification<T>[ <watch::Sender<T> as Clone>::clone ](
    sender: &watch::Sender<T>,
) -> (handle: watch::Sender<T>)
    ensures
        handle == *sender,
;

/// How far the sources of a merge have come.
pub struct MergeProgress {
    /// How many sources have not completed.
    pub remaining: usize,
    /// Whether an error has ended the merge.
    pub terminated: bool,
}

impl MergeProgress {
    /// Whether a source that ends now, by an error or by completing, ends the
    /// merge: the first error does, and the completion of the last source.
    pub open spec fn grants(self, failed: bool) -> bool {
        if failed {
            !self.terminated
        } else {
            self.remaining == 1
        }
    }

    /// The progress once a source has ended, by an error or by completing.
    pub open spec fn after(self, failed: bool) -> Self {
        if failed {
            MergeProgress { terminated: true, ..self }
        } else if self.remaining > 0 {
            MergeProgress { remaining: (self.remaining - 1) as usize, ..self }
        } else {
            MergeProgress { remaining: usize::MAX, ..self }
        }
    }

    /// The progress of a merge of two sources that is about to start.
    pub open spec fn initial() -> Self {
        MergeProgress { remaining: 2, terminated: false }
    }

    /// The progress of a merge of two sources that is about to start.
    pub fn new() -> (progress: Self)
        ensures
            progress == Self::initial(),
    {
        MergeProgress { remaining: 2, terminated: false }
    }

    /// Records that a source ended, by an error or by completing, and returns
    /// whether that ends the merge.
    pub fn claim(&mut self, failed: bool) -> (granted: bool)
        ensures
            granted == old(self).grants(failed),
            *final(self) == old(self).after(failed),
            failed ==> (granted <==> !old(self).terminated),
            !failed ==> (granted <==> old(self).remaining == 1),
    {
        if failed {
            let first = !self.terminated;
            self.terminated = true;
            first
        } else {
            let last = self.remaining == 1;
            self.remaining = self.remaining.wrapping_sub(1);
            last
        }
    }
}

/// Decides between the arms of a merge, which run independently, which of them
/// ends it. Each arm has its own, with the record of what the arm claimed; all
/// of them go by the same progress.
pub struct Referee {
    progress: watch::Sender<MergeProgress>,
    initial: Ghost<MergeProgress>,
    claims: Ghost<Seq<(bool, bool)>>,
}

/// Tells an arm of a merge that the merge has ended. It rings also for one who
/// starts to wait only after that.
pub struct Bell {
    receiver: watch::Receiver<MergeProgress>,
    origin: Ghost<watch::Sender<MergeProgress>>,
}

impl Referee {
    /// The watched progress that this referee goes by.
    pub closed spec fn handle(self) -> watch::Sender<MergeProgress> {
        self.progress
    }

    /// The progress that was there at the start.
    pub closed spec fn initial(self) -> MergeProgress {
        self.initial@
    }

    /// The claims made through this value, in order: whether each was that of
    /// an error (or of a completion), and whether it was granted.
    pub closed spec fn claims(self) -> Seq<(bool, bool)> {
        self.claims@
    }

    /// Calls `tokio::sync::watch::channel` with `progress` and keeps the
    /// sending handle. `initial` is by definition the value handed to it, and
    /// `claims` the list of the claims made since: none yet.
    #[verifier::external_body]
    pub(crate) fn open(progress: MergeProgress) -> (referee: Self)
        ensures
            referee.initial() == progress,
            referee.claims().len() == 0,
    {
        let initial = Ghost(progress);
        let (sender, _) = watch::channel(progress);
        Referee { progress: sender, initial, claims: Ghost(Seq::empty()) }
    }

    /// Another referee that goes by the same progress, with no claims made
    /// through it.
    pub(crate) fn share(&self) -> (referee: Self)
        ensures
            referee.handle() == self.handle(),
            referee.initial() == self.initial(),
            referee.claims() == Seq::<(bool, bool)>::empty(),
    {
        Referee {
            progress: self.progress.clone(),
            initial: Ghost(self.initial@),
            claims: Ghost(Seq::empty()),
        }
    }

    /// Calls `tokio::sync::watch::Sender::send_if_modified` once, with
    /// [`MergeProgress::claim`] for `failed`: the claim is made on the progress
    /// held at that moment, with no other claim in between, and its answer is
    /// returned; where it was granted every [`Bell`] of this progress rings.
    /// `claims` is by definition the list of the claims made that way, each
    /// with its answer. What the answer is rests on the claims that were made
    /// through other handles.
    #[verifier::external_body]
    pub(crate) fn claim(&mut self, failed: bool) -> (granted: bool)
        ensures
            final(self).handle() == old(self).handle(),
            final(self).initial() == old(self).initial(),
            final(self).claims() == old(self).claims().push((failed, granted)),
    {
        self.progress.send_if_modified(|progress| progress.claim(failed))
    }

    /// Calls `tokio::sync::watch::Sender::subscribe`: the new receiver is told
    /// of every change of the same watched value from now on.
    #[verifier::external_body]
    pub(crate) fn bell(&self) -> (bell: Bell)
        ensures
            bell.origin() == self.handle(),
    {
        Bell { receiver: self.progress.subscribe(), origin: Ghost(self.progress) }
    }
}

impl Bell {
    /// The watched progress that this bell belongs to.
    pub closed spec fn origin(self) -> watch::Sender<MergeProgress> {
        self.origin@
    }

    /// The receiver itself.
    pub closed spec fn held(self) -> watch::Receiver<MergeProgress> {
        self.receiver
    }

    /// Hands out the receiver, to be waited on.
    pub fn into_receiver(self) -> (receiver: watch::Receiver<MergeProgress>)
        ensures
            receiver == self.held(),
    {
        self.receiver
    }
}

/// A merge of two sources starts with both still to complete and no error. Of
/// the claims of errors the first is granted and no other; of those of
/// completions the one that leaves no source, which is the second of two. A
/// claim of one kind leaves the account of the other alone.
pub proof fn law_claims_are_counted_apart(held: MergeProgress)
    ensures
        MergeProgress::initial().remaining == 2,
        !MergeProgress::initial().terminated,
        held.grants(true) <==> !held.terminated,
        held.after(true).terminated,
        held.after(true).remaining == held.remaining,
        !held.after(true).grants(true),
        held.grants(false) <==> held.remaining == 1,
        held.after(false).terminated == held.terminated,
        held.remaining > 0 ==> held.after(false).remaining == held.remaining - 1,
        held.remaining == 0 ==> held.after(false).remaining == usize::MAX,
        !MergeProgress::initial().grants(false),
        MergeProgress::initial().after(false).grants(false),
        MergeProgress::initial().grants(true),
        MergeProgress::initial().after(false).grants(true),
{
}

} // verus!
