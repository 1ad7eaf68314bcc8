use tokio::sync::broadcast;
use vstd::prelude::*;

use crate::signal::ChannelSignal;

verus! {

/// `tokio::sync::broadcast::Sender`: a handle on a broadcast channel. Two
/// handles are equal when they are handles on the same channel.
#[verifier::external_type_specification]
#[verifier::external_body]
#[verifier::reject_recursive_types(T)]
pub struct ExBroadcastSender<T>(broadcast::Sender<T>);

/// `tokio::sync::broadcast::Receiver`: one receiver of a broadcast channel.
#[verifier::external_type_specification]
#[verifier::external_body]
#[verifier::reject_recursive_types(T)]
pub struct ExBroadcastReceiver<T>(broadcast::Receiver<T>);

/// `clone` of `tokio::sync::broadcast::Sender` returns another handle on the
/// same channel.
pub assume_specification<T>[ <broadcast::Sender<T> as Clone>::clone ](
    sender: &broadcast::Sender<T>,
) -> (handle: broadcast::Sender<T>)
    ensures
        handle == *sender,
;

/// The sending side of one broadcast channel, with the record of what was
/// handed to it.
#[verifier::reject_recursive_types(T)]
#[verifier::reject_recursive_types(E)]
pub struct Channel<T, E> {
    sender: broadcast::Sender<ChannelSignal<T, E>>,
    capacity: Ghost<usize>,
    sent: Ghost<Seq<ChannelSignal<T, E>>>,
    answers: Ghost<Seq<Result<usize, ChannelSignal<T, E>>>>,
}

/// A receiver of a [`Channel`], which gets what is sent after it was opened.
#[verifier::reject_recursive_types(T)]
#[verifier::reject_recursive_types(E)]
pub struct Tap<T, E> {
    receiver: broadcast::Receiver<ChannelSignal<T, E>>,
    origin: Ghost<broadcast::Sender<ChannelSignal<T, E>>>,
    missed: Ghost<Seq<ChannelSignal<T, E>>>,
}

impl<T, E> Channel<T, E> {
    /// The broadcast channel behind this value.
    pub closed spec fn handle(self) -> broadcast::Sender<ChannelSignal<T, E>> {
        self.sender
    }

    /// The capacity that the channel was opened with.
    pub closed spec fn capacity(self) -> usize {
        self.capacity@
    }

    /// Everything that was handed to the channel through this value, in order.
    pub closed spec fn sent(self) -> Seq<ChannelSignal<T, E>> {
        self.sent@
    }

    /// What the channel answered each time, in order: how many receivers it
    /// had, or the signal itself where it had none.
    pub closed spec fn answers(self) -> Seq<Result<usize, ChannelSignal<T, E>>> {
        self.answers@
    }

    /// Calls `tokio::sync::broadcast::channel` with `capacity` and keeps the
    /// sending handle; the receiver that comes with it is dropped. That
    /// function panics for a capacity of zero and for one above half of
    /// `usize::MAX`. `capacity` is by definition the argument of this call, and
    /// `sent` and `answers` list what was handed over since, and what came
    /// back: nothing yet.
    #[verifier::external_body]
    pub(crate) fn open(capacity: usize) -> (channel: Self) where T: Clone, E: Clone
        requires
            0 < capacity <= usize::MAX / 2,
        ensures
            channel.capacity() == capacity,
            channel.sent().len() == 0,
            channel.answers().len() == 0,
    {
        let (sender, _) = broadcast::channel(capacity);
        let (sent, answers) = (Ghost(Seq::empty()), Ghost(Seq::empty()));
        Channel { sender, capacity: Ghost(capacity), sent, answers }
    }

    /// Another handle on the channel. What is sent through it is not recorded
    /// here.
    pub fn sender(&self) -> (sender: broadcast::Sender<ChannelSignal<T, E>>)
        ensures
            sender == self.handle(),
    {
        self.sender.clone()
    }

    /// Calls `tokio::sync::broadcast::Sender::send` once, with `signal`, on
    /// this channel; `sent` and `answers` are by definition the lists of the
    /// signals handed over that way and of what came back. `Ok` carries the number of receivers the channel has at
    /// that moment, which is not zero; `Err` hands the signal back. Which of
    /// the two it is rests on receivers that live elsewhere.
    #[verifier::external_body]
    pub(crate) fn send(&mut self, signal: ChannelSignal<T, E>) -> (outcome: Result<
        usize,
        ChannelSignal<T, E>,
    >)
        ensures
            final(self).handle() == old(self).handle(),
            final(self).capacity() == old(self).capacity(),
            final(self).sent() == old(self).sent().push(signal),
            final(self).answers() == old(self).answers().push(outcome),
            outcome matches Ok(receivers) ==> receivers > 0,
            outcome matches Err(returned) ==> returned == signal,
    {
        self.sender.send(signal).map_err(|refused| refused.0)
    }

    /// Calls `tokio::sync::broadcast::Sender::subscribe` on this channel: the
    /// new receiver belongs to the same channel, and gets none of what was
    /// sent before, of which `missed` lists what went through this value (not
    /// what went through a raw handle). That function panics where the channel
    /// already has a quarter of `usize::MAX` receivers, which no argument here
    /// can tell.
    #[verifier::external_body]
    pub(crate) fn tap(&self) -> (tap: Tap<T, E>)
        ensures
            tap.origin() == self.handle(),
            tap.missed() == self.sent(),
    {
        let receiver = self.sender.subscribe();
        Tap { receiver, origin: Ghost(self.sender), missed: Ghost(self.sent@) }
    }
}

impl<T, E> Tap<T, E> {
    /// The channel that this receiver belongs to.
    pub closed spec fn origin(self) -> broadcast::Sender<ChannelSignal<T, E>> {
        self.origin@
    }

    /// What the [`Channel`] value had sent before this receiver was opened, and
    /// so never reaches it. What was sent through a raw handle before that does
    /// not reach it either, and is not listed.
    pub closed spec fn missed(self) -> Seq<ChannelSignal<T, E>> {
        self.missed@
    }

    /// The receiver itself.
    pub closed spec fn held(self) -> broadcast::Receiver<ChannelSignal<T, E>> {
        self.receiver
    }

    /// Hands out the receiver, to be read from.
    pub fn into_receiver(self) -> (receiver: broadcast::Receiver<ChannelSignal<T, E>>)
        ensures
            receiver == self.held(),
    {
        self.receiver
    }
}

} // verus!
