use vstd::prelude::*;

use crate::sealed::Sealed;

verus! {

/// Determines what a new subscriber sees before joining a subject's live
/// stream: nothing, the last value, everything so far, and so on. Sealed:
/// [`NoReplay`] is the only implementation.
pub trait SubjectPolicy<T>: Sealed {
    /// Per-subject state the policy keeps between emissions.
    type Buffer: Send;

    /// The values that a buffer holds for replay, in order.
    spec fn retained(buffer: Self::Buffer) -> Seq<T>;

    /// What is held after `value` was emitted, where `held` was held before.
    spec fn retain(held: Seq<T>, value: T) -> Seq<T>;

    /// The buffer of a subject that has emitted nothing.
    fn empty() -> (buffer: Self::Buffer)
        ensures
            Self::retained(buffer) == Seq::<T>::empty(),
    ;

    /// Called once per accepted `OnNext`, before it's broadcast.
    fn record(buffer: &mut Self::Buffer, value: &T)
        ensures
            Self::retained(*final(buffer)) == Self::retain(Self::retained(*old(buffer)), *value),
    ;

    /// What to replay to a subscriber joining right now.
    fn replay(buffer: &Self::Buffer) -> (values: Vec<T>)
        ensures
            values@ == Self::retained(*buffer),
    ;
}

/// No replay: a new subscriber sees nothing until the next live emission.
/// This is the default policy of [`Subject`](crate::Subject).
pub struct NoReplay;

impl Sealed for NoReplay {

}

impl<T: Clone> SubjectPolicy<T> for NoReplay {
    type Buffer = ();

    open spec fn retained(buffer: ()) -> Seq<T> {
        Seq::empty()
    }

    open spec fn retain(held: Seq<T>, value: T) -> Seq<T> {
        Seq::empty()
    }

    fn empty() -> (buffer: ()) {
    }

    fn record(_buffer: &mut (), _value: &T) {
    }

    fn replay(_buffer: &()) -> (values: Vec<T>) {
        Vec::new()
    }
}

} // verus!
