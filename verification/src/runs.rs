use vstd::prelude::*;

verus! {

/// A factory of sequences whose runs are on record.
pub trait Factory<S> {
    /// Whether the factory may be run.
    spec fn ready(&self) -> bool;

    /// Whether a run of the factory may make `sequence`.
    spec fn makes(&self, sequence: S) -> bool;

    /// What the runs so far have made, in order.
    spec fn made(&self) -> Seq<S>;

    /// Runs the factory once.
    fn make(&mut self) -> (sequence: S)
        requires
            old(self).ready(),
        ensures
            final(self).ready(),
            forall|s: S| #[trigger] final(self).makes(s) == old(self).makes(s),
            old(self).makes(sequence),
            final(self).made() == old(self).made().push(sequence),
    ;
}

/// The runs of a function that makes sequences, as seen by one that runs it.
pub struct Runs<'a, F, S> {
    function: &'a F,
    made: Ghost<Seq<S>>,
}

impl<'a, F, S> Runs<'a, F, S> {
    /// The function that is run.
    pub closed spec fn function(&self) -> F {
        *self.function
    }

    /// What the runs so far have made, in order.
    pub closed spec fn record(&self) -> Seq<S> {
        self.made@
    }

    /// No run of `function` yet.
    pub fn of(function: &'a F) -> (runs: Self)
        ensures
            runs.function() == *function,
            runs.record() == Seq::<S>::empty(),
    {
        Runs { function, made: Ghost(Seq::empty()) }
    }
}

impl<'a, F: Fn() -> S, S> Factory<S> for Runs<'a, F, S> {
    open spec fn ready(&self) -> bool {
        call_requires(self.function(), ())
    }

    open spec fn makes(&self, sequence: S) -> bool {
        call_ensures(self.function(), (), sequence)
    }

    open spec fn made(&self) -> Seq<S> {
        self.record()
    }

    fn make(&mut self) -> (sequence: S) {
        let sequence = (self.function)();
        self.made = Ghost(self.made@.push(sequence));
        sequence
    }
}

} // verus!
