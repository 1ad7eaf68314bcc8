use vstd::prelude::*;

verus! {

/// A predicate on values that is asked with a record of what it was asked, and
/// of the verdicts it gave. A verdict of `None` means that it failed.
pub trait Judge<T> {
    /// Whether the predicate may be asked about `value`.
    spec fn ready(&self, value: T) -> bool;

    /// Whether `verdict` is something that the predicate may give on `value`.
    spec fn gives(&self, value: T, verdict: Option<bool>) -> bool;

    /// What the predicate was asked so far and its verdicts, in order.
    spec fn asked(&self) -> Seq<(T, Option<bool>)>;

    /// Asks the predicate once.
    fn judge(&mut self, value: &T) -> (verdict: Option<bool>)
        requires
            old(self).ready(*value),
        ensures
            old(self).gives(*value, verdict),
            final(self).asked() == old(self).asked().push((*value, verdict)),
    ;
}

/// A function as a predicate, as seen by one that asks it.
pub struct Asked<'a, F, T> {
    function: &'a F,
    asked: Ghost<Seq<(T, Option<bool>)>>,
}

impl<'a, F, T> Asked<'a, F, T> {
    /// The function that is asked.
    pub closed spec fn function(&self) -> F {
        *self.function
    }

    /// What the function was asked so far and its verdicts, in order.
    pub closed spec fn record(&self) -> Seq<(T, Option<bool>)> {
        self.asked@
    }

    /// `function`, asked nothing yet.
    pub fn of(function: &'a F) -> (asked: Self)
        ensures
            asked.function() == *function,
            asked.record() == Seq::<(T, Option<bool>)>::empty(),
    {
        Asked { function, asked: Ghost(Seq::empty()) }
    }
}

impl<'a, F: Fn(&T) -> Option<bool>, T> Judge<T> for Asked<'a, F, T> {
    open spec fn ready(&self, value: T) -> bool {
        call_requires(self.function(), (&value,))
    }

    open spec fn gives(&self, value: T, verdict: Option<bool>) -> bool {
        call_ensures(self.function(), (&value,), verdict)
    }

    open spec fn asked(&self) -> Seq<(T, Option<bool>)> {
        self.record()
    }

    fn judge(&mut self, value: &T) -> (verdict: Option<bool>) {
        let verdict = (self.function)(value);
        self.asked = Ghost(self.asked@.push((*value, verdict)));
        verdict
    }
}

/// Which questions were put to a predicate over one arrival: one about a value,
/// to which `verdict` is the answer, and none about anything else.
pub open spec fn asked_once<T>(
    before: Seq<(T, Option<bool>)>,
    value: Option<T>,
    verdict: Option<bool>,
    after: Seq<(T, Option<bool>)>,
) -> bool {
    match value {
        Some(t) => after == before.push((t, verdict)),
        None => after == before,
    }
}

/// A predicate is asked exactly once about a value, and about nothing else: the
/// record grows by just that question, with just that answer.
pub proof fn law_each_value_is_one_question<T>(
    before: Seq<(T, Option<bool>)>,
    value: T,
    verdict: Option<bool>,
    after: Seq<(T, Option<bool>)>,
)
    ensures
        asked_once(before, Some(value), verdict, after) ==> after.len() == before.len() + 1
            && after[before.len() as int] == (value, verdict) && forall|i: int|
            0 <= i < before.len() ==> #[trigger] after[i] == before[i],
        asked_once(before, None, verdict, after) ==> after == before,
{
}

} // verus!
