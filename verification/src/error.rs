use vstd::prelude::*;

verus! {

/// Errors returned by the emitting methods of [`Subject`](crate::Subject).
///
/// Marked `#[non_exhaustive]`: new variants may be added without a breaking
/// change.
#[derive(Debug)]
#[non_exhaustive]
pub enum SendError {
    /// No subscriber is currently listening, so the value wasn't delivered.
    NoReceivers,
}

/// The text shown to a user for `error`.
pub open spec fn shown(error: SendError) -> Seq<char> {
    match error {
        SendError::NoReceivers => "no active receivers for this subject"@,
    }
}

impl SendError {
    /// The text shown to a user for this error.
    pub fn message(&self) -> (text: &'static str)
        ensures
            text@ == shown(*self),
            self is NoReceivers ==> text@ == "no active receivers for this subject"@,
    {
        match self {
            SendError::NoReceivers => "no active receivers for this subject",
        }
    }
}

/// What an emitting method reports for what the channel answered: the number
/// of receivers, or that there were none.
pub open spec fn reported<S>(outcome: Result<usize, S>) -> Result<usize, SendError> {
    match outcome {
        Ok(receivers) => Ok(receivers),
        Err(_) => Err(SendError::NoReceivers),
    }
}

/// Turns the answer of a channel into the result of an emitting method.
pub fn report<S>(outcome: Result<usize, S>) -> (result: Result<usize, SendError>)
    ensures
        result == reported(outcome),
        outcome matches Ok(receivers) ==> result == Ok::<usize, SendError>(receivers),
        outcome is Err ==> result == Err::<usize, SendError>(SendError::NoReceivers),
{
    match outcome {
        Ok(receivers) => Ok(receivers),
        Err(_) => Err(SendError::NoReceivers),
    }
}

/// What an emitting method reports is the channel's own answer: a count of
/// receivers exactly where the channel gave that count, and that there are none
/// exactly where the channel handed the signal back.
pub proof fn law_report_is_the_answer<S>(outcome: Result<usize, S>)
    ensures
        match outcome {
            Ok(receivers) => reported(outcome) == Ok::<usize, SendError>(receivers),
            Err(_) => reported(outcome) == Err::<usize, SendError>(SendError::NoReceivers),
        },
        match reported(outcome) {
            Ok(receivers) => outcome == Ok::<usize, S>(receivers),
            Err(_) => outcome is Err,
        },
{
}

/// A user is told that there are no active receivers exactly for that.
pub proof fn law_error_is_named(error: SendError)
    ensures
        error is NoReceivers ==> shown(error) == "no active receivers for this subject"@,
{
}

} // verus!
