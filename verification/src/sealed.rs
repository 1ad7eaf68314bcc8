use vstd::prelude::*;

verus! {

/// Keeps [`SubjectPolicy`](crate::SubjectPolicy) closed to types of this crate.
pub trait Sealed {

}

} // verus!
