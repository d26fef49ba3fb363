//! What evaluators can observe of the variables they are given.
use vstd::prelude::*;

verus! {

/// State storage as evaluators see it.
///
/// Evaluators reach estimates only through handles, so two storages with the same
/// reading are indistinguishable to them, whether or not a trial is staged.
pub trait Readable {
    /// Identities with their current estimates.
    type Reading;

    spec fn wf(&self) -> bool;

    spec fn reading(&self) -> Self::Reading;
}

} // verus!
