//! Names for mathematical types, for signatures outside verified code.
use vstd::prelude::*;

verus! {

/// A mathematical sequence.
pub type Listed<T> = Seq<T>;

/// A natural number.
pub type Count = nat;

/// What a linear map does to a vector.
pub type Action<R> = spec_fn(Seq<R>) -> Seq<R>;

} // verus!
