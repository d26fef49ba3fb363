//! Building blocks from which storage for several types is put together.
use core::marker::PhantomData;
use vstd::prelude::*;

verus! {

/// Two groups of families, visited in order.
pub struct Pair<A, B> {
    pub first: A,
    pub second: B,
}

/// A group without families.
pub struct Nothing<R> {
    pub scalar: PhantomData<R>,
}

} // verus!
