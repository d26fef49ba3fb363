//! The scalar that geometry, costs and linear models share.
use vstd::prelude::*;

verus! {

/// A real scalar: copyable, with the arithmetic and comparisons the solvers use.
///
/// Every operation is a function of its operands; which function it is belongs to
/// the implementation. Nothing algebraic is promised (rounding may break any law
/// of the reals, and a value may be nonfinite), so contracts written over these
/// operations fix the exact order in which they are applied.
pub trait Real: Copy + Send + Sync {
    spec fn zero_spec() -> Self;

    spec fn one_spec() -> Self;

    spec fn epsilon_spec() -> Self;

    spec fn ratio_spec(numerator: u64, denominator: u64) -> Self;

    spec fn plus_spec(self, other: Self) -> Self;

    spec fn minus_spec(self, other: Self) -> Self;

    spec fn times_spec(self, other: Self) -> Self;

    spec fn over_spec(self, other: Self) -> Self;

    spec fn negate_spec(self) -> Self;

    spec fn abs_spec(self) -> Self;

    spec fn sqrt_spec(self) -> Self;

    spec fn hypot_spec(self, other: Self) -> Self;

    spec fn max_spec(self, other: Self) -> Self;

    spec fn min_spec(self, other: Self) -> Self;

    spec fn finite_spec(self) -> bool;

    spec fn below_spec(self, other: Self) -> bool;

    spec fn at_most_spec(self, other: Self) -> bool;

    spec fn same_spec(self, other: Self) -> bool;

    /// Additive identity.
    fn zero() -> (r: Self)
        ensures
            r == Self::zero_spec(),
    ;

    /// Multiplicative identity.
    fn one() -> (r: Self)
        ensures
            r == Self::one_spec(),
    ;

    /// Machine epsilon of this precision.
    fn epsilon() -> (r: Self)
        ensures
            r == Self::epsilon_spec(),
    ;

    /// The value nearest to `numerator / denominator`.
    fn ratio(numerator: u64, denominator: u64) -> (r: Self)
        requires
            denominator != 0,
        ensures
            r == Self::ratio_spec(numerator, denominator),
    ;

    /// `self + other`.
    fn plus(self, other: Self) -> (r: Self)
        ensures
            r == self.plus_spec(other),
    ;

    /// `self - other`.
    fn minus(self, other: Self) -> (r: Self)
        ensures
            r == self.minus_spec(other),
    ;

    /// `self * other`.
    fn times(self, other: Self) -> (r: Self)
        ensures
            r == self.times_spec(other),
    ;

    /// `self / other`.
    fn over(self, other: Self) -> (r: Self)
        ensures
            r == self.over_spec(other),
    ;

    /// `-self`.
    fn negate(self) -> (r: Self)
        ensures
            r == self.negate_spec(),
    ;

    /// Magnitude.
    fn abs(self) -> (r: Self)
        ensures
            r == self.abs_spec(),
    ;

    /// Square root.
    fn sqrt(self) -> (r: Self)
        ensures
            r == self.sqrt_spec(),
    ;

    /// `sqrt(self * self + other * other)` without intermediate overflow.
    fn hypot(self, other: Self) -> (r: Self)
        ensures
            r == self.hypot_spec(other),
    ;

    /// The larger of the two.
    fn max(self, other: Self) -> (r: Self)
        ensures
            r == self.max_spec(other),
    ;

    /// The smaller of the two.
    fn min(self, other: Self) -> (r: Self)
        ensures
            r == self.min_spec(other),
    ;

    /// Neither infinite nor undefined.
    fn is_finite(self) -> (r: bool)
        ensures
            r == self.finite_spec(),
    ;

    /// `self < other`.
    fn below(self, other: Self) -> (r: bool)
        ensures
            r == self.below_spec(other),
    ;

    /// `self <= other`.
    fn at_most(self, other: Self) -> (r: bool)
        ensures
            r == self.at_most_spec(other),
    ;

    /// `self == other` as numbers.
    fn same(self, other: Self) -> (r: bool)
        ensures
            r == self.same_spec(other),
    ;
}

} // verus!
