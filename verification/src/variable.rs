//! Optimizable Lie-group values with right-side tangent increments.
use crate::scalar::Real;
use vstd::prelude::*;

verus! {

/// A Lie-group value that the solver moves by right-side increments.
///
/// `x * y` below stands for `x.compose(y)`. Tangent vectors are coordinate lists of
/// length `dof()`, and square tangent-space matrices are stored column by column.
/// All operations of one implementation share a coordinate order.
pub trait Variable: Sized {
    /// Scalar shared by the value, its tangent coordinates and its Jacobians.
    type Scalar: Real;

    spec fn dof_spec() -> nat;

    spec fn tangent_spec(coords: Seq<Self::Scalar>) -> Option<Seq<Self::Scalar>>;

    spec fn identity_spec() -> Self;

    spec fn compose_spec(self, other: Self) -> Self;

    spec fn inverse_spec(self) -> Self;

    spec fn exp_spec(delta: Seq<Self::Scalar>) -> Self;

    spec fn log_spec(self) -> Seq<Self::Scalar>;

    spec fn adjoint_spec(self) -> Seq<Self::Scalar>;

    spec fn right_jacobian_spec(delta: Seq<Self::Scalar>) -> Seq<Self::Scalar>;

    spec fn right_jacobian_inverse_spec(delta: Seq<Self::Scalar>) -> Seq<Self::Scalar>;

    spec fn retract_spec(self, delta: Seq<Self::Scalar>) -> Self;

    spec fn local_spec(self, other: Self) -> Seq<Self::Scalar>;

    /// Number of tangent coordinates.
    fn dof() -> (n: usize)
        ensures
            n == Self::dof_spec(),
    ;

    /// Turn a coordinate list into a tangent vector; a list of another length than `dof()` is
    /// refused.
    ///
    /// [`copied`] is the plain form.
    fn tangent_from_slice(coords: &[Self::Scalar]) -> (delta: Option<Vec<Self::Scalar>>)
        ensures
            coords@.len() == Self::dof_spec() ==> delta is Some,
            delta is Some <==> Self::tangent_spec(coords@) is Some,
            delta matches Some(vector) ==> {
                &&& vector@ == Self::tangent_spec(coords@)->0
                &&& vector@.len() == Self::dof_spec()
            },
    ;

    /// The composition identity.
    fn identity() -> (r: Self)
        ensures
            r == Self::identity_spec(),
    ;

    /// Group product `self * other`.
    fn compose(&self, other: &Self) -> (r: Self)
        ensures
            r == self.compose_spec(*other),
    ;

    /// Group inverse.
    fn inverse(&self) -> (r: Self)
        ensures
            r == self.inverse_spec(),
    ;

    /// Map tangent coordinates at the identity into the group.
    fn exp(delta: &[Self::Scalar]) -> (r: Self)
        requires
            delta@.len() == Self::dof_spec(),
        ensures
            r == Self::exp_spec(delta@),
    ;

    /// Map this value into tangent coordinates at the identity.
    fn log(&self) -> (delta: Vec<Self::Scalar>)
        ensures
            delta@ == self.log_spec(),
            delta@.len() == Self::dof_spec(),
    ;

    /// The matrix that turns a right-side increment into the equivalent left-side one.
    fn adjoint(&self) -> (matrix: Vec<Self::Scalar>)
        ensures
            matrix@ == self.adjoint_spec(),
            matrix@.len() == Self::dof_spec() * Self::dof_spec(),
    ;

    /// Derivative of `exp`, its output change measured on the right.
    fn right_jacobian(delta: &[Self::Scalar]) -> (matrix: Vec<Self::Scalar>)
        requires
            delta@.len() == Self::dof_spec(),
        ensures
            matrix@ == Self::right_jacobian_spec(delta@),
            matrix@.len() == Self::dof_spec() * Self::dof_spec(),
    ;

    /// Inverse of the right Jacobian, where it exists.
    fn right_jacobian_inverse(delta: &[Self::Scalar]) -> (matrix: Vec<Self::Scalar>)
        requires
            delta@.len() == Self::dof_spec(),
        ensures
            matrix@ == Self::right_jacobian_inverse_spec(delta@),
            matrix@.len() == Self::dof_spec() * Self::dof_spec(),
    ;

    /// Apply a right-side increment. Every update of a state goes through it.
    ///
    /// [`right_retraction`] is the plain form; another one may evaluate faster, but has to
    /// keep to `self * exp(delta)`.
    fn retract(&self, delta: &[Self::Scalar]) -> (r: Self)
        requires
            delta@.len() == Self::dof_spec(),
        ensures
            r == self.retract_spec(delta@),
    ;

    /// Coordinates of `other` relative to `self`.
    ///
    /// [`right_difference`] is the plain form; another one has to keep to
    /// `log(self.inverse() * other)`.
    fn local(&self, other: &Self) -> (delta: Vec<Self::Scalar>)
        ensures
            delta@ == self.local_spec(*other),
            delta@.len() == Self::dof_spec(),
    ;
}

/// Coordinates of the right length, unchanged.
pub open spec fn copied_spec<T: Variable>(coords: Seq<T::Scalar>) -> Option<Seq<T::Scalar>> {
    if coords.len() == T::dof_spec() {
        Some(coords)
    } else {
        None
    }
}

/// `x * exp(delta)`.
pub open spec fn right_retraction_spec<T: Variable>(x: T, delta: Seq<T::Scalar>) -> T {
    x.compose_spec(T::exp_spec(delta))
}

/// `log(x.inverse() * y)`.
pub open spec fn right_difference_spec<T: Variable>(x: T, y: T) -> Seq<T::Scalar> {
    x.inverse_spec().compose_spec(y).log_spec()
}

/// Copy a coordinate list of the right length into a tangent vector.
pub fn copied<T: Variable>(coords: &[T::Scalar]) -> (delta: Option<Vec<T::Scalar>>)
    ensures
        delta is Some <==> copied_spec::<T>(coords@) is Some,
        delta matches Some(vector) ==> vector@ == copied_spec::<T>(coords@)->0,
{
    if coords.len() != T::dof() {
        return None;
    }
    let mut delta: Vec<T::Scalar> = Vec::new();
    let mut i: usize = 0;
    while i < coords.len()
        invariant
            i <= coords@.len(),
            delta@ == coords@.take(i as int),
        decreases coords@.len() - i,
    {
        delta.push(coords[i]);
        i += 1;
    }
    assert(coords@.take(i as int) == coords@);
    Some(delta)
}

/// Compose with the exponential of an increment.
pub fn right_retraction<T: Variable>(x: &T, delta: &[T::Scalar]) -> (r: T)
    requires
        delta@.len() == T::dof_spec(),
    ensures
        r == right_retraction_spec(*x, delta@),
{
    x.compose(&T::exp(delta))
}

/// Logarithm of one value seen from another.
pub fn right_difference<T: Variable>(x: &T, y: &T) -> (delta: Vec<T::Scalar>)
    ensures
        delta@ == right_difference_spec(*x, *y),
        delta@.len() == T::dof_spec(),
{
    x.inverse().compose(y).log()
}

/// Whether a type keeps exactly to the plain forms.
pub open spec fn plain<T: Variable>() -> bool {
    &&& forall|coords: Seq<T::Scalar>| #[trigger]
        T::tangent_spec(coords) == copied_spec::<T>(coords)
    &&& forall|x: T, delta: Seq<T::Scalar>| #[trigger]
        x.retract_spec(delta) == right_retraction_spec(x, delta)
    &&& forall|x: T, y: T| #[trigger] x.local_spec(y) == right_difference_spec(x, y)
}

/// The tangent vector made of coordinates of the right length.
pub open spec fn tangent_of<T: Variable>(coords: Seq<T::Scalar>) -> Seq<T::Scalar> {
    T::tangent_spec(coords)->0
}

/// The tangent vector made of coordinates of the right length.
pub fn tangent<T: Variable>(coords: &[T::Scalar]) -> (delta: Vec<T::Scalar>)
    requires
        coords@.len() == T::dof_spec(),
    ensures
        delta@ == tangent_of::<T>(coords@),
        delta@.len() == T::dof_spec(),
{
    T::tangent_from_slice(coords).unwrap()
}

} // verus!
