use fagra::error::EvaluationError;
use fagra::factors::{Emitted, Factor, FactorBatch, FactorSelection};
use fagra::key::{BlockId, FactorId, LocalKey, PoolId, RawKey, StateKey};
use fagra::linearization::{JacobianBlock, LinearizationSink, Replies};
use fagra::notation::{Count, Listed};
use fagra::reading::Readable;
use fagra::scalar::Real;
use fagra::storage::StatePool;
use fagra::testing::factors::{
    batch, check_case, check_factor, check_factor_batch, ordinary, Capture, CaptureView, Evaluation,
    FactorCheck, FactorFault, FactorProperty, Seed, Selection, TestStates,
};
use fagra::testing::{
    check_variable, examine, fixed, lengths, Check, Fault, Sample, TestScalar, TestVariable, Tolerance,
    VariableProperty,
};
use fagra::variable::{copied, right_difference, right_retraction, Variable};
use num_dual::{Dual64, DualNum};

/// A real number.
#[derive(Clone, Copy, Debug, PartialEq)]
struct F(f64);

impl Real for F {
    fn zero_spec() -> Self {
        unreachable!()
    }
    fn one_spec() -> Self {
        unreachable!()
    }
    fn epsilon_spec() -> Self {
        unreachable!()
    }
    fn ratio_spec(_: u64, _: u64) -> Self {
        unreachable!()
    }
    fn plus_spec(self, _: Self) -> Self {
        unreachable!()
    }
    fn minus_spec(self, _: Self) -> Self {
        unreachable!()
    }
    fn times_spec(self, _: Self) -> Self {
        unreachable!()
    }
    fn over_spec(self, _: Self) -> Self {
        unreachable!()
    }
    fn hypot_spec(self, _: Self) -> Self {
        unreachable!()
    }
    fn max_spec(self, _: Self) -> Self {
        unreachable!()
    }
    fn min_spec(self, _: Self) -> Self {
        unreachable!()
    }
    fn negate_spec(self) -> Self {
        unreachable!()
    }
    fn abs_spec(self) -> Self {
        unreachable!()
    }
    fn sqrt_spec(self) -> Self {
        unreachable!()
    }
    fn finite_spec(self) -> bool {
        unreachable!()
    }
    fn below_spec(self, _: Self) -> bool {
        unreachable!()
    }
    fn at_most_spec(self, _: Self) -> bool {
        unreachable!()
    }
    fn same_spec(self, _: Self) -> bool {
        unreachable!()
    }
    fn zero() -> Self {
        F(0.0)
    }
    fn one() -> Self {
        F(1.0)
    }
    fn epsilon() -> Self {
        F(f64::EPSILON)
    }
    fn ratio(numerator: u64, denominator: u64) -> Self {
        F(numerator as f64 / denominator as f64)
    }
    fn plus(self, other: Self) -> Self {
        F(self.0 + other.0)
    }
    fn minus(self, other: Self) -> Self {
        F(self.0 - other.0)
    }
    fn times(self, other: Self) -> Self {
        F(self.0 * other.0)
    }
    fn over(self, other: Self) -> Self {
        F(self.0 / other.0)
    }
    fn negate(self) -> Self {
        F(-self.0)
    }
    fn abs(self) -> Self {
        F(self.0.abs())
    }
    fn sqrt(self) -> Self {
        F(self.0.sqrt())
    }
    fn hypot(self, other: Self) -> Self {
        F(self.0.hypot(other.0))
    }
    fn max(self, other: Self) -> Self {
        F(self.0.max(other.0))
    }
    fn min(self, other: Self) -> Self {
        F(self.0.min(other.0))
    }
    fn is_finite(self) -> bool {
        self.0.is_finite()
    }
    fn below(self, other: Self) -> bool {
        self.0 < other.0
    }
    fn at_most(self, other: Self) -> bool {
        self.0 <= other.0
    }
    fn same(self, other: Self) -> bool {
        self.0 == other.0
    }
}

/// A number with a derivative.
#[derive(Clone, Copy, Debug)]
struct D(Dual64);

impl Real for D {
    fn zero_spec() -> Self {
        unreachable!()
    }
    fn one_spec() -> Self {
        unreachable!()
    }
    fn epsilon_spec() -> Self {
        unreachable!()
    }
    fn ratio_spec(_: u64, _: u64) -> Self {
        unreachable!()
    }
    fn plus_spec(self, _: Self) -> Self {
        unreachable!()
    }
    fn minus_spec(self, _: Self) -> Self {
        unreachable!()
    }
    fn times_spec(self, _: Self) -> Self {
        unreachable!()
    }
    fn over_spec(self, _: Self) -> Self {
        unreachable!()
    }
    fn hypot_spec(self, _: Self) -> Self {
        unreachable!()
    }
    fn max_spec(self, _: Self) -> Self {
        unreachable!()
    }
    fn min_spec(self, _: Self) -> Self {
        unreachable!()
    }
    fn negate_spec(self) -> Self {
        unreachable!()
    }
    fn abs_spec(self) -> Self {
        unreachable!()
    }
    fn sqrt_spec(self) -> Self {
        unreachable!()
    }
    fn finite_spec(self) -> bool {
        unreachable!()
    }
    fn below_spec(self, _: Self) -> bool {
        unreachable!()
    }
    fn at_most_spec(self, _: Self) -> bool {
        unreachable!()
    }
    fn same_spec(self, _: Self) -> bool {
        unreachable!()
    }
    fn zero() -> Self {
        D(Dual64::new(0.0, 0.0))
    }
    fn one() -> Self {
        D(Dual64::new(1.0, 0.0))
    }
    fn epsilon() -> Self {
        D(Dual64::new(f64::EPSILON, 0.0))
    }
    fn ratio(numerator: u64, denominator: u64) -> Self {
        D(Dual64::new(numerator as f64 / denominator as f64, 0.0))
    }
    fn plus(self, other: Self) -> Self {
        D(self.0 + other.0)
    }
    fn minus(self, other: Self) -> Self {
        D(self.0 - other.0)
    }
    fn times(self, other: Self) -> Self {
        D(self.0 * other.0)
    }
    fn over(self, other: Self) -> Self {
        D(self.0 / other.0)
    }
    fn negate(self) -> Self {
        D(-self.0)
    }
    fn abs(self) -> Self {
        if self.0.re < 0.0 {
            self.negate()
        } else {
            self
        }
    }
    fn sqrt(self) -> Self {
        D(DualNum::sqrt(&self.0))
    }
    fn hypot(self, other: Self) -> Self {
        self.times(self).plus(other.times(other)).sqrt()
    }
    fn max(self, other: Self) -> Self {
        if self.0.re < other.0.re {
            other
        } else {
            self
        }
    }
    fn min(self, other: Self) -> Self {
        if other.0.re < self.0.re {
            other
        } else {
            self
        }
    }
    fn is_finite(self) -> bool {
        self.0.re.is_finite() && self.0.eps.is_finite()
    }
    fn below(self, other: Self) -> bool {
        self.0.re < other.0.re
    }
    fn at_most(self, other: Self) -> bool {
        self.0.re <= other.0.re
    }
    fn same(self, other: Self) -> bool {
        self.0.re == other.0.re
    }
}

impl TestScalar for F {
    type Dual = D;
    type Wide = F;

    fn wide_epsilon_spec() -> F {
        unreachable!()
    }
    fn from_test_value_spec(_: F) -> F {
        unreachable!()
    }
    fn test_value_spec(self) -> F {
        unreachable!()
    }
    fn dual_spec(self, _: F) -> D {
        unreachable!()
    }
    fn parts_spec(_: D) -> (F, F) {
        unreachable!()
    }
    fn wide_epsilon() -> F {
        F(f64::EPSILON)
    }
    fn from_test_value(value: F) -> F {
        value
    }
    fn test_value(self) -> F {
        self
    }
    fn dual(self, derivative: F) -> D {
        D(Dual64::new(self.0, derivative.0))
    }
    fn parts(value: D) -> (F, F) {
        (F(value.0.re), F(value.0.eps))
    }
}

/// A scalar with an exponential.
trait Smooth: Real + std::fmt::Debug {
    fn grown(self) -> Self;
    fn value(self) -> f64;
}

impl Smooth for F {
    fn grown(self) -> Self {
        F(self.0.exp())
    }
    fn value(self) -> f64 {
        self.0
    }
}

impl Smooth for D {
    fn grown(self) -> Self {
        D(DualNum::exp(&self.0))
    }
    fn value(self) -> f64 {
        self.0.re
    }
}

/// `(exp(u) - 1) / u`, and its derivative.
fn quotient<S: Smooth>(u: S) -> (S, S) {
    if u.value().abs() < 1e-2 {
        let (mut sum, mut slope, mut power) = (S::zero(), S::zero(), S::one());
        let mut factorial = 1;
        for k in 0..8_u64 {
            factorial *= k + 1;
            sum = sum.plus(power.times(S::ratio(1, factorial)));
            slope = slope.plus(power.times(S::ratio(k + 1, factorial * (k + 2))));
            power = power.times(u);
        }
        (sum, slope)
    } else {
        let grown = u.grown();
        let sum = grown.minus(S::one()).over(u);
        (sum, grown.minus(sum).over(u))
    }
}

/// Scalings and shifts of the line: `x` goes to `exp(scale) * x + shift`. The parameter breaks
/// one operation at a time.
#[derive(Clone, Copy, Debug)]
struct Affine<S, const FLAW: usize> {
    scale: S,
    shift: S,
}

impl<S: Smooth, const FLAW: usize> Variable for Affine<S, FLAW> {
    type Scalar = S;

    fn dof_spec() -> Count {
        unreachable!()
    }
    fn tangent_spec(_: Listed<S>) -> Option<Listed<S>> {
        unreachable!()
    }
    fn retract_spec(self, _: Listed<S>) -> Self {
        unreachable!()
    }
    fn local_spec(self, _: Self) -> Listed<S> {
        unreachable!()
    }
    fn identity_spec() -> Self {
        unreachable!()
    }
    fn compose_spec(self, _: Self) -> Self {
        unreachable!()
    }
    fn inverse_spec(self) -> Self {
        unreachable!()
    }
    fn exp_spec(_: Listed<S>) -> Self {
        unreachable!()
    }
    fn log_spec(self) -> Listed<S> {
        unreachable!()
    }
    fn adjoint_spec(self) -> Listed<S> {
        unreachable!()
    }
    fn right_jacobian_spec(_: Listed<S>) -> Listed<S> {
        unreachable!()
    }
    fn right_jacobian_inverse_spec(_: Listed<S>) -> Listed<S> {
        unreachable!()
    }

    fn dof() -> usize {
        2
    }
    fn tangent_from_slice(coords: &[S]) -> Option<Vec<S>> {
        match FLAW {
            6 => copied::<Self>(coords).map(|delta| vec![delta[0], delta[1].plus(delta[1])]),
            7 if coords.len() > 2 => copied::<Self>(&coords[..2]),
            10 if coords.len() < 2 => Some(vec![S::zero(), S::zero()]),
            _ => copied::<Self>(coords),
        }
    }
    fn retract(&self, delta: &[S]) -> Self {
        if FLAW == 8 {
            return Self::exp(delta).compose(self);
        }
        right_retraction(self, delta)
    }
    fn local(&self, other: &Self) -> Vec<S> {
        if FLAW == 9 {
            return other.compose(&self.inverse()).log();
        }
        right_difference(self, other)
    }
    fn identity() -> Self {
        Affine { scale: S::zero(), shift: S::zero() }
    }
    fn compose(&self, other: &Self) -> Self {
        let moved = if FLAW == 1 { other.shift } else { self.scale.grown().times(other.shift) };
        Affine { scale: self.scale.plus(other.scale), shift: self.shift.plus(moved) }
    }
    fn inverse(&self) -> Self {
        let scale = self.scale.negate();
        Affine { scale, shift: scale.grown().times(self.shift).negate() }
    }
    fn exp(delta: &[S]) -> Self {
        Affine { scale: delta[0], shift: delta[1].times(quotient(delta[0]).0) }
    }
    fn log(&self) -> Vec<S> {
        let shift = self.shift.over(quotient(self.scale).0);
        if FLAW == 2 {
            return vec![self.scale, shift.plus(S::ratio(1, 1000))];
        }
        vec![self.scale, shift]
    }
    fn adjoint(&self) -> Vec<S> {
        let corner = if FLAW == 3 { self.shift } else { self.shift.negate() };
        vec![S::one(), corner, S::zero(), self.scale.grown()]
    }
    fn right_jacobian(delta: &[S]) -> Vec<S> {
        let back = delta[0].negate().grown();
        let (sum, slope) = quotient(delta[0]);
        vec![S::one(), back.times(delta[1]).times(slope), S::zero(), back.times(sum)]
    }
    fn right_jacobian_inverse(delta: &[S]) -> Vec<S> {
        if FLAW == 4 {
            return vec![S::one(), S::zero(), S::zero(), S::one()];
        }
        let j = Self::right_jacobian(delta);
        vec![S::one(), j[1].negate().over(j[3]), S::zero(), S::one().over(j[3])]
    }
}

impl<const FLAW: usize> TestVariable<F> for Affine<F, FLAW> {
    type Dual = Affine<D, FLAW>;

    fn lifted_spec(self) -> Self::Dual {
        unreachable!()
    }
    fn equivalent_spec(self, _: Self, _: Tolerance<F>) -> bool {
        unreachable!()
    }
    fn smooth_spec(self) -> bool {
        unreachable!()
    }
    fn to_dual(&self) -> Self::Dual {
        Affine { scale: self.scale.dual(F(0.0)), shift: self.shift.dual(F(0.0)) }
    }
    fn equivalent(&self, other: &Self, tolerance: Tolerance<F>) -> bool {
        tolerance.close(self.scale, other.scale) && tolerance.close(self.shift, other.shift)
    }
    fn log_is_smooth(&self) -> bool {
        FLAW != 5 && self.scale.0 < 3.0
    }
}

fn affine<const FLAW: usize>(scale: f64, shift: f64) -> Affine<F, FLAW> {
    Affine { scale: F(scale), shift: F(shift) }
}

fn samples<const FLAW: usize>() -> Vec<Sample<F, Affine<F, FLAW>>> {
    let mut samples = Vec::new();
    for i in 0..5 {
        let at = i as f64;
        samples.push(Sample {
            x: affine(0.3 * at - 0.5, at - 1.7),
            y: affine(0.4 - 0.2 * at, 0.6 * at),
            z: affine(0.1 * at, 1.0 - at),
            delta: vec![F(0.25 * at - 0.6), F(0.5 - 0.3 * at)],
        });
    }
    samples
}

const PROPERTIES: [VariableProperty; 6] = [
    VariableProperty::Coordinates,
    VariableProperty::GroupLaws,
    VariableProperty::ExpLog,
    VariableProperty::RetractLocal,
    VariableProperty::Adjoint,
    VariableProperty::Jacobians,
];

fn tolerance() -> Tolerance<F> {
    Tolerance::for_scalar::<F>()
}

#[test]
fn a_sound_group_has_all_properties() {
    for property in PROPERTIES {
        let fault = check_variable(property, &samples::<0>(), tolerance());
        assert!(fault.is_none(), "{property:?} {fault:?}");
    }
}

#[test]
fn each_broken_operation_is_found_by_its_property() {
    let t = tolerance();
    assert!(matches!(
        check_variable(VariableProperty::GroupLaws, &samples::<1>(), t),
        Some(Fault::States(Check::LeftInverse))
    ));
    assert!(matches!(
        check_variable(VariableProperty::ExpLog, &samples::<2>(), t),
        Some(Fault::Coefficients { check: Check::LogOfIdentity, row: 1, .. })
    ));
    assert!(matches!(
        check_variable(VariableProperty::RetractLocal, &samples::<2>(), t),
        Some(Fault::Coefficients { check: Check::LocalToItself, row: 1, .. })
    ));
    assert!(matches!(
        check_variable(VariableProperty::Adjoint, &samples::<3>(), t),
        Some(Fault::States(Check::AdjointConjugation))
    ));
    assert!(matches!(
        check_variable(VariableProperty::Jacobians, &samples::<4>(), t),
        Some(Fault::Coefficients { check: Check::JacobianInverse, .. })
    ));
    assert!(fixed::<F, Affine<F, 3>>(VariableProperty::Adjoint, t).is_none());
    assert!(fixed::<F, Affine<F, 4>>(VariableProperty::Jacobians, t).is_some());
}

#[test]
fn tangent_vectors_retraction_and_local_coordinates_are_called_as_the_type_has_them() {
    let t = tolerance();
    // Twice the second coordinate: whatever is made of coordinates is off, in dual numbers too.
    assert!(matches!(
        check_variable(VariableProperty::Coordinates, &samples::<6>(), t),
        Some(Fault::Coefficients {
            check: Check::CoordinateRoundTrip,
            row: 1,
            actual: F(1.0),
            expected: F(0.5),
            ..
        })
    ));
    assert!(matches!(
        check_variable(VariableProperty::Adjoint, &samples::<6>(), t),
        Some(Fault::States(Check::AdjointConjugation))
    ));
    assert!(matches!(
        fixed::<F, Affine<F, 6>>(VariableProperty::Jacobians, t),
        Some(Fault::Coefficients {
            check: Check::ExpDerivative,
            row: 1,
            column: 1,
            actual: F(2.0),
            expected: F(1.0),
        })
    ));
    assert!(check_variable(VariableProperty::RetractLocal, &samples::<6>(), t).is_none());
    // Lists of a wrong length.
    assert!(matches!(
        check_variable(VariableProperty::Coordinates, &samples::<7>(), t),
        Some(Fault::Accepted { length: 3 })
    ));
    assert!(matches!(
        check_variable(VariableProperty::Coordinates, &samples::<10>(), t),
        Some(Fault::Accepted { length: 1 })
    ));
    assert!(lengths::<F, Affine<F, 0>>().is_none());
    // An increment on the left.
    assert!(matches!(
        check_variable(VariableProperty::RetractLocal, &samples::<8>(), t),
        Some(Fault::States(Check::RightRetraction))
    ));
    assert!(matches!(
        fixed::<F, Affine<F, 8>>(VariableProperty::Jacobians, t),
        Some(Fault::Coefficients { check: Check::LogOfExpDerivative, .. })
    ));
    // A difference on the left.
    assert!(matches!(
        check_variable(VariableProperty::RetractLocal, &samples::<9>(), t),
        Some(Fault::Coefficients { check: Check::LocalConvention, .. })
    ));
    assert!(matches!(
        check_variable(VariableProperty::Jacobians, &samples::<9>(), t),
        Some(Fault::Coefficients { check: Check::LocalBaseValue, .. })
            | Some(Fault::Coefficients { check: Check::LocalBaseDerivative, .. })
    ));
}

#[test]
fn rejected_samples_are_passed_over_but_fixed_cases_must_not_be_rejected() {
    let t = tolerance();
    let far = Sample {
        x: affine::<0>(4.0, 1.0),
        y: affine(0.0, 0.0),
        z: affine(0.0, 0.0),
        delta: vec![F(0.1), F(0.2)],
    };
    let verdict = examine(VariableProperty::ExpLog, &far.x, &far.y, &far.z, &far.delta, t);
    assert!(matches!(verdict, Some(Fault::Rejected)));
    assert!(examine(VariableProperty::GroupLaws, &far.x, &far.y, &far.z, &far.delta, t).is_none());
    assert!(check_variable(VariableProperty::ExpLog, &[far], t).is_none());
    for property in [
        VariableProperty::ExpLog,
        VariableProperty::RetractLocal,
        VariableProperty::Jacobians,
    ] {
        assert!(matches!(fixed::<F, Affine<F, 5>>(property, t), Some(Fault::Rejected)));
    }
    assert!(fixed::<F, Affine<F, 5>>(VariableProperty::Adjoint, t).is_none());
}

#[test]
fn tolerances_follow_precision_and_reject_nonfinite_coefficients() {
    let t = tolerance();
    assert_eq!((t.absolute, t.relative), (F(1e-9), F(1e-9)));
    assert!(t.valid());
    let t = Tolerance { absolute: F(0.5), relative: F(0.25) };
    assert!(t.close(F(10.0), F(7.0)));
    assert!(!t.close(F(10.0), F(6.9)));
    assert!(!t.close(F(f64::INFINITY), F(f64::INFINITY)));
    assert!(!t.close(F(f64::NAN), F(0.0)));
    assert!(!Tolerance { absolute: F(-1.0), relative: F(0.0) }.valid());
    assert!(!Tolerance { absolute: F(0.0), relative: F(f64::NAN) }.valid());
}

/// A point of the line.
#[derive(Clone, Copy, Debug)]
struct Point<S>(S);

impl<S: Smooth> Variable for Point<S> {
    type Scalar = S;

    fn dof_spec() -> Count {
        unreachable!()
    }
    fn tangent_spec(_: Listed<S>) -> Option<Listed<S>> {
        unreachable!()
    }
    fn retract_spec(self, _: Listed<S>) -> Self {
        unreachable!()
    }
    fn local_spec(self, _: Self) -> Listed<S> {
        unreachable!()
    }
    fn identity_spec() -> Self {
        unreachable!()
    }
    fn compose_spec(self, _: Self) -> Self {
        unreachable!()
    }
    fn inverse_spec(self) -> Self {
        unreachable!()
    }
    fn exp_spec(_: Listed<S>) -> Self {
        unreachable!()
    }
    fn log_spec(self) -> Listed<S> {
        unreachable!()
    }
    fn adjoint_spec(self) -> Listed<S> {
        unreachable!()
    }
    fn right_jacobian_spec(_: Listed<S>) -> Listed<S> {
        unreachable!()
    }
    fn right_jacobian_inverse_spec(_: Listed<S>) -> Listed<S> {
        unreachable!()
    }

    fn dof() -> usize {
        1
    }
    fn tangent_from_slice(coords: &[S]) -> Option<Vec<S>> {
        copied::<Self>(coords)
    }
    fn retract(&self, delta: &[S]) -> Self {
        right_retraction(self, delta)
    }
    fn local(&self, other: &Self) -> Vec<S> {
        right_difference(self, other)
    }
    fn identity() -> Self {
        Point(S::zero())
    }
    fn compose(&self, other: &Self) -> Self {
        Point(self.0.plus(other.0))
    }
    fn inverse(&self) -> Self {
        Point(self.0.negate())
    }
    fn exp(delta: &[S]) -> Self {
        Point(delta[0])
    }
    fn log(&self) -> Vec<S> {
        vec![self.0]
    }
    fn adjoint(&self) -> Vec<S> {
        vec![S::one()]
    }
    fn right_jacobian(_: &[S]) -> Vec<S> {
        vec![S::one()]
    }
    fn right_jacobian_inverse(_: &[S]) -> Vec<S> {
        vec![S::one()]
    }
}

type Points<S> = StatePool<Point<S>>;

/// What is wrong with a factor.
#[derive(Clone, Copy, Debug, PartialEq)]
enum Flaw {
    Sound,
    Slope,
    Cost,
    Negative,
    Evaluation,
    Weighted,
    Nested,
    Unclosed,
    Unopened,
    Unknown,
    Duplicate,
    Missing,
    Outside,
    NonfiniteResidual,
    NonfiniteJacobian,
    Undeclared,
    Repeated,
    Shape,
    Foreign,
}

/// `x * y - value`.
struct Product<S> {
    x: StateKey<Point<S>>,
    y: StateKey<Point<S>>,
    value: f64,
    flaw: Flaw,
}

fn constant<S: Smooth>(value: f64) -> S {
    let scaled = S::ratio((value.abs() * 1024.0) as u64, 1024);
    if value < 0.0 {
        scaled.negate()
    } else {
        scaled
    }
}

fn stranger() -> BlockId {
    let mut counter = 900;
    let pool = PoolId::allocate(&mut counter).unwrap();
    BlockId { raw: RawKey { pool, local: LocalKey { slot: 0, generation: 0 } } }
}

impl<S: Smooth> Product<S> {
    fn parts(&self, states: &Points<S>) -> Result<(S, S, S), EvaluationError> {
        let x = states.get(self.x).map_err(EvaluationError::from)?.0;
        let y = states.get(self.y).map_err(EvaluationError::from)?.0;
        Ok((x, y, x.times(y).minus(constant(self.value))))
    }

    fn emit<K: LinearizationSink<Scalar = S>>(
        &self,
        states: &Points<S>,
        sink: &mut K,
    ) -> Result<(), EvaluationError> {
        let (x, y, mut r) = self.parts(states)?;
        let slope = if self.flaw == Flaw::Slope { y.plus(S::one()) } else { y };
        let mut first = JacobianBlock::new(self.x, 1, vec![slope]);
        let mut second = JacobianBlock::new(self.y, 1, vec![x]);
        match self.flaw {
            Flaw::NonfiniteResidual => r = r.over(S::zero()),
            Flaw::NonfiniteJacobian => first.values[0] = S::one().over(S::zero()),
            Flaw::Undeclared => first.variable = stranger(),
            Flaw::Repeated => second.variable = first.variable,
            Flaw::Shape => second.rows = 2,
            Flaw::Weighted => {
                // Squared error beyond one counts linearly: weight by one over its size.
                let weight = S::one().over(r.abs()).sqrt();
                first.values[0] = first.values[0].times(weight);
                second.values[0] = second.values[0].times(weight);
                r = r.times(weight);
            }
            _ => {}
        }
        sink.residual(vec![r], vec![first, second])
    }
}

impl<S: Smooth> Factor<Points<S>> for Product<S> {
    type Scalar = S;

    fn variables_spec(&self) -> Listed<BlockId> {
        unreachable!()
    }
    fn cost_spec(&self, _: <Points<S> as Readable>::Reading) -> Result<S, EvaluationError> {
        unreachable!()
    }
    fn linearize_spec(&self, _: <Points<S> as Readable>::Reading, _: Replies<S>) -> Emitted<S> {
        unreachable!()
    }

    fn visit_variables(&self, visited: &mut Vec<BlockId>) {
        visited.push(self.x.block_id());
        visited.push(self.y.block_id());
        if self.flaw == Flaw::Foreign {
            visited.push(stranger());
        }
    }
    fn cost(&self, states: &Points<S>) -> Result<S, EvaluationError> {
        let (_, _, r) = self.parts(states)?;
        let half = r.times(r).times(S::ratio(1, 2));
        match self.flaw {
            Flaw::Cost => Ok(half.plus(S::one())),
            Flaw::Negative => Ok(half.negate().minus(S::one())),
            Flaw::Evaluation => Err(EvaluationError::InvalidEvaluation),
            Flaw::Weighted => Ok(r.abs().minus(S::ratio(1, 2))),
            _ => Ok(half),
        }
    }
    fn linearize<K: LinearizationSink<Scalar = S>>(
        &self,
        states: &Points<S>,
        sink: &mut K,
    ) -> Result<(), EvaluationError> {
        if self.flaw == Flaw::Nested {
            sink.open(factor_id(0))?;
        }
        if self.flaw == Flaw::Unopened {
            sink.close(Ok(()))?;
            sink.close(Ok(()))?;
        }
        self.emit(states, sink)
    }
}

fn factor_id(slot: u32) -> FactorId {
    let mut counter = 77;
    let pool = PoolId::allocate(&mut counter).unwrap();
    FactorId { raw: RawKey { pool, local: LocalKey { slot, generation: 0 } } }
}

/// Products of one variable with others, evaluated together.
struct Products<S> {
    x: StateKey<Point<S>>,
    flaw: Flaw,
}

impl<S: Smooth> Products<S> {
    fn alone(&self, payload: &(StateKey<Point<S>>, f64)) -> Product<S> {
        Product { x: self.x, y: payload.0, value: payload.1, flaw: self.flaw }
    }
}

impl<S: Smooth> FactorBatch<Points<S>> for Products<S> {
    type Scalar = S;
    type Factor = (StateKey<Point<S>>, f64);

    fn variables_spec(&self, _: Self::Factor) -> Listed<BlockId> {
        unreachable!()
    }
    fn cost_spec(
        &self,
        _: <Points<S> as Readable>::Reading,
        _: Listed<(FactorId, Self::Factor)>,
    ) -> Result<S, EvaluationError> {
        unreachable!()
    }
    fn linearize_spec(
        &self,
        _: <Points<S> as Readable>::Reading,
        _: Listed<(FactorId, Self::Factor)>,
        _: Replies<S>,
    ) -> Emitted<S> {
        unreachable!()
    }

    fn visit_variables(&self, payload: &Self::Factor, visited: &mut Vec<BlockId>) {
        visited.push(self.x.block_id());
        visited.push(payload.0.block_id());
    }
    fn cost(
        &self,
        states: &Points<S>,
        mut factors: FactorSelection<'_, Self::Factor>,
    ) -> Result<S, EvaluationError> {
        let mut total = if self.flaw == Flaw::Cost { S::one() } else { S::zero() };
        while let Some((_, payload)) = factors.next() {
            let (_, _, r) = self.alone(payload).parts(states)?;
            total = total.plus(r.times(r).times(S::ratio(1, 2)));
        }
        Ok(total)
    }
    fn linearize<K: LinearizationSink<Scalar = S>>(
        &self,
        states: &Points<S>,
        mut factors: FactorSelection<'_, Self::Factor>,
        sink: &mut K,
    ) -> Result<(), EvaluationError> {
        while let Some((id, payload)) = factors.next() {
            match self.flaw {
                Flaw::Missing => continue,
                Flaw::Unknown => sink.open(factor_id(50))?,
                Flaw::Outside => {}
                _ => sink.open(id)?,
            }
            let emitted = self.alone(payload).emit(states, sink);
            if self.flaw != Flaw::Unclosed {
                sink.close(emitted)?;
            }
            if self.flaw == Flaw::Duplicate {
                sink.open(id)?;
                sink.close(Ok(()))?;
            }
        }
        Ok(())
    }
}

/// Two variables, and one product of them or two in a batch.
struct Case {
    x: f64,
    y: f64,
    value: f64,
    flaw: Flaw,
    batched: bool,
}

impl Case {
    fn run<S: Smooth>(
        &self,
        selection: Selection,
        seed: Option<Seed<S>>,
    ) -> Result<(S, Capture<S>), FactorFault<F>> {
        let mut counter = 5;
        let mut states =
            TestStates::new(Points::<S>::new(PoolId::allocate(&mut counter).unwrap()), seed);
        let x = states.insert(Point(constant(self.x)));
        let y = states.insert(Point(constant(self.y)));
        if self.batched {
            let payloads = [(y, self.value), (y, self.value + 1.0)];
            let model = Products { x, flaw: self.flaw };
            batch(&states, &model, &payloads, factor_id(0).raw.pool, selection)
        } else {
            let factor = Product { x, y, value: self.value, flaw: self.flaw };
            ordinary(&states, &factor, factor_id(0))
        }
    }
}

impl Evaluation<F> for Case {
    fn evaluate_spec(&self, _: Selection) -> Result<(F, CaptureView<F>), FactorFault<F>> {
        unreachable!()
    }
    fn lifted_spec(
        &self,
        _: Selection,
        _: Option<(usize, usize)>,
    ) -> Result<(D, CaptureView<D>), FactorFault<F>> {
        unreachable!()
    }
    fn evaluate(&self, selection: Selection) -> Result<(F, Capture<F>), FactorFault<F>> {
        self.run(selection, None)
    }
    fn lifted(
        &self,
        selection: Selection,
        seed: Option<(usize, usize)>,
    ) -> Result<(D, Capture<D>), FactorFault<F>> {
        let amount = F(0.0).dual(F(1.0));
        self.run(selection, seed.map(|(variable, column)| Seed { variable, column, amount }))
    }
}

fn case(flaw: Flaw, batched: bool) -> Case {
    Case { x: 1.5, y: -2.0, value: 0.25, flaw, batched }
}

const FACTOR_PROPERTIES: [FactorProperty; 3] =
    [FactorProperty::Cost, FactorProperty::Jacobians, FactorProperty::LocalModel];

#[test]
fn sound_factors_and_batches_have_all_properties() {
    for property in FACTOR_PROPERTIES {
        let t = tolerance();
        let cases = [case(Flaw::Sound, false), Case { x: 0.0, y: 3.0, ..case(Flaw::Sound, false) }];
        assert!(check_factor(&cases, property, t).is_none());
        let cases = [case(Flaw::Sound, true), Case { x: -0.5, y: 0.0, ..case(Flaw::Sound, true) }];
        assert!(check_factor_batch(&cases, property, t).is_none());
    }
}

#[test]
fn a_seed_moves_one_coordinate_as_it_is_inserted() {
    let mut counter = 5;
    let pool = Points::<F>::new(PoolId::allocate(&mut counter).unwrap());
    let seed = Seed { variable: 1, column: 0, amount: F(0.5) };
    let mut states = TestStates::new(pool, Some(seed));
    let a = states.insert(Point(F(1.0)));
    let b = states.insert(Point(F(2.0)));
    assert_eq!(states.states.get(a).unwrap().0, F(1.0));
    assert_eq!(states.states.get(b).unwrap().0, F(2.5));
    assert_eq!(states.blocks, [a.block_id(), b.block_id()]);
    assert_eq!(states.widths, [1, 1]);
}

#[test]
fn increments_reach_a_state_through_the_operations_of_its_type() {
    // Twice the second coordinate, then an increment on the left of `2 x + 1`.
    let mut counter = 5;
    let pool = StatePool::<Affine<F, 6>>::new(PoolId::allocate(&mut counter).unwrap());
    let seed = Seed { variable: 0, column: 1, amount: F(0.25) };
    let mut states = TestStates::new(pool, Some(seed));
    let key = states.insert(affine(0.0, 1.0));
    assert_eq!(states.states.get(key).unwrap().shift, F(1.5));
    let mut pool = states.states;
    pool.stage(&[F(0.0), F(0.5)]).unwrap();
    pool.accept_trial();
    assert_eq!(pool.get(key).unwrap().shift, F(2.5));
    let mut pool = StatePool::<Affine<F, 8>>::new(PoolId::allocate(&mut counter).unwrap());
    let key = pool.insert(affine(f64::ln(2.0), 1.0));
    pool.stage(&[F(0.0), F(0.5)]).unwrap();
    pool.accept_trial();
    assert_eq!(pool.get(key).unwrap().shift, F(1.5));
}

fn fault(flaw: Flaw, batched: bool, property: FactorProperty) -> Option<FactorFault<F>> {
    check_case(&case(flaw, batched), batched, property, tolerance())
}

#[test]
fn each_flaw_of_a_factor_is_named() {
    let cost = FactorProperty::Cost;
    let jacobians = FactorProperty::Jacobians;
    assert!(fault(Flaw::Slope, false, cost).is_none());
    assert!(matches!(
        fault(Flaw::Slope, false, jacobians),
        Some(FactorFault::Coefficients { check: FactorCheck::DualDerivative, .. })
    ));
    assert!(matches!(
        fault(Flaw::Slope, false, FactorProperty::LocalModel),
        Some(FactorFault::Coefficients { check: FactorCheck::DualCostDerivative, .. })
    ));
    assert!(matches!(
        fault(Flaw::Cost, false, cost),
        Some(FactorFault::Coefficients {
            check: FactorCheck::CostOfResiduals,
            actual: F(6.28125),
            expected: F(5.28125),
        })
    ));
    assert!(matches!(
        fault(Flaw::Negative, false, cost),
        Some(FactorFault::InvalidCost(F(-6.28125)))
    ));
    assert!(matches!(
        fault(Flaw::Evaluation, false, cost),
        Some(FactorFault::Evaluation(EvaluationError::InvalidEvaluation))
    ));
    assert!(matches!(
        fault(Flaw::Weighted, false, cost),
        Some(FactorFault::Coefficients { check: FactorCheck::CostOfResiduals, .. })
    ));
    assert!(matches!(
        fault(Flaw::Weighted, false, jacobians),
        Some(FactorFault::Coefficients { check: FactorCheck::CostOfResiduals, .. })
    ));
    assert!(fault(Flaw::Weighted, false, FactorProperty::LocalModel).is_none());
    assert!(matches!(fault(Flaw::Nested, false, cost), Some(FactorFault::NestedScope)));
    assert!(matches!(fault(Flaw::Unopened, false, cost), Some(FactorFault::UnopenedScope)));
    assert!(matches!(
        fault(Flaw::NonfiniteResidual, false, cost),
        Some(FactorFault::NonfiniteResidual)
    ));
    assert!(matches!(
        fault(Flaw::NonfiniteJacobian, false, cost),
        Some(FactorFault::NonfiniteJacobian(_))
    ));
    assert!(matches!(
        fault(Flaw::Undeclared, false, cost),
        Some(FactorFault::UndeclaredVariable(id)) if id == stranger()
    ));
    assert!(matches!(fault(Flaw::Repeated, false, cost), Some(FactorFault::DuplicateJacobian(_))));
    assert!(matches!(fault(Flaw::Shape, false, cost), Some(FactorFault::JacobianDimensions(_))));
    assert!(matches!(
        fault(Flaw::Foreign, false, cost),
        Some(FactorFault::UnknownVariable(id)) if id == stranger()
    ));
}

#[test]
fn each_flaw_of_a_batch_is_named() {
    let cost = FactorProperty::Cost;
    assert!(matches!(fault(Flaw::Missing, true, cost), Some(FactorFault::MissingScope)));
    assert!(matches!(
        fault(Flaw::Unknown, true, cost),
        Some(FactorFault::UnknownFactor(id)) if id == factor_id(50)
    ));
    assert!(matches!(fault(Flaw::Outside, true, cost), Some(FactorFault::ResidualOutsideScope)));
    assert!(matches!(fault(Flaw::Unclosed, true, cost), Some(FactorFault::NestedScope)));
    assert!(matches!(
        fault(Flaw::Duplicate, true, cost),
        Some(FactorFault::DuplicateScope(id)) if id == factor_id(0)
    ));
    assert!(matches!(
        fault(Flaw::Cost, true, FactorProperty::LocalModel),
        Some(FactorFault::Coefficients {
            check: FactorCheck::EmptyCost,
            actual: F(1.0),
            expected: F(0.0),
        })
    ));
    let single = case(Flaw::Unclosed, true).run::<F>(Selection::One(1), None);
    assert!(matches!(single, Err(FactorFault::UnclosedScope)));
    let beyond = case(Flaw::Sound, true).run::<F>(Selection::One(2), None);
    assert!(matches!(
        beyond,
        Err(FactorFault::Evaluation(EvaluationError::InvalidEmission))
    ));
    let (value, capture) = case(Flaw::Sound, true).run::<F>(Selection::One(1), None).unwrap();
    assert_eq!(value, F(0.5 * 4.25 * 4.25));
    assert_eq!(capture.scopes.len(), 1);
    assert_eq!(capture.scopes[0].id, factor_id(1));
    assert_eq!(capture.scopes[0].residuals[0].values, [F(-4.25)]);
}

/// A case whose evaluations do not fit together.
struct Shifting {
    base: Case,
    widths: bool,
    rows: bool,
    scopes: bool,
    values: f64,
}

impl Evaluation<F> for Shifting {
    fn evaluate_spec(&self, _: Selection) -> Result<(F, CaptureView<F>), FactorFault<F>> {
        unreachable!()
    }
    fn lifted_spec(
        &self,
        _: Selection,
        _: Option<(usize, usize)>,
    ) -> Result<(D, CaptureView<D>), FactorFault<F>> {
        unreachable!()
    }
    fn evaluate(&self, selection: Selection) -> Result<(F, Capture<F>), FactorFault<F>> {
        let (cost, mut capture) = self.base.evaluate(selection)?;
        if let Selection::One(_) = selection {
            if self.scopes {
                capture.scopes[0].id = factor_id(9);
            }
            capture.scopes[0].residuals[0].values[0].0 += self.values;
        }
        Ok((cost, capture))
    }
    fn lifted(
        &self,
        selection: Selection,
        seed: Option<(usize, usize)>,
    ) -> Result<(D, Capture<D>), FactorFault<F>> {
        let (cost, mut capture) = self.base.lifted(selection, seed)?;
        if self.widths {
            capture.widths.push(1);
        }
        if self.rows {
            capture.scopes[0].residuals.clear();
        }
        Ok((cost, capture))
    }
}

#[test]
fn evaluations_of_one_case_must_fit_together() {
    let t = tolerance();
    let sound = || Shifting {
        base: case(Flaw::Sound, true),
        widths: false,
        rows: false,
        scopes: false,
        values: 0.0,
    };
    let jacobians = FactorProperty::Jacobians;
    assert!(check_case(&sound(), true, jacobians, t).is_none());
    let moved = Shifting { widths: true, ..sound() };
    assert!(matches!(check_case(&moved, true, jacobians, t), Some(FactorFault::LayoutChanged)));
    let shorter = Shifting { rows: true, ..sound() };
    assert!(matches!(check_case(&shorter, true, jacobians, t), Some(FactorFault::ResidualsChanged)));
    let renamed = Shifting { scopes: true, ..sound() };
    assert!(matches!(check_case(&renamed, true, jacobians, t), Some(FactorFault::ScopesChanged)));
    let shifted = Shifting { values: 0.5, ..sound() };
    assert!(matches!(
        check_case(&shifted, true, FactorProperty::LocalModel, t),
        Some(FactorFault::Coefficients { check: FactorCheck::SelectedResidual, .. })
    ));
}
