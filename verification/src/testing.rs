//! Property checks of user-defined variables.
//!
//! The checks establish consistency, not that a group represents the intended model.
//! States should cover the representation directly; increments must lie in the chosen
//! logarithm chart. Dual evaluations must run the same geometry as real ones.
use crate::scalar::Real;
use crate::variable::{plain, tangent, tangent_of, Variable};
use vstd::prelude::*;

pub mod factors;
pub mod laws;
pub mod variable_laws;

verus! {

/// A precision under test: its dual numbers, and the wide scalar that comparisons use.
pub trait TestScalar: Real {
    /// Dual number of the same precision.
    type Dual: Real;

    /// Scalar of diagnostics and comparisons.
    type Wide: Real;

    spec fn wide_epsilon_spec() -> Self::Wide;

    spec fn from_test_value_spec(value: Self::Wide) -> Self;

    spec fn test_value_spec(self) -> Self::Wide;

    spec fn dual_spec(self, derivative: Self::Wide) -> Self::Dual;

    spec fn parts_spec(value: Self::Dual) -> (Self::Wide, Self::Wide);

    /// Machine epsilon of this precision.
    fn wide_epsilon() -> (r: Self::Wide)
        ensures
            r == Self::wide_epsilon_spec(),
    ;

    /// Round a coordinate to this precision.
    fn from_test_value(value: Self::Wide) -> (r: Self)
        ensures
            r == Self::from_test_value_spec(value),
    ;

    /// Widen a coefficient.
    fn test_value(self) -> (r: Self::Wide)
        ensures
            r == self.test_value_spec(),
    ;

    /// Attach a derivative.
    fn dual(self, derivative: Self::Wide) -> (r: Self::Dual)
        ensures
            r == self.dual_spec(derivative),
    ;

    /// Value and derivative of a dual number.
    fn parts(value: Self::Dual) -> (r: (Self::Wide, Self::Wide))
        ensures
            r == Self::parts_spec(value),
    ;
}

/// Absolute and relative tolerances for finite coefficients.
#[derive(Debug, Clone, Copy)]
pub struct Tolerance<W> {
    /// Error allowed near zero.
    pub absolute: W,
    /// Relative error allowed at larger magnitudes.
    pub relative: W,
}

/// `max(1e-9, 128 * epsilon)` of a precision.
pub open spec fn tolerance_spec<R: TestScalar>() -> R::Wide {
    R::Wide::ratio_spec(128, 1).times_spec(R::wide_epsilon_spec()).max_spec(
        R::Wide::ratio_spec(1, 1_000_000_000),
    )
}

impl<W: Real> Tolerance<W> {
    /// Whether two finite coefficients agree.
    pub open spec fn close_spec(self, actual: W, expected: W) -> bool {
        &&& actual.finite_spec()
        &&& expected.finite_spec()
        &&& actual.minus_spec(expected).abs_spec().at_most_spec(
            self.absolute.plus_spec(
                self.relative.times_spec(actual.abs_spec().max_spec(expected.abs_spec())),
            ),
        )
    }

    /// Both tolerances are finite and nonnegative.
    pub open spec fn valid_spec(self) -> bool {
        &&& self.absolute.finite_spec()
        &&& W::zero_spec().at_most_spec(self.absolute)
        &&& self.relative.finite_spec()
        &&& W::zero_spec().at_most_spec(self.relative)
    }

    /// The defaults of a precision.
    pub fn for_scalar<R: TestScalar<Wide = W>>() -> (tolerance: Self)
        ensures
            tolerance.absolute == tolerance_spec::<R>(),
            tolerance.relative == tolerance_spec::<R>(),
    {
        let tolerance = W::ratio(128, 1).times(R::wide_epsilon()).max(W::ratio(1, 1_000_000_000));
        Tolerance { absolute: tolerance, relative: tolerance }
    }

    /// Check `|actual - expected| <= absolute + relative * max(|actual|, |expected|)`.
    /// Nonfinite coefficients never agree, not even with themselves.
    pub fn close(self, actual: W, expected: W) -> (close: bool)
        ensures
            close == self.close_spec(actual, expected),
    {
        actual.is_finite() && expected.is_finite() && actual.minus(expected).abs().at_most(
            self.absolute.plus(self.relative.times(actual.abs().max(expected.abs()))),
        )
    }

    /// Whether both tolerances are finite and nonnegative.
    pub fn valid(self) -> (valid: bool)
        ensures
            valid == self.valid_spec(),
    {
        self.absolute.is_finite() && W::zero().at_most(self.absolute) && self.relative.is_finite()
            && W::zero().at_most(self.relative)
    }
}

/// What a comparison of variables is about.
#[derive(Debug, Clone, Copy, PartialEq, Eq, Structural)]
pub enum Check {
    CoordinateRoundTrip,
    LeftIdentity,
    RightIdentity,
    LeftInverse,
    RightInverse,
    DoubleInverse,
    Associativity,
    ProductInverse,
    ExpOfZero,
    LogOfIdentity,
    LogOfExp,
    ExpOfLog,
    LiftedLogValue,
    LiftedLogDerivative,
    ZeroRetraction,
    RightRetraction,
    LocalToItself,
    LocalConvention,
    LocalOfRetraction,
    RetractionOfLocal,
    AdjointOfIdentity,
    AdjointOfProduct,
    AdjointConjugation,
    JacobianOfZero,
    InverseJacobianOfZero,
    JacobianInverse,
    ExpValue,
    ExpDerivative,
    LogOfExpValue,
    LogOfExpDerivative,
    LogValue,
    LogDerivative,
    AdjointValue,
    AdjointDerivative,
    ComposeLeftValue,
    ComposeLeftDerivative,
    ComposeRightValue,
    ComposeRightDerivative,
    InverseValue,
    InverseDerivative,
    RetractBaseValue,
    RetractBaseDerivative,
    RetractIncrementValue,
    RetractIncrementDerivative,
    LocalBaseValue,
    LocalBaseDerivative,
    LocalTargetValue,
    LocalTargetDerivative,
}

/// Why a check did not pass.
#[derive(Debug, Clone, Copy)]
pub enum Fault<W> {
    /// The input lies outside the smooth domain of the logarithm.
    Rejected,
    /// Two states are not equivalent.
    States(Check),
    /// Coordinates of a wrong length were turned into a tangent vector.
    Accepted { length: usize },
    /// Two coefficients disagree.
    Coefficients { check: Check, row: usize, column: usize, actual: W, expected: W },
}

/// The first fault of two checks made one after the other.
pub open spec fn either<F>(first: Option<F>, second: Option<F>) -> Option<F> {
    if first is Some {
        first
    } else {
        second
    }
}

/// Whether check `i` is the first to fail.
pub open spec fn fails_first<F>(faults: Seq<Option<F>>, i: int) -> bool {
    &&& 0 <= i < faults.len()
    &&& faults[i] is Some
    &&& forall|j: int| 0 <= j < i ==> (#[trigger] faults[j]) is None
}

/// The first fault of checks made in order.
pub open spec fn earliest<F>(faults: Seq<Option<F>>) -> Option<F> {
    if exists|i: int| fails_first(faults, i) {
        faults[choose|i: int| fails_first(faults, i)]
    } else {
        None
    }
}

/// The check that fails first decides.
pub proof fn lemma_earliest<F>(faults: Seq<Option<F>>, i: int)
    requires
        fails_first(faults, i),
    ensures
        earliest(faults) == faults[i],
{
    let k = choose|k: int| fails_first(faults, k);
    assert(fails_first(faults, k));
    if k < i {
        assert(faults[k] is None);
    }
    if i < k {
        assert(faults[i] is None);
    }
}

/// Where nothing fails, there is no fault.
pub proof fn lemma_no_fault<F>(faults: Seq<Option<F>>)
    requires
        forall|j: int| 0 <= j < faults.len() ==> (#[trigger] faults[j]) is None,
    ensures
        earliest(faults) is None,
{
}

/// The fault of comparing two coefficients.
pub open spec fn near_spec<W: Real>(
    t: Tolerance<W>,
    check: Check,
    row: usize,
    column: usize,
    actual: W,
    expected: W,
) -> Option<Fault<W>> {
    if t.close_spec(actual, expected) {
        None
    } else {
        Some(Fault::Coefficients { check, row, column, actual, expected })
    }
}

/// Compare two coefficients.
pub fn near<W: Real>(
    t: Tolerance<W>,
    check: Check,
    row: usize,
    column: usize,
    actual: W,
    expected: W,
) -> (fault: Option<Fault<W>>)
    ensures
        fault == near_spec(t, check, row, column, actual, expected),
{
    if t.close(actual, expected) {
        None
    } else {
        Some(Fault::Coefficients { check, row, column, actual, expected })
    }
}

/// Widened coefficients.
pub open spec fn widened<R: TestScalar>(values: Seq<R>) -> Seq<R::Wide> {
    Seq::new(values.len(), |i: int| values[i].test_value_spec())
}

/// Widen coefficients.
pub fn widen<R: TestScalar>(values: &[R]) -> (wide: Vec<R::Wide>)
    ensures
        wide@ == widened(values@),
{
    let mut wide: Vec<R::Wide> = Vec::new();
    let mut i: usize = 0;
    while i < values.len()
        invariant
            i <= values@.len(),
            wide@.len() == i,
            forall|j: int| 0 <= j < i ==> #[trigger] wide@[j] == values@[j].test_value_spec(),
        decreases values@.len() - i,
    {
        wide.push(values[i].test_value());
        i += 1;
    }
    wide
}

/// Coefficients rounded to a precision.
pub open spec fn narrowed<R: TestScalar>(values: Seq<R::Wide>) -> Seq<R> {
    Seq::new(values.len(), |i: int| R::from_test_value_spec(values[i]))
}

/// Round coefficients to a precision.
pub fn narrow<R: TestScalar>(values: &[R::Wide]) -> (narrow: Vec<R>)
    ensures
        narrow@ == narrowed::<R>(values@),
{
    let mut narrow: Vec<R> = Vec::new();
    let mut i: usize = 0;
    while i < values.len()
        invariant
            i <= values@.len(),
            narrow@.len() == i,
            forall|j: int|
                0 <= j < i ==> #[trigger] narrow@[j] == R::from_test_value_spec(values@[j]),
        decreases values@.len() - i,
    {
        narrow.push(R::from_test_value(values[i]));
        i += 1;
    }
    narrow
}

/// The fault of comparing two coordinate lists, each entry in turn.
pub open spec fn vector_spec<W: Real>(
    t: Tolerance<W>,
    check: Check,
    actual: Seq<W>,
    expected: Seq<W>,
) -> Option<Fault<W>> {
    earliest(
        Seq::new(
            actual.len(),
            |i: int| near_spec(t, check, i as usize, 0, actual[i], expected[i]),
        ),
    )
}

/// Compare two coordinate lists of one length.
pub fn vector<W: Real>(t: Tolerance<W>, check: Check, actual: &[W], expected: &[W]) -> (fault:
    Option<Fault<W>>)
    requires
        actual@.len() == expected@.len(),
    ensures
        fault == vector_spec(t, check, actual@, expected@),
{
    let ghost faults = Seq::new(
        actual@.len(),
        |i: int| near_spec(t, check, i as usize, 0, actual@[i], expected@[i]),
    );
    let mut i: usize = 0;
    while i < actual.len()
        invariant
            i <= actual@.len(),
            actual@.len() == expected@.len(),
            faults == Seq::new(
                actual@.len(),
                |i: int| near_spec(t, check, i as usize, 0, actual@[i], expected@[i]),
            ),
            vector_spec(t, check, actual@, expected@) == earliest(faults),
            forall|j: int| 0 <= j < i ==> (#[trigger] faults[j]) is None,
        decreases actual@.len() - i,
    {
        let fault = near(t, check, i, 0, actual[i], expected[i]);
        assert(fault == faults[i as int]);
        if fault.is_some() {
            proof {
                lemma_earliest(faults, i as int);
            }
            return fault;
        }
        i += 1;
    }
    proof {
        lemma_no_fault(faults);
    }
    None
}

/// Entry of a square matrix stored column by column.
pub open spec fn at<W>(n: nat, matrix: Seq<W>, row: int, column: int) -> W {
    matrix[column * n + row]
}

/// The square matrix with the given entries, stored column by column.
pub open spec fn square<W>(n: nat, entry: spec_fn(int, int) -> W) -> Seq<W> {
    Seq::new(n * n, |k: int| entry(k % n as int, k / n as int))
}

/// An entry of a square matrix is what it was made of.
pub proof fn lemma_square<W>(n: nat, entry: spec_fn(int, int) -> W, row: int, column: int)
    requires
        0 <= row < n,
        0 <= column < n,
    ensures
        at(n, square(n, entry), row, column) == entry(row, column),
        0 <= column * n + row < n * n,
{
    crate::linearization::lemma_entry_index(n, n, row, column);
    vstd::arithmetic::div_mod::lemma_fundamental_div_mod_converse(
        column * n + row,
        n as int,
        column,
        row,
    );
}

/// Entries of the identity.
pub open spec fn unit_entry<W: Real>(row: int, column: int) -> W {
    if row == column {
        W::one_spec()
    } else {
        W::zero_spec()
    }
}

/// The identity matrix.
pub open spec fn unit_spec<W: Real>(n: nat) -> Seq<W> {
    square(n, |row: int, column: int| unit_entry::<W>(row, column))
}

/// The first `m` terms of a row of one matrix times a column of another.
pub open spec fn dot_spec<W: Real>(n: nat, a: Seq<W>, b: Seq<W>, row: int, column: int, m: int) -> W
    decreases m,
{
    if m <= 0 {
        W::zero_spec()
    } else {
        dot_spec(n, a, b, row, column, m - 1).plus_spec(
            at(n, a, row, m - 1).times_spec(at(n, b, m - 1, column)),
        )
    }
}

/// Product of two square matrices.
pub open spec fn product_spec<W: Real>(n: nat, a: Seq<W>, b: Seq<W>) -> Seq<W> {
    square(n, |row: int, column: int| dot_spec(n, a, b, row, column, n as int))
}

/// Product of a square matrix and a coordinate list.
pub open spec fn image_spec<W: Real>(n: nat, a: Seq<W>, v: Seq<W>) -> Seq<W> {
    Seq::new(n, |row: int| dot_spec(n, a, v, row, 0, n as int))
}

/// Every entry negated.
pub open spec fn negated_spec<W: Real>(values: Seq<W>) -> Seq<W> {
    Seq::new(values.len(), |i: int| values[i].negate_spec())
}

fn negated<W: Real>(values: &[W]) -> (negated: Vec<W>)
    ensures
        negated@ == negated_spec(values@),
{
    let mut negated: Vec<W> = Vec::new();
    let mut i: usize = 0;
    while i < values.len()
        invariant
            i <= values@.len(),
            negated@.len() == i,
            forall|j: int| 0 <= j < i ==> #[trigger] negated@[j] == values@[j].negate_spec(),
        decreases values@.len() - i,
    {
        negated.push(values[i].negate());
        i += 1;
    }
    negated
}

/// One row of a square matrix times one column of another, or times a coordinate list.
fn dot<W: Real>(n: usize, a: &[W], b: &[W], row: usize, column: usize) -> (sum: W)
    requires
        a@.len() == n * n,
        row < n,
        b@.len() >= column * n + n,
    ensures
        sum == dot_spec(n as nat, a@, b@, row as int, column as int, n as int),
{
    let mut sum = W::zero();
    let mut m: usize = 0;
    while m < n
        invariant
            m <= n,
            a@.len() == n * n,
            a@.len() == a.len(),
            b@.len() == b.len(),
            row < n,
            b@.len() >= column * n + n,
            sum == dot_spec(n as nat, a@, b@, row as int, column as int, m as int),
        decreases n - m,
    {
        proof {
            crate::linearization::lemma_entry_index(n as nat, n as nat, row as int, m as int);
        }
        sum = sum.plus(a[m * n + row].times(b[column * n + m]));
        m += 1;
    }
    sum
}

fn unit<W: Real>(n: usize) -> (matrix: Vec<W>)
    requires
        n * n <= usize::MAX,
    ensures
        matrix@ == unit_spec::<W>(n as nat),
{
    let ghost entry = |row: int, column: int| unit_entry::<W>(row, column);
    let mut matrix: Vec<W> = Vec::new();
    let mut column: usize = 0;
    assert(0 * n == 0) by (nonlinear_arith);
    while column < n
        invariant
            column <= n,
            n * n <= usize::MAX,
            entry == |row: int, column: int| unit_entry::<W>(row, column),
            matrix@.len() == column * n,
            matrix@ == square(n as nat, entry).take(column * n),
            column * n <= n * n,
        decreases n - column,
    {
        let mut row: usize = 0;
        proof {
            crate::linearization::lemma_entry_index(n as nat, n as nat, 0, column as int);
        }
        while row < n
            invariant
                row <= n,
                column < n,
                n * n <= usize::MAX,
                entry == |row: int, column: int| unit_entry::<W>(row, column),
                matrix@.len() == column * n + row,
                matrix@ == square(n as nat, entry).take(column * n + row),
                column * n + n <= n * n,
            decreases n - row,
        {
            proof {
                lemma_square(n as nat, entry, row as int, column as int);
            }
            let value = if row == column {
                W::one()
            } else {
                W::zero()
            };
            matrix.push(value);
            assert(matrix@ =~= square(n as nat, entry).take(column * n + row + 1));
            row += 1;
        }
        assert(column * n + n == (column + 1) * n) by (nonlinear_arith);
        column += 1;
    }
    assert(square(n as nat, entry).take(n * n) =~= square(n as nat, entry));
    matrix
}

fn product<W: Real>(n: usize, a: &[W], b: &[W]) -> (matrix: Vec<W>)
    requires
        a@.len() == n * n,
        b@.len() == n * n,
    ensures
        matrix@ == product_spec(n as nat, a@, b@),
{
    let ghost entry = |row: int, column: int|
        dot_spec(n as nat, a@, b@, row, column, n as int);
    let mut matrix: Vec<W> = Vec::new();
    let mut column: usize = 0;
    assert(0 * n == 0) by (nonlinear_arith);
    while column < n
        invariant
            column <= n,
            a@.len() == n * n,
            b@.len() == n * n,
            entry == |row: int, column: int| dot_spec(n as nat, a@, b@, row, column, n as int),
            matrix@.len() == column * n,
            matrix@ == square(n as nat, entry).take(column * n),
            column * n <= n * n,
        decreases n - column,
    {
        let mut row: usize = 0;
        proof {
            crate::linearization::lemma_entry_index(n as nat, n as nat, 0, column as int);
        }
        while row < n
            invariant
                row <= n,
                column < n,
                a@.len() == n * n,
                b@.len() == n * n,
                entry == |row: int, column: int|
                    dot_spec(n as nat, a@, b@, row, column, n as int),
                matrix@.len() == column * n + row,
                matrix@ == square(n as nat, entry).take(column * n + row),
                column * n + n <= n * n,
            decreases n - row,
        {
            proof {
                lemma_square(n as nat, entry, row as int, column as int);
            }
            matrix.push(dot(n, a, b, row, column));
            assert(matrix@ =~= square(n as nat, entry).take(column * n + row + 1));
            row += 1;
        }
        assert(column * n + n == (column + 1) * n) by (nonlinear_arith);
        column += 1;
    }
    assert(square(n as nat, entry).take(n * n) =~= square(n as nat, entry));
    matrix
}

fn image<W: Real>(n: usize, a: &[W], v: &[W]) -> (result: Vec<W>)
    requires
        a@.len() == n * n,
        v@.len() == n,
    ensures
        result@ == image_spec(n as nat, a@, v@),
{
    let mut result: Vec<W> = Vec::new();
    let mut row: usize = 0;
    while row < n
        invariant
            row <= n,
            a@.len() == n * n,
            v@.len() == n,
            result@.len() == row,
            forall|j: int|
                0 <= j < row ==> #[trigger] result@[j] == dot_spec(
                    n as nat,
                    a@,
                    v@,
                    j,
                    0,
                    n as int,
                ),
        decreases n - row,
    {
        assert(0 * n == 0) by (nonlinear_arith);
        result.push(dot(n, a, v, row, 0));
        row += 1;
    }
    result
}

/// The fault of comparing one row of two square matrices.
pub open spec fn row_spec<W: Real>(
    t: Tolerance<W>,
    check: Check,
    n: nat,
    actual: Seq<W>,
    expected: Seq<W>,
    row: int,
) -> Option<Fault<W>> {
    earliest(
        Seq::new(
            n,
            |column: int|
                near_spec(
                    t,
                    check,
                    row as usize,
                    column as usize,
                    at(n, actual, row, column),
                    at(n, expected, row, column),
                ),
        ),
    )
}

/// The fault of comparing two square matrices row by row.
pub open spec fn matrix_spec<W: Real>(
    t: Tolerance<W>,
    check: Check,
    n: nat,
    actual: Seq<W>,
    expected: Seq<W>,
) -> Option<Fault<W>> {
    earliest(Seq::new(n, |row: int| row_spec(t, check, n, actual, expected, row)))
}

fn compare_row<W: Real>(
    t: Tolerance<W>,
    check: Check,
    n: usize,
    actual: &[W],
    expected: &[W],
    row: usize,
) -> (fault: Option<Fault<W>>)
    requires
        actual@.len() == n * n,
        expected@.len() == n * n,
        row < n,
    ensures
        fault == row_spec(t, check, n as nat, actual@, expected@, row as int),
{
    let ghost one = |column: int|
        near_spec(
            t,
            check,
            row,
            column as usize,
            at(n as nat, actual@, row as int, column),
            at(n as nat, expected@, row as int, column),
        );
    let ghost faults = Seq::new(n as nat, one);
    assert(row_spec(t, check, n as nat, actual@, expected@, row as int) == earliest(faults)) by {
        assert(faults =~= Seq::new(
            n as nat,
            |column: int|
                near_spec(
                    t,
                    check,
                    row as int as usize,
                    column as usize,
                    at(n as nat, actual@, row as int, column),
                    at(n as nat, expected@, row as int, column),
                ),
        ));
    }
    let mut column: usize = 0;
    while column < n
        invariant
            column <= n,
            row < n,
            actual@.len() == n * n,
            expected@.len() == n * n,
            actual@.len() == actual.len(),
            faults.len() == n,
            forall|j: int|
                0 <= j < n ==> #[trigger] faults[j] == near_spec(
                    t,
                    check,
                    row,
                    j as usize,
                    at(n as nat, actual@, row as int, j),
                    at(n as nat, expected@, row as int, j),
                ),
            row_spec(t, check, n as nat, actual@, expected@, row as int) == earliest(faults),
            forall|j: int| 0 <= j < column ==> (#[trigger] faults[j]) is None,
        decreases n - column,
    {
        proof {
            crate::linearization::lemma_entry_index(
                n as nat,
                n as nat,
                row as int,
                column as int,
            );
        }
        let k: usize = column * n + row;
        let fault = near(t, check, row, column, actual[k], expected[k]);
        assert(fault == faults[column as int]);
        if fault.is_some() {
            proof {
                lemma_earliest(faults, column as int);
            }
            return fault;
        }
        column += 1;
    }
    proof {
        lemma_no_fault(faults);
    }
    None
}

/// Compare two square matrices.
pub fn matrix<W: Real>(
    t: Tolerance<W>,
    check: Check,
    n: usize,
    actual: &[W],
    expected: &[W],
) -> (fault: Option<Fault<W>>)
    requires
        actual@.len() == n * n,
        expected@.len() == n * n,
    ensures
        fault == matrix_spec(t, check, n as nat, actual@, expected@),
{
    let ghost faults = Seq::new(
        n as nat,
        |row: int| row_spec(t, check, n as nat, actual@, expected@, row),
    );
    let mut row: usize = 0;
    while row < n
        invariant
            row <= n,
            actual@.len() == n * n,
            expected@.len() == n * n,
            faults == Seq::new(
                n as nat,
                |row: int| row_spec(t, check, n as nat, actual@, expected@, row),
            ),
            forall|j: int| 0 <= j < row ==> (#[trigger] faults[j]) is None,
        decreases n - row,
    {
        let fault = compare_row(t, check, n, actual, expected, row);
        assert(fault == faults[row as int]);
        if fault.is_some() {
            proof {
                lemma_earliest(faults, row as int);
            }
            return fault;
        }
        row += 1;
    }
    proof {
        lemma_no_fault(faults);
    }
    None
}

/// How a variable is examined.
pub trait TestVariable<R: TestScalar>: Variable<Scalar = R> {
    /// This variable over dual numbers, from the same geometry.
    type Dual: Variable<Scalar = R::Dual>;

    spec fn lifted_spec(self) -> Self::Dual;

    spec fn equivalent_spec(self, other: Self, tolerance: Tolerance<R::Wide>) -> bool;

    spec fn smooth_spec(self) -> bool;

    /// Lift the stored coefficients, with zero derivatives. The lifted variable has as many
    /// tangent coordinates.
    fn to_dual(&self) -> (lifted: Self::Dual)
        ensures
            lifted == self.lifted_spec(),
            Self::Dual::dof_spec() == Self::dof_spec(),
    ;

    /// Compare represented states independently of the operations under test.
    fn equivalent(&self, other: &Self, tolerance: Tolerance<R::Wide>) -> (equivalent: bool)
        ensures
            equivalent == self.equivalent_spec(*other, tolerance),
    ;

    /// Whether the logarithm is smooth at this state.
    fn log_is_smooth(&self) -> (smooth: bool)
        ensures
            smooth == self.smooth_spec(),
    ;
}

/// The fault of comparing two states.
pub open spec fn state_spec<R: TestScalar, T: TestVariable<R>>(
    t: Tolerance<R::Wide>,
    check: Check,
    actual: T,
    expected: T,
) -> Option<Fault<R::Wide>> {
    if actual.equivalent_spec(expected, t) {
        None
    } else {
        Some(Fault::States(check))
    }
}

/// Compare two states.
pub fn state<R: TestScalar, T: TestVariable<R>>(
    t: Tolerance<R::Wide>,
    check: Check,
    actual: &T,
    expected: &T,
) -> (fault: Option<Fault<R::Wide>>)
    ensures
        fault == state_spec::<R, T>(t, check, *actual, *expected),
{
    if actual.equivalent(expected, t) {
        None
    } else {
        Some(Fault::States(check))
    }
}

/// States off the smooth domain of the logarithm are rejected.
pub open spec fn domain_spec<R: TestScalar, T: TestVariable<R>>(value: T) -> Option<
    Fault<R::Wide>,
> {
    if value.smooth_spec() {
        None
    } else {
        Some(Fault::Rejected)
    }
}

fn domain<R: TestScalar, T: TestVariable<R>>(value: &T) -> (fault: Option<Fault<R::Wide>>)
    ensures
        fault == domain_spec::<R, T>(*value),
{
    if value.log_is_smooth() {
        None
    } else {
        Some(Fault::Rejected)
    }
}

/// Zero coordinates of a precision.
pub open spec fn zeros_spec<R: TestScalar>(n: nat) -> Seq<R> {
    Seq::new(n, |i: int| R::from_test_value_spec(R::Wide::zero_spec()))
}

fn zeros<R: TestScalar>(n: usize) -> (zero: Vec<R>)
    ensures
        zero@ == zeros_spec::<R>(n as nat),
{
    let mut zero: Vec<R> = Vec::new();
    let mut i: usize = 0;
    while i < n
        invariant
            i <= n,
            zero@ == zeros_spec::<R>(i as nat),
        decreases n - i,
    {
        zero.push(R::from_test_value(R::Wide::zero()));
        i += 1;
        assert(zero@ =~= zeros_spec::<R>(i as nat));
    }
    zero
}

/// The zero increment of a variable.
pub open spec fn zero_spec<R: TestScalar, T: Variable<Scalar = R>>() -> Seq<R> {
    tangent_of::<T>(zeros_spec::<R>(T::dof_spec()))
}

fn zero_increment<R: TestScalar, T: Variable<Scalar = R>>() -> (zero: Vec<R>)
    ensures
        zero@ == zero_spec::<R, T>(),
        zero@.len() == T::dof_spec(),
{
    tangent::<T>(zeros::<R>(T::dof()).as_slice())
}

/// The tangent vector made of coordinates has them.
pub open spec fn coordinates_spec<R: TestScalar, T: TestVariable<R>>(
    delta: Seq<R>,
    t: Tolerance<R::Wide>,
) -> Option<Fault<R::Wide>> {
    vector_spec(
        t,
        Check::CoordinateRoundTrip,
        widened(tangent_of::<T>(delta)),
        widened(delta),
    )
}

/// Check that the tangent vector made of coordinates has them.
pub fn coordinates<R: TestScalar, T: TestVariable<R>>(delta: &[R], t: Tolerance<R::Wide>) -> (fault:
    Option<Fault<R::Wide>>)
    requires
        delta@.len() == T::dof_spec(),
    ensures
        fault == coordinates_spec::<R, T>(delta@, t),
{
    let copied = tangent::<T>(delta);
    vector(t, Check::CoordinateRoundTrip, &widen(copied.as_slice()), &widen(delta))
}

/// Zero coordinates of a wrong length are refused.
pub open spec fn refused_spec<R: TestScalar, T: TestVariable<R>>(length: nat) -> Option<
    Fault<R::Wide>,
> {
    if T::tangent_spec(zeros_spec::<R>(length)) is Some {
        Some(Fault::Accepted { length: length as usize })
    } else {
        None
    }
}

fn refused<R: TestScalar, T: TestVariable<R>>(length: usize) -> (fault: Option<Fault<R::Wide>>)
    ensures
        fault == refused_spec::<R, T>(length as nat),
{
    match T::tangent_from_slice(zeros::<R>(length).as_slice()) {
        Some(_) => Some(Fault::Accepted { length }),
        None => None,
    }
}

/// One coordinate too many and one too few are refused, as far as there are such lengths.
pub open spec fn lengths_spec<R: TestScalar, T: TestVariable<R>>() -> Option<Fault<R::Wide>> {
    let n = T::dof_spec();
    either(
        if n < usize::MAX {
            refused_spec::<R, T>(n + 1)
        } else {
            None
        },
        if n > 0 {
            refused_spec::<R, T>((n - 1) as nat)
        } else {
            None
        },
    )
}

/// Check that coordinates of a wrong length are refused.
pub fn lengths<R: TestScalar, T: TestVariable<R>>() -> (fault: Option<Fault<R::Wide>>)
    ensures
        fault == lengths_spec::<R, T>(),
{
    let n: usize = T::dof();
    if n < usize::MAX {
        let fault = refused::<R, T>(n + 1);
        if fault.is_some() {
            return fault;
        }
    }
    if n > 0 {
        refused::<R, T>(n - 1)
    } else {
        None
    }
}

/// A type that keeps to the plain forms refuses wrong lengths, and turns coordinates into a
/// tangent vector that has them.
pub proof fn lemma_plain_coordinates<R: TestScalar, T: TestVariable<R>>(
    delta: Seq<R>,
    t: Tolerance<R::Wide>,
)
    requires
        plain::<T>(),
        delta.len() == T::dof_spec(),
        forall|i: int|
            0 <= i < delta.len() ==> {
                let value = (#[trigger] delta[i]).test_value_spec();
                t.close_spec(value, value)
            },
    ensures
        lengths_spec::<R, T>() is None,
        coordinates_spec::<R, T>(delta, t) is None,
{
    let faults = Seq::new(
        delta.len(),
        |i: int|
            near_spec(
                t,
                Check::CoordinateRoundTrip,
                i as usize,
                0,
                widened(delta)[i],
                widened(delta)[i],
            ),
    );
    assert(tangent_of::<T>(delta) == delta);
    assert forall|j: int| 0 <= j < faults.len() implies (#[trigger] faults[j]) is None by {
        assert(widened(delta)[j] == delta[j].test_value_spec());
    }
    lemma_no_fault(faults);
    assert(coordinates_spec::<R, T>(delta, t) == earliest(faults));
}

/// Identity, inverse and associativity, without regard to logarithm charts.
pub open spec fn group_laws_spec<R: TestScalar, T: TestVariable<R>>(
    x: T,
    y: T,
    z: T,
    t: Tolerance<R::Wide>,
) -> Option<Fault<R::Wide>> {
    let id = T::identity_spec();
    either(
        state_spec::<R, T>(t, Check::LeftIdentity, id.compose_spec(x), x),
        either(
            state_spec::<R, T>(t, Check::RightIdentity, x.compose_spec(id), x),
            either(
                state_spec::<R, T>(t, Check::LeftInverse, x.inverse_spec().compose_spec(x), id),
                either(
                    state_spec::<R, T>(
                        t,
                        Check::RightInverse,
                        x.compose_spec(x.inverse_spec()),
                        id,
                    ),
                    either(
                        state_spec::<R, T>(
                            t,
                            Check::DoubleInverse,
                            x.inverse_spec().inverse_spec(),
                            x,
                        ),
                        either(
                            state_spec::<R, T>(
                                t,
                                Check::Associativity,
                                x.compose_spec(y).compose_spec(z),
                                x.compose_spec(y.compose_spec(z)),
                            ),
                            state_spec::<R, T>(
                                t,
                                Check::ProductInverse,
                                x.compose_spec(y).inverse_spec(),
                                y.inverse_spec().compose_spec(x.inverse_spec()),
                            ),
                        ),
                    ),
                ),
            ),
        ),
    )
}

/// Check identity, inverse and associativity.
pub fn group_laws<R: TestScalar, T: TestVariable<R>>(
    x: &T,
    y: &T,
    z: &T,
    t: Tolerance<R::Wide>,
) -> (fault: Option<Fault<R::Wide>>)
    ensures
        fault == group_laws_spec::<R, T>(*x, *y, *z, t),
{
    let id = T::identity();
    let fault = state(t, Check::LeftIdentity, &id.compose(x), x);
    if fault.is_some() {
        return fault;
    }
    let fault = state(t, Check::RightIdentity, &x.compose(&id), x);
    if fault.is_some() {
        return fault;
    }
    let fault = state(t, Check::LeftInverse, &x.inverse().compose(x), &id);
    if fault.is_some() {
        return fault;
    }
    let fault = state(t, Check::RightInverse, &x.compose(&x.inverse()), &id);
    if fault.is_some() {
        return fault;
    }
    let fault = state(t, Check::DoubleInverse, &x.inverse().inverse(), x);
    if fault.is_some() {
        return fault;
    }
    let fault = state(
        t,
        Check::Associativity,
        &x.compose(y).compose(z),
        &x.compose(&y.compose(z)),
    );
    if fault.is_some() {
        return fault;
    }
    state(
        t,
        Check::ProductInverse,
        &x.compose(y).inverse(),
        &y.inverse().compose(&x.inverse()),
    )
}

/// Value and derivative of a lifted logarithm against the real one, entry by entry.
pub open spec fn lifted_log_spec<R: TestScalar>(
    t: Tolerance<R::Wide>,
    lifted: Seq<R::Dual>,
    log: Seq<R>,
) -> Option<Fault<R::Wide>> {
    earliest(
        Seq::new(
            log.len(),
            |i: int|
                {
                    let (value, derivative) = R::parts_spec(lifted[i]);
                    either(
                        near_spec(
                            t,
                            Check::LiftedLogValue,
                            i as usize,
                            0,
                            value,
                            log[i].test_value_spec(),
                        ),
                        near_spec(
                            t,
                            Check::LiftedLogDerivative,
                            i as usize,
                            0,
                            derivative,
                            R::Wide::zero_spec(),
                        ),
                    )
                },
        ),
    )
}

fn lifted_log<R: TestScalar>(t: Tolerance<R::Wide>, lifted: &[R::Dual], log: &[R]) -> (fault:
    Option<Fault<R::Wide>>)
    requires
        lifted@.len() == log@.len(),
    ensures
        fault == lifted_log_spec(t, lifted@, log@),
{
    let ghost faults = Seq::new(
        log@.len(),
        |i: int|
            {
                let (value, derivative) = R::parts_spec(lifted@[i]);
                either(
                    near_spec(
                        t,
                        Check::LiftedLogValue,
                        i as usize,
                        0,
                        value,
                        log@[i].test_value_spec(),
                    ),
                    near_spec(
                        t,
                        Check::LiftedLogDerivative,
                        i as usize,
                        0,
                        derivative,
                        R::Wide::zero_spec(),
                    ),
                )
            },
    );
    assert(lifted_log_spec(t, lifted@, log@) == earliest(faults));
    let mut i: usize = 0;
    while i < log.len()
        invariant
            i <= log@.len(),
            lifted@.len() == log@.len(),
            faults.len() == log@.len(),
            forall|j: int|
                0 <= j < log@.len() ==> #[trigger] faults[j] == {
                    let (value, derivative) = R::parts_spec(lifted@[j]);
                    either(
                        near_spec(
                            t,
                            Check::LiftedLogValue,
                            j as usize,
                            0,
                            value,
                            log@[j].test_value_spec(),
                        ),
                        near_spec(
                            t,
                            Check::LiftedLogDerivative,
                            j as usize,
                            0,
                            derivative,
                            R::Wide::zero_spec(),
                        ),
                    )
                },
            lifted_log_spec(t, lifted@, log@) == earliest(faults),
            forall|j: int| 0 <= j < i ==> (#[trigger] faults[j]) is None,
        decreases log@.len() - i,
    {
        let (value, derivative) = R::parts(lifted[i]);
        let mut fault = near(t, Check::LiftedLogValue, i, 0, value, log[i].test_value());
        if fault.is_none() {
            fault = near(t, Check::LiftedLogDerivative, i, 0, derivative, R::Wide::zero());
        }
        assert(fault == faults[i as int]);
        if fault.is_some() {
            proof {
                lemma_earliest(faults, i as int);
            }
            return fault;
        }
        i += 1;
    }
    proof {
        lemma_no_fault(faults);
    }
    None
}

/// Round trips of exponential and logarithm, and agreement of the lifted logarithm.
pub open spec fn exp_log_spec<R: TestScalar, T: TestVariable<R>>(
    x: T,
    delta: Seq<R>,
    t: Tolerance<R::Wide>,
) -> Option<Fault<R::Wide>> {
    let exp = T::exp_spec(delta);
    either(
        domain_spec::<R, T>(x),
        either(
            domain_spec::<R, T>(exp),
            either(
                vector_spec(t, Check::LogOfExp, widened(exp.log_spec()), widened(delta)),
                either(
                    state_spec::<R, T>(t, Check::ExpOfLog, T::exp_spec(x.log_spec()), x),
                    lifted_log_spec(t, x.lifted_spec().log_spec(), x.log_spec()),
                ),
            ),
        ),
    )
}

/// Check round trips of exponential and logarithm.
pub fn exp_log<R: TestScalar, T: TestVariable<R>>(x: &T, delta: &[R], t: Tolerance<R::Wide>) -> (
    fault: Option<Fault<R::Wide>>)
    requires
        delta@.len() == T::dof_spec(),
    ensures
        fault == exp_log_spec::<R, T>(*x, delta@, t),
{
    let fault = domain(x);
    if fault.is_some() {
        return fault;
    }
    let exp = T::exp(delta);
    let fault = domain(&exp);
    if fault.is_some() {
        return fault;
    }
    let fault = vector(t, Check::LogOfExp, &widen(exp.log().as_slice()), &widen(delta));
    if fault.is_some() {
        return fault;
    }
    let log = x.log();
    let fault = state(t, Check::ExpOfLog, &T::exp(log.as_slice()), x);
    if fault.is_some() {
        return fault;
    }
    let lifted = x.to_dual().log();
    lifted_log(t, lifted.as_slice(), log.as_slice())
}

/// Round trips of retraction and local coordinates, and their convention.
pub open spec fn retract_local_spec<R: TestScalar, T: TestVariable<R>>(
    x: T,
    y: T,
    delta: Seq<R>,
    t: Tolerance<R::Wide>,
) -> Option<Fault<R::Wide>> {
    let zero = zero_spec::<R, T>();
    let between = x.inverse_spec().compose_spec(y);
    let moved = x.retract_spec(delta);
    either(
        domain_spec::<R, T>(between),
        either(
            domain_spec::<R, T>(T::exp_spec(delta)),
            either(
                state_spec::<R, T>(
                    t,
                    Check::ZeroRetraction,
                    x.retract_spec(zero),
                    x,
                ),
                either(
                    state_spec::<R, T>(
                        t,
                        Check::RightRetraction,
                        moved,
                        x.compose_spec(T::exp_spec(delta)),
                    ),
                    either(
                        vector_spec(
                            t,
                            Check::LocalToItself,
                            widened(x.local_spec(x)),
                            widened(zero),
                        ),
                        either(
                            vector_spec(
                                t,
                                Check::LocalConvention,
                                widened(x.local_spec(y)),
                                widened(between.log_spec()),
                            ),
                            either(
                                vector_spec(
                                    t,
                                    Check::LocalOfRetraction,
                                    widened(x.local_spec(moved)),
                                    widened(delta),
                                ),
                                state_spec::<R, T>(
                                    t,
                                    Check::RetractionOfLocal,
                                    x.retract_spec(x.local_spec(y)),
                                    y,
                                ),
                            ),
                        ),
                    ),
                ),
            ),
        ),
    )
}

/// Check round trips of retraction and local coordinates.
pub fn retract_local<R: TestScalar, T: TestVariable<R>>(
    x: &T,
    y: &T,
    delta: &[R],
    t: Tolerance<R::Wide>,
) -> (fault: Option<Fault<R::Wide>>)
    requires
        delta@.len() == T::dof_spec(),
    ensures
        fault == retract_local_spec::<R, T>(*x, *y, delta@, t),
{
    let fault = domain(&x.inverse().compose(y));
    if fault.is_some() {
        return fault;
    }
    let fault = domain(&T::exp(delta));
    if fault.is_some() {
        return fault;
    }
    let zero = zero_increment::<R, T>();
    let fault = state(t, Check::ZeroRetraction, &x.retract(zero.as_slice()), x);
    if fault.is_some() {
        return fault;
    }
    let fault = state(
        t,
        Check::RightRetraction,
        &x.retract(delta),
        &x.compose(&T::exp(delta)),
    );
    if fault.is_some() {
        return fault;
    }
    let fault = vector(
        t,
        Check::LocalToItself,
        &widen(x.local(x).as_slice()),
        &widen(zero.as_slice()),
    );
    if fault.is_some() {
        return fault;
    }
    let fault = vector(
        t,
        Check::LocalConvention,
        &widen(x.local(y).as_slice()),
        &widen(x.inverse().compose(y).log().as_slice()),
    );
    if fault.is_some() {
        return fault;
    }
    let fault = vector(
        t,
        Check::LocalOfRetraction,
        &widen(x.local(&x.retract(delta)).as_slice()),
        &widen(delta),
    );
    if fault.is_some() {
        return fault;
    }
    state(t, Check::RetractionOfLocal, &x.retract(x.local(y).as_slice()), y)
}

/// Composition of adjoints, and conjugation.
pub open spec fn adjoint_spec<R: TestScalar, T: TestVariable<R>>(
    x: T,
    y: T,
    delta: Seq<R>,
    t: Tolerance<R::Wide>,
) -> Option<Fault<R::Wide>> {
    let n = T::dof_spec();
    let ax = widened(x.adjoint_spec());
    let moved = tangent_of::<T>(narrowed::<R>(image_spec(n, ax, widened(delta))));
    either(
        matrix_spec(
            t,
            Check::AdjointOfProduct,
            n,
            widened(x.compose_spec(y).adjoint_spec()),
            product_spec(n, ax, widened(y.adjoint_spec())),
        ),
        state_spec::<R, T>(
            t,
            Check::AdjointConjugation,
            x.compose_spec(T::exp_spec(delta)).compose_spec(x.inverse_spec()),
            T::exp_spec(moved),
        ),
    )
}

/// Check composition of adjoints, and conjugation.
pub fn adjoint<R: TestScalar, T: TestVariable<R>>(
    x: &T,
    y: &T,
    delta: &[R],
    t: Tolerance<R::Wide>,
) -> (fault: Option<Fault<R::Wide>>)
    requires
        delta@.len() == T::dof_spec(),
    ensures
        fault == adjoint_spec::<R, T>(*x, *y, delta@, t),
{
    let n: usize = T::dof();
    let ax = widen(x.adjoint().as_slice());
    let ay = widen(y.adjoint().as_slice());
    let fault = matrix(
        t,
        Check::AdjointOfProduct,
        n,
        &widen(x.compose(y).adjoint().as_slice()),
        &product(n, &ax, &ay),
    );
    if fault.is_some() {
        return fault;
    }
    let moved = tangent::<T>(narrow::<R>(&image(n, &ax, &widen(delta))).as_slice());
    state(
        t,
        Check::AdjointConjugation,
        &x.compose(&T::exp(delta)).compose(&x.inverse()),
        &T::exp(moved.as_slice()),
    )
}

/// A dual evaluation as a function of tangent coordinates. An output of the group is measured
/// relative to its real value, whose lifted inverse comes with the probe.
pub enum Probe<'a, D: Variable> {
    Exp { inverse: &'a D },
    Log { base: &'a D },
    Adjoint { base: &'a D },
    ComposeLeft { base: &'a D, other: &'a D, inverse: &'a D },
    ComposeRight { base: &'a D, other: &'a D, inverse: &'a D },
    Inverse { base: &'a D, inverse: &'a D },
    RetractBase { base: &'a D, delta: &'a [D::Scalar], inverse: &'a D },
    RetractIncrement { base: &'a D, inverse: &'a D },
    LocalBase { base: &'a D, other: &'a D },
    LocalTarget { base: &'a D, other: &'a D },
}

/// The mathematical content of a [`Probe`].
pub enum ProbeView<D: Variable> {
    Exp { inverse: D },
    Log { base: D },
    Adjoint { base: D },
    ComposeLeft { base: D, other: D, inverse: D },
    ComposeRight { base: D, other: D, inverse: D },
    Inverse { base: D, inverse: D },
    RetractBase { base: D, delta: Seq<D::Scalar>, inverse: D },
    RetractIncrement { base: D, inverse: D },
    LocalBase { base: D, other: D },
    LocalTarget { base: D, other: D },
}

impl<'a, D: Variable> View for Probe<'a, D> {
    type V = ProbeView<D>;

    open spec fn view(&self) -> ProbeView<D> {
        match *self {
            Probe::Exp { inverse } => ProbeView::Exp { inverse: *inverse },
            Probe::Log { base } => ProbeView::Log { base: *base },
            Probe::Adjoint { base } => ProbeView::Adjoint { base: *base },
            Probe::ComposeLeft { base, other, inverse } => ProbeView::ComposeLeft {
                base: *base,
                other: *other,
                inverse: *inverse,
            },
            Probe::ComposeRight { base, other, inverse } => ProbeView::ComposeRight {
                base: *base,
                other: *other,
                inverse: *inverse,
            },
            Probe::Inverse { base, inverse } => ProbeView::Inverse {
                base: *base,
                inverse: *inverse,
            },
            Probe::RetractBase { base, delta, inverse } => ProbeView::RetractBase {
                base: *base,
                delta: delta@,
                inverse: *inverse,
            },
            Probe::RetractIncrement { base, inverse } => ProbeView::RetractIncrement {
                base: *base,
                inverse: *inverse,
            },
            Probe::LocalBase { base, other } => ProbeView::LocalBase {
                base: *base,
                other: *other,
            },
            Probe::LocalTarget { base, other } => ProbeView::LocalTarget {
                base: *base,
                other: *other,
            },
        }
    }
}

impl<D: Variable> ProbeView<D> {
    /// The output at given coordinates.
    pub open spec fn at(self, e: Seq<D::Scalar>) -> Seq<D::Scalar> {
        match self {
            ProbeView::Exp { inverse } => inverse.compose_spec(D::exp_spec(e)).log_spec(),
            ProbeView::Log { base } => base.retract_spec(e).log_spec(),
            ProbeView::Adjoint { base } => base.compose_spec(D::exp_spec(e)).compose_spec(
                base.inverse_spec(),
            ).log_spec(),
            ProbeView::ComposeLeft { base, other, inverse } => inverse.compose_spec(
                base.retract_spec(e).compose_spec(other),
            ).log_spec(),
            ProbeView::ComposeRight { base, other, inverse } => inverse.compose_spec(
                base.compose_spec(other.retract_spec(e)),
            ).log_spec(),
            ProbeView::Inverse { base, inverse } => inverse.compose_spec(
                base.retract_spec(e).inverse_spec(),
            ).log_spec(),
            ProbeView::RetractBase { base, delta, inverse } => inverse.compose_spec(
                base.retract_spec(e).retract_spec(delta),
            ).log_spec(),
            ProbeView::RetractIncrement { base, inverse } => inverse.compose_spec(
                base.retract_spec(e),
            ).log_spec(),
            ProbeView::LocalBase { base, other } => base.retract_spec(e).local_spec(other),
            ProbeView::LocalTarget { base, other } => base.local_spec(other.retract_spec(e)),
        }
    }
}

impl<'a, D: Variable> Probe<'a, D> {
    pub open spec fn wf(&self) -> bool {
        self matches Probe::RetractBase { delta, .. } ==> delta@.len() == D::dof_spec()
    }

    /// Evaluate the output.
    fn evaluate(&self, e: &[D::Scalar]) -> (output: Vec<D::Scalar>)
        requires
            self.wf(),
            e@.len() == D::dof_spec(),
        ensures
            output@ == self@.at(e@),
            output@.len() == D::dof_spec(),
    {
        match self {
            Probe::Exp { inverse } => inverse.compose(&D::exp(e)).log(),
            Probe::Log { base } => base.retract(e).log(),
            Probe::Adjoint { base } => base.compose(&D::exp(e)).compose(&base.inverse()).log(),
            Probe::ComposeLeft { base, other, inverse } => inverse.compose(
                &base.retract(e).compose(other),
            ).log(),
            Probe::ComposeRight { base, other, inverse } => inverse.compose(
                &base.compose(&other.retract(e)),
            ).log(),
            Probe::Inverse { base, inverse } => inverse.compose(&base.retract(e).inverse()).log(),
            Probe::RetractBase { base, delta, inverse } => inverse.compose(
                &base.retract(e).retract(delta),
            ).log(),
            Probe::RetractIncrement { base, inverse } => inverse.compose(&base.retract(e)).log(),
            Probe::LocalBase { base, other } => base.retract(e).local(other),
            Probe::LocalTarget { base, other } => base.local(&other.retract(e)),
        }
    }
}

/// Coordinates with a unit derivative in one column.
pub open spec fn seeded_spec<R: TestScalar>(input: Seq<R>, column: int) -> Seq<R::Dual> {
    Seq::new(input.len(), |i: int| input[i].dual_spec(unit_entry::<R::Wide>(i, column)))
}

fn seeded<R: TestScalar>(input: &[R], column: usize) -> (seeded: Vec<R::Dual>)
    ensures
        seeded@ == seeded_spec(input@, column as int),
{
    let mut seeded: Vec<R::Dual> = Vec::new();
    let mut i: usize = 0;
    while i < input.len()
        invariant
            i <= input@.len(),
            seeded@.len() == i,
            forall|j: int|
                0 <= j < i ==> #[trigger] seeded@[j] == input@[j].dual_spec(
                    unit_entry::<R::Wide>(j, column as int),
                ),
        decreases input@.len() - i,
    {
        let derivative = if i == column {
            R::Wide::one()
        } else {
            R::Wide::zero()
        };
        seeded.push(input[i].dual(derivative));
        i += 1;
    }
    seeded
}

/// Coordinates with zero derivatives.
pub open spec fn constant_spec<R: TestScalar>(input: Seq<R>) -> Seq<R::Dual> {
    Seq::new(input.len(), |i: int| input[i].dual_spec(R::Wide::zero_spec()))
}

fn constant<R: TestScalar>(input: &[R]) -> (lifted: Vec<R::Dual>)
    ensures
        lifted@ == constant_spec(input@),
{
    let mut lifted: Vec<R::Dual> = Vec::new();
    let mut i: usize = 0;
    while i < input.len()
        invariant
            i <= input@.len(),
            lifted@.len() == i,
            forall|j: int|
                0 <= j < i ==> #[trigger] lifted@[j] == input@[j].dual_spec(
                    R::Wide::zero_spec(),
                ),
        decreases input@.len() - i,
    {
        lifted.push(input[i].dual(R::Wide::zero()));
        i += 1;
    }
    lifted
}

/// One row of a dual output against its real value and a derivative.
pub open spec fn slope_spec<R: TestScalar>(
    t: Tolerance<R::Wide>,
    checks: (Check, Check),
    row: int,
    column: int,
    output: R::Dual,
    value: R,
    expected: R::Wide,
) -> Option<Fault<R::Wide>> {
    let (primal, slope) = R::parts_spec(output);
    either(
        near_spec(t, checks.0, row as usize, 0, primal, value.test_value_spec()),
        near_spec(t, checks.1, row as usize, column as usize, slope, expected),
    )
}

/// The fault of one seeded column of a derivative.
pub open spec fn column_spec<R: TestScalar>(
    t: Tolerance<R::Wide>,
    checks: (Check, Check),
    column: int,
    output: Seq<R::Dual>,
    value: Seq<R>,
    expected: Seq<R::Wide>,
) -> Option<Fault<R::Wide>> {
    let n = value.len();
    earliest(
        Seq::new(
            n,
            |row: int|
                slope_spec(
                    t,
                    checks,
                    row,
                    column,
                    output[row],
                    value[row],
                    at(n, expected, row, column),
                ),
        ),
    )
}

/// The fault of comparing a derivative with dual evaluations, column by column.
pub open spec fn derivative_spec<R: TestScalar, D: Variable<Scalar = R::Dual>>(
    t: Tolerance<R::Wide>,
    checks: (Check, Check),
    input: Seq<R>,
    value: Seq<R>,
    expected: Seq<R::Wide>,
    probe: ProbeView<D>,
) -> Option<Fault<R::Wide>> {
    earliest(
        Seq::new(
            value.len(),
            |column: int|
                column_spec(
                    t,
                    checks,
                    column,
                    probe.at(tangent_of::<D>(seeded_spec(input, column))),
                    value,
                    expected,
                ),
        ),
    )
}

fn compare_column<R: TestScalar>(
    t: Tolerance<R::Wide>,
    checks: (Check, Check),
    column: usize,
    output: &[R::Dual],
    value: &[R],
    expected: &[R::Wide],
) -> (fault: Option<Fault<R::Wide>>)
    requires
        output@.len() == value@.len(),
        expected@.len() == value@.len() * value@.len(),
        column < value@.len(),
    ensures
        fault == column_spec(t, checks, column as int, output@, value@, expected@),
{
    let n: usize = value.len();
    let ghost faults = Seq::new(
        value@.len(),
        |row: int|
            slope_spec(
                t,
                checks,
                row,
                column as int,
                output@[row],
                value@[row],
                at(value@.len(), expected@, row, column as int),
            ),
    );
    assert(column_spec(t, checks, column as int, output@, value@, expected@) == earliest(faults));
    let mut row: usize = 0;
    while row < n
        invariant
            row <= n,
            n == value@.len(),
            column < n,
            output@.len() == n,
            expected@.len() == n * n,
            expected@.len() == expected.len(),
            faults.len() == n,
            forall|j: int|
                0 <= j < n ==> #[trigger] faults[j] == slope_spec(
                    t,
                    checks,
                    j,
                    column as int,
                    output@[j],
                    value@[j],
                    at(n as nat, expected@, j, column as int),
                ),
            column_spec(t, checks, column as int, output@, value@, expected@) == earliest(faults),
            forall|j: int| 0 <= j < row ==> (#[trigger] faults[j]) is None,
        decreases n - row,
    {
        proof {
            crate::linearization::lemma_entry_index(
                n as nat,
                n as nat,
                row as int,
                column as int,
            );
        }
        let (primal, slope) = R::parts(output[row]);
        let mut fault = near(t, checks.0, row, 0, primal, value[row].test_value());
        if fault.is_none() {
            fault = near(t, checks.1, row, column, slope, expected[column * n + row]);
        }
        assert(fault == faults[row as int]);
        if fault.is_some() {
            proof {
                lemma_earliest(faults, row as int);
            }
            return fault;
        }
        row += 1;
    }
    proof {
        lemma_no_fault(faults);
    }
    None
}

/// Compare a derivative with dual evaluations.
fn derivative<R: TestScalar, D: Variable<Scalar = R::Dual>>(
    t: Tolerance<R::Wide>,
    checks: (Check, Check),
    input: &[R],
    value: &[R],
    expected: &[R::Wide],
    probe: &Probe<'_, D>,
) -> (fault: Option<Fault<R::Wide>>)
    requires
        probe.wf(),
        input@.len() == D::dof_spec(),
        value@.len() == D::dof_spec(),
        expected@.len() == D::dof_spec() * D::dof_spec(),
    ensures
        fault == derivative_spec::<R, D>(t, checks, input@, value@, expected@, probe@),
{
    let ghost faults = Seq::new(
        value@.len(),
        |column: int|
            column_spec(
                t,
                checks,
                column,
                probe@.at(tangent_of::<D>(seeded_spec(input@, column))),
                value@,
                expected@,
            ),
    );
    assert(derivative_spec::<R, D>(t, checks, input@, value@, expected@, probe@) == earliest(
        faults,
    ));
    let mut column: usize = 0;
    while column < value.len()
        invariant
            column <= value@.len(),
            probe.wf(),
            input@.len() == D::dof_spec(),
            value@.len() == D::dof_spec(),
            expected@.len() == D::dof_spec() * D::dof_spec(),
            faults.len() == value@.len(),
            forall|j: int|
                0 <= j < value@.len() ==> #[trigger] faults[j] == column_spec(
                    t,
                    checks,
                    j,
                    probe@.at(tangent_of::<D>(seeded_spec(input@, j))),
                    value@,
                    expected@,
                ),
            derivative_spec::<R, D>(t, checks, input@, value@, expected@, probe@) == earliest(
                faults,
            ),
            forall|j: int| 0 <= j < column ==> (#[trigger] faults[j]) is None,
        decreases value@.len() - column,
    {
        let increment = tangent::<D>(seeded(input, column).as_slice());
        let output = probe.evaluate(increment.as_slice());
        let fault = compare_column(t, checks, column, output.as_slice(), value, expected);
        assert(fault == faults[column as int]);
        if fault.is_some() {
            proof {
                lemma_earliest(faults, column as int);
            }
            return fault;
        }
        column += 1;
    }
    proof {
        lemma_no_fault(faults);
    }
    None
}

/// Analytical Jacobians of the geometry against dual derivatives.
pub open spec fn slopes_spec<R: TestScalar, T: TestVariable<R>>(
    x: T,
    y: T,
    delta: Seq<R>,
    t: Tolerance<R::Wide>,
) -> Option<Fault<R::Wide>> {
    let zero = zero_spec::<R, T>();
    let unit = unit_spec::<R::Wide>(T::dof_spec());
    let exp = T::exp_spec(delta);
    let jr = widened(T::right_jacobian_spec(delta));
    let inverse = widened(T::right_jacobian_inverse_spec(delta));
    let dx = x.lifted_spec();
    let dy = y.lifted_spec();
    let base = widened(exp.inverse_spec().adjoint_spec());
    let log = x.log_spec();
    let jlog = widened(T::right_jacobian_inverse_spec(log));
    let ax = widened(x.adjoint_spec());
    let jx = widened(y.inverse_spec().adjoint_spec());
    let product = x.compose_spec(y).lifted_spec().inverse_spec();
    let moved = x.retract_spec(delta).lifted_spec().inverse_spec();
    let local = x.local_spec(y);
    let left = widened(T::right_jacobian_inverse_spec(negated_spec(local)));
    let right = widened(T::right_jacobian_inverse_spec(local));
    let exp_fault = derivative_spec::<R, T::Dual>(
        t,
        (Check::ExpValue, Check::ExpDerivative),
        delta,
        zero,
        jr,
        (ProbeView::Exp { inverse: exp.lifted_spec().inverse_spec() }),
    );
    let log_of_exp_fault = derivative_spec::<R, T::Dual>(
        t,
        (Check::LogOfExpValue, Check::LogOfExpDerivative),
        zero,
        delta,
        inverse,
        (ProbeView::Log { base: exp.lifted_spec() }),
    );
    let log_fault = derivative_spec::<R, T::Dual>(
        t,
        (Check::LogValue, Check::LogDerivative),
        zero,
        log,
        jlog,
        (ProbeView::Log { base: dx }),
    );
    let adjoint_fault = derivative_spec::<R, T::Dual>(
        t,
        (Check::AdjointValue, Check::AdjointDerivative),
        zero,
        zero,
        ax,
        (ProbeView::Adjoint { base: dx }),
    );
    let left_input_fault = derivative_spec::<R, T::Dual>(
        t,
        (Check::ComposeLeftValue, Check::ComposeLeftDerivative),
        zero,
        zero,
        jx,
        (ProbeView::ComposeLeft {
            base: dx,
            other: dy,
            inverse: product,
        }),
    );
    let right_input_fault = derivative_spec::<R, T::Dual>(
        t,
        (Check::ComposeRightValue, Check::ComposeRightDerivative),
        zero,
        zero,
        unit,
        (ProbeView::ComposeRight {
            base: dx,
            other: dy,
            inverse: product,
        }),
    );
    let inversion_fault = derivative_spec::<R, T::Dual>(
        t,
        (Check::InverseValue, Check::InverseDerivative),
        zero,
        zero,
        negated_spec(ax),
        (ProbeView::Inverse {
            base: dx,
            inverse: x.inverse_spec().lifted_spec().inverse_spec(),
        }),
    );
    let base_fault = derivative_spec::<R, T::Dual>(
        t,
        (Check::RetractBaseValue, Check::RetractBaseDerivative),
        zero,
        zero,
        base,
        (ProbeView::RetractBase {
            base: dx,
            delta: tangent_of::<T::Dual>(constant_spec(delta)),
            inverse: moved,
        }),
    );
    let increment_fault = derivative_spec::<R, T::Dual>(
        t,
        (Check::RetractIncrementValue, Check::RetractIncrementDerivative),
        delta,
        zero,
        jr,
        (ProbeView::RetractIncrement {
            base: dx,
            inverse: moved,
        }),
    );
    let local_base_fault = derivative_spec::<R, T::Dual>(
        t,
        (Check::LocalBaseValue, Check::LocalBaseDerivative),
        zero,
        local,
        negated_spec(left),
        (ProbeView::LocalBase {
            base: dx,
            other: dy,
        }),
    );
    let local_target_fault = derivative_spec::<R, T::Dual>(
        t,
        (Check::LocalTargetValue, Check::LocalTargetDerivative),
        zero,
        local,
        right,
        (ProbeView::LocalTarget {
            base: dx,
            other: dy,
        }),
    );
    let products = either(
        left_input_fault,
        either(
            right_input_fault,
            either(
                inversion_fault,
                either(base_fault, increment_fault),
            ),
        ),
    );
    let locals = either(local_base_fault, local_target_fault);
    either(
        exp_fault,
        either(
            log_of_exp_fault,
            either(
                log_fault,
                either(adjoint_fault, either(products, locals)),
            ),
        ),
    )
}

/// Where every logarithm involved is smooth: the right Jacobian and its inverse cancel, and the
/// analytical Jacobians agree with dual derivatives.
pub open spec fn jacobians_spec<R: TestScalar, T: TestVariable<R>>(
    x: T,
    y: T,
    delta: Seq<R>,
    t: Tolerance<R::Wide>,
) -> Option<Fault<R::Wide>> {
    either(
        domain_spec::<R, T>(x),
        either(
            domain_spec::<R, T>(x.inverse_spec().compose_spec(y)),
            either(
                domain_spec::<R, T>(T::exp_spec(delta)),
                either(
                    matrix_spec(
                        t,
                        Check::JacobianInverse,
                        T::dof_spec(),
                        product_spec(
                            T::dof_spec(),
                            widened(T::right_jacobian_spec(delta)),
                            widened(T::right_jacobian_inverse_spec(delta)),
                        ),
                        unit_spec(T::dof_spec()),
                    ),
                    slopes_spec::<R, T>(x, y, delta, t),
                ),
            ),
        ),
    )
}

fn slopes<R: TestScalar, T: TestVariable<R>>(
    x: &T,
    y: &T,
    delta: &[R],
    t: Tolerance<R::Wide>,
) -> (fault: Option<Fault<R::Wide>>)
    requires
        delta@.len() == T::dof_spec(),
    ensures
        fault == slopes_spec::<R, T>(*x, *y, delta@, t),
{
    let n: usize = T::dof();
    let zero = zero_increment::<R, T>();
    let zero = zero.as_slice();
    let exp = T::exp(delta);
    let jr = widen(T::right_jacobian(delta).as_slice());
    let inverse = widen(T::right_jacobian_inverse(delta).as_slice());
    assert(jr@.len() == jr.len());
    let unit = unit::<R::Wide>(n);
    let dx = x.to_dual();
    let dy = y.to_dual();
    let base = widen(exp.inverse().adjoint().as_slice());
    let dexp = exp.to_dual();
    let ddelta = tangent::<T::Dual>(constant(delta).as_slice());
    let probe = Probe::Exp { inverse: &exp.to_dual().inverse() };
    let fault = derivative(t, (Check::ExpValue, Check::ExpDerivative), delta, zero, &jr, &probe);
    if fault.is_some() {
        return fault;
    }
    let checks = (Check::LogOfExpValue, Check::LogOfExpDerivative);
    let fault = derivative(t, checks, zero, delta, &inverse, &Probe::Log { base: &dexp });
    if fault.is_some() {
        return fault;
    }
    let log = x.log();
    let jlog = widen(T::right_jacobian_inverse(log.as_slice()).as_slice());
    let checks = (Check::LogValue, Check::LogDerivative);
    let fault = derivative(t, checks, zero, log.as_slice(), &jlog, &Probe::Log { base: &dx });
    if fault.is_some() {
        return fault;
    }
    let ax = widen(x.adjoint().as_slice());
    let checks = (Check::AdjointValue, Check::AdjointDerivative);
    let fault = derivative(t, checks, zero, zero, &ax, &Probe::Adjoint { base: &dx });
    if fault.is_some() {
        return fault;
    }
    let product = x.compose(y).to_dual().inverse();
    let jx = widen(y.inverse().adjoint().as_slice());
    let probe = Probe::ComposeLeft { base: &dx, other: &dy, inverse: &product };
    let checks = (Check::ComposeLeftValue, Check::ComposeLeftDerivative);
    let fault = derivative(t, checks, zero, zero, &jx, &probe);
    if fault.is_some() {
        return fault;
    }
    let probe = Probe::ComposeRight { base: &dx, other: &dy, inverse: &product };
    let checks = (Check::ComposeRightValue, Check::ComposeRightDerivative);
    let fault = derivative(t, checks, zero, zero, &unit, &probe);
    if fault.is_some() {
        return fault;
    }
    let inverted = x.inverse().to_dual().inverse();
    let probe = Probe::Inverse { base: &dx, inverse: &inverted };
    let checks = (Check::InverseValue, Check::InverseDerivative);
    let fault = derivative(t, checks, zero, zero, &negated(&ax), &probe);
    if fault.is_some() {
        return fault;
    }
    let moved = x.retract(delta).to_dual().inverse();
    let probe = Probe::RetractBase { base: &dx, delta: ddelta.as_slice(), inverse: &moved };
    let checks = (Check::RetractBaseValue, Check::RetractBaseDerivative);
    let fault = derivative(t, checks, zero, zero, &base, &probe);
    if fault.is_some() {
        return fault;
    }
    let probe = Probe::RetractIncrement { base: &dx, inverse: &moved };
    let checks = (Check::RetractIncrementValue, Check::RetractIncrementDerivative);
    let fault = derivative(t, checks, delta, zero, &jr, &probe);
    if fault.is_some() {
        return fault;
    }
    let local = x.local(y);
    let opposite = negated(local.as_slice());
    let left = widen(T::right_jacobian_inverse(opposite.as_slice()).as_slice());
    let right = widen(T::right_jacobian_inverse(local.as_slice()).as_slice());
    let probe = Probe::LocalBase { base: &dx, other: &dy };
    let checks = (Check::LocalBaseValue, Check::LocalBaseDerivative);
    let fault = derivative(t, checks, zero, local.as_slice(), &negated(&left), &probe);
    if fault.is_some() {
        return fault;
    }
    let probe = Probe::LocalTarget { base: &dx, other: &dy };
    let checks = (Check::LocalTargetValue, Check::LocalTargetDerivative);
    derivative(t, checks, zero, local.as_slice(), &right, &probe)
}

/// Check the analytical Jacobians of the geometry.
pub fn jacobians<R: TestScalar, T: TestVariable<R>>(
    x: &T,
    y: &T,
    delta: &[R],
    t: Tolerance<R::Wide>,
) -> (fault: Option<Fault<R::Wide>>)
    requires
        delta@.len() == T::dof_spec(),
    ensures
        fault == jacobians_spec::<R, T>(*x, *y, delta@, t),
{
    let fault = domain(x);
    if fault.is_some() {
        return fault;
    }
    let fault = domain(&x.inverse().compose(y));
    if fault.is_some() {
        return fault;
    }
    let fault = domain(&T::exp(delta));
    if fault.is_some() {
        return fault;
    }
    let n: usize = T::dof();
    let jr = widen(T::right_jacobian(delta).as_slice());
    let inverse = widen(T::right_jacobian_inverse(delta).as_slice());
    assert(jr@.len() == jr.len());
    let fault = matrix(
        t,
        Check::JacobianInverse,
        n,
        &product(n, &jr, &inverse),
        &unit::<R::Wide>(n),
    );
    if fault.is_some() {
        return fault;
    }
    slopes(x, y, delta, t)
}

/// Independently examined groups of variable properties.
#[derive(Debug, Clone, Copy, PartialEq, Eq, Structural)]
pub enum VariableProperty {
    /// Tangent vectors made of coordinates, and refusal of wrong lengths.
    Coordinates,
    /// Identity, inverse and associativity, without regard to logarithm charts.
    GroupLaws,
    /// Round trips of exponential and logarithm, and agreement of real and dual values.
    ExpLog,
    /// Round trips of retraction and local coordinates, and their convention.
    RetractLocal,
    /// Identity, composition and conjugation of adjoints.
    Adjoint,
    /// Analytical Jacobians against dual derivatives.
    Jacobians,
}

/// Inputs of one examination; a property uses those that it speaks of.
pub struct Sample<R, T> {
    pub x: T,
    pub y: T,
    pub z: T,
    pub delta: Vec<R>,
}

/// The fault of one sample.
pub open spec fn examine_spec<R: TestScalar, T: TestVariable<R>>(
    property: VariableProperty,
    x: T,
    y: T,
    z: T,
    delta: Seq<R>,
    t: Tolerance<R::Wide>,
) -> Option<Fault<R::Wide>> {
    match property {
        VariableProperty::Coordinates => coordinates_spec::<R, T>(delta, t),
        VariableProperty::GroupLaws => group_laws_spec::<R, T>(x, y, z, t),
        VariableProperty::ExpLog => exp_log_spec::<R, T>(x, delta, t),
        VariableProperty::RetractLocal => retract_local_spec::<R, T>(x, y, delta, t),
        VariableProperty::Adjoint => adjoint_spec::<R, T>(x, y, delta, t),
        VariableProperty::Jacobians => jacobians_spec::<R, T>(x, y, delta, t),
    }
}

/// Examine one sample.
pub fn examine<R: TestScalar, T: TestVariable<R>>(
    property: VariableProperty,
    x: &T,
    y: &T,
    z: &T,
    delta: &[R],
    t: Tolerance<R::Wide>,
) -> (fault: Option<Fault<R::Wide>>)
    requires
        delta@.len() == T::dof_spec(),
    ensures
        fault == examine_spec::<R, T>(property, *x, *y, *z, delta@, t),
{
    match property {
        VariableProperty::Coordinates => coordinates::<R, T>(delta, t),
        VariableProperty::GroupLaws => group_laws(x, y, z, t),
        VariableProperty::ExpLog => exp_log(x, delta, t),
        VariableProperty::RetractLocal => retract_local(x, y, delta, t),
        VariableProperty::Adjoint => adjoint(x, y, delta, t),
        VariableProperty::Jacobians => jacobians(x, y, delta, t),
    }
}

/// What a property demands of the identity beyond what it demands of samples.
pub open spec fn origin_spec<R: TestScalar, T: TestVariable<R>>(
    property: VariableProperty,
    t: Tolerance<R::Wide>,
) -> Option<Fault<R::Wide>> {
    let n = T::dof_spec();
    let id = T::identity_spec();
    let zero = zero_spec::<R, T>();
    match property {
        VariableProperty::ExpLog => either(
            state_spec::<R, T>(t, Check::ExpOfZero, T::exp_spec(zero), id),
            vector_spec(t, Check::LogOfIdentity, widened(id.log_spec()), widened(zero)),
        ),
        VariableProperty::Adjoint => matrix_spec(
            t,
            Check::AdjointOfIdentity,
            n,
            widened(id.adjoint_spec()),
            unit_spec(n),
        ),
        VariableProperty::Jacobians => either(
            matrix_spec(
                t,
                Check::JacobianOfZero,
                n,
                widened(T::right_jacobian_spec(zero)),
                unit_spec(n),
            ),
            matrix_spec(
                t,
                Check::InverseJacobianOfZero,
                n,
                widened(T::right_jacobian_inverse_spec(zero)),
                unit_spec(n),
            ),
        ),
        _ => None,
    }
}

fn origin<R: TestScalar, T: TestVariable<R>>(
    property: VariableProperty,
    t: Tolerance<R::Wide>,
) -> (fault: Option<Fault<R::Wide>>)
    ensures
        fault == origin_spec::<R, T>(property, t),
{
    let n: usize = T::dof();
    let id = T::identity();
    let zero = zero_increment::<R, T>();
    let zero = zero.as_slice();
    match property {
        VariableProperty::ExpLog => {
            let fault = state(t, Check::ExpOfZero, &T::exp(zero), &id);
            if fault.is_some() {
                return fault;
            }
            vector(t, Check::LogOfIdentity, &widen(id.log().as_slice()), &widen(zero))
        },
        VariableProperty::Adjoint => {
            let adjoint = widen(id.adjoint().as_slice());
            assert(adjoint@.len() == adjoint.len());
            matrix(t, Check::AdjointOfIdentity, n, &adjoint, &unit::<R::Wide>(n))
        },
        VariableProperty::Jacobians => {
            let jacobian = widen(T::right_jacobian(zero).as_slice());
            assert(jacobian@.len() == jacobian.len());
            let unit = unit::<R::Wide>(n);
            let fault = matrix(t, Check::JacobianOfZero, n, &jacobian, &unit);
            if fault.is_some() {
                return fault;
            }
            let inverse = widen(T::right_jacobian_inverse(zero).as_slice());
            matrix(t, Check::InverseJacobianOfZero, n, &inverse, &unit)
        },
        _ => None,
    }
}

/// Coordinates of a ten-millionth along one axis.
pub open spec fn tiny_spec<R: TestScalar>(n: nat, axis: int, sign: R::Wide) -> Seq<R> {
    narrowed::<R>(
        Seq::new(
            n,
            |i: int|
                if i == axis {
                    sign.times_spec(R::Wide::ratio_spec(1, 10_000_000))
                } else {
                    R::Wide::zero_spec()
                },
        ),
    )
}

fn tiny<R: TestScalar>(n: usize, axis: usize, sign: R::Wide) -> (delta: Vec<R>)
    ensures
        delta@ == tiny_spec::<R>(n as nat, axis as int, sign),
{
    let mut delta: Vec<R> = Vec::new();
    let mut i: usize = 0;
    while i < n
        invariant
            i <= n,
            delta@.len() == i,
            forall|j: int|
                0 <= j < i ==> #[trigger] delta@[j] == tiny_spec::<R>(
                    n as nat,
                    axis as int,
                    sign,
                )[j],
        decreases n - i,
    {
        let value = if i == axis {
            sign.times(R::Wide::ratio(1, 10_000_000))
        } else {
            R::Wide::zero()
        };
        delta.push(R::from_test_value(value));
        i += 1;
    }
    assert(delta@ =~= tiny_spec::<R>(n as nat, axis as int, sign));
    delta
}

/// The fault of the Jacobians at tiny increments along one coordinate, downwards first.
pub open spec fn axis_spec<R: TestScalar, T: TestVariable<R>>(
    axis: int,
    t: Tolerance<R::Wide>,
) -> Option<Fault<R::Wide>> {
    let id = T::identity_spec();
    let up = R::Wide::one_spec();
    either(
        jacobians_spec::<R, T>(
            id,
            id,
            tangent_of::<T>(tiny_spec(T::dof_spec(), axis, up.negate_spec())),
            t,
        ),
        jacobians_spec::<R, T>(id, id, tangent_of::<T>(tiny_spec(T::dof_spec(), axis, up)), t),
    )
}

/// The fault of the Jacobians at tiny increments along every coordinate.
pub open spec fn axes_spec<R: TestScalar, T: TestVariable<R>>(t: Tolerance<R::Wide>) -> Option<
    Fault<R::Wide>,
> {
    earliest(Seq::new(T::dof_spec(), |axis: int| axis_spec::<R, T>(axis, t)))
}

fn axes<R: TestScalar, T: TestVariable<R>>(t: Tolerance<R::Wide>) -> (fault: Option<
    Fault<R::Wide>,
>)
    ensures
        fault == axes_spec::<R, T>(t),
{
    let n: usize = T::dof();
    let id = T::identity();
    let up = R::Wide::one();
    let ghost faults = Seq::new(T::dof_spec(), |axis: int| axis_spec::<R, T>(axis, t));
    let mut axis: usize = 0;
    while axis < n
        invariant
            axis <= n,
            n == T::dof_spec(),
            id == T::identity_spec(),
            up == R::Wide::one_spec(),
            faults == Seq::new(T::dof_spec(), |axis: int| axis_spec::<R, T>(axis, t)),
            forall|j: int| 0 <= j < axis ==> (#[trigger] faults[j]) is None,
        decreases n - axis,
    {
        let down = tangent::<T>(tiny(n, axis, up.negate()).as_slice());
        let mut fault = jacobians(&id, &id, down.as_slice(), t);
        if fault.is_none() {
            let increment = tangent::<T>(tiny(n, axis, up).as_slice());
            fault = jacobians(&id, &id, increment.as_slice(), t);
        }
        assert(fault == faults[axis as int]);
        if fault.is_some() {
            proof {
                lemma_earliest(faults, axis as int);
            }
            return fault;
        }
        axis += 1;
    }
    proof {
        lemma_no_fault(faults);
    }
    None
}

/// The fault of the cases that every property examines before any sample: identity and zero
/// increment, for coordinates wrong lengths, and for Jacobians tiny increments. Rejection is a
/// fault there too.
pub open spec fn fixed_spec<R: TestScalar, T: TestVariable<R>>(
    property: VariableProperty,
    t: Tolerance<R::Wide>,
) -> Option<Fault<R::Wide>> {
    let id = T::identity_spec();
    either(
        origin_spec::<R, T>(property, t),
        either(
            examine_spec::<R, T>(property, id, id, id, zero_spec::<R, T>(), t),
            match property {
                VariableProperty::Coordinates => lengths_spec::<R, T>(),
                VariableProperty::Jacobians => axes_spec::<R, T>(t),
                _ => None,
            },
        ),
    )
}

/// Examine the cases that come before any sample.
pub fn fixed<R: TestScalar, T: TestVariable<R>>(
    property: VariableProperty,
    t: Tolerance<R::Wide>,
) -> (fault: Option<Fault<R::Wide>>)
    ensures
        fault == fixed_spec::<R, T>(property, t),
{
    let fault = origin::<R, T>(property, t);
    if fault.is_some() {
        return fault;
    }
    let id = T::identity();
    let zero = zero_increment::<R, T>();
    let fault = examine(property, &id, &id, &id, zero.as_slice(), t);
    if fault.is_some() {
        return fault;
    }
    match property {
        VariableProperty::Coordinates => lengths::<R, T>(),
        VariableProperty::Jacobians => axes::<R, T>(t),
        _ => None,
    }
}

/// The fault of a sample, unless it is rejected.
pub open spec fn sampled<R: TestScalar, T: TestVariable<R>>(
    property: VariableProperty,
    sample: Sample<R, T>,
    t: Tolerance<R::Wide>,
) -> Option<Fault<R::Wide>> {
    match examine_spec::<R, T>(property, sample.x, sample.y, sample.z, sample.delta@, t) {
        Some(Fault::Rejected) => None,
        fault => fault,
    }
}

/// Examine one property: first the fixed cases, then samples, passing over those that are
/// rejected. The first fault decides.
pub fn check_variable<R: TestScalar, T: TestVariable<R>>(
    property: VariableProperty,
    samples: &[Sample<R, T>],
    t: Tolerance<R::Wide>,
) -> (fault: Option<Fault<R::Wide>>)
    requires
        forall|i: int|
            0 <= i < samples@.len() ==> (#[trigger] samples@[i]).delta@.len() == T::dof_spec(),
    ensures
        fault == either(
            fixed_spec::<R, T>(property, t),
            earliest(
                Seq::new(samples@.len(), |i: int| sampled::<R, T>(property, samples@[i], t)),
            ),
        ),
{
    let fault = fixed::<R, T>(property, t);
    if fault.is_some() {
        return fault;
    }
    let ghost faults = Seq::new(
        samples@.len(),
        |i: int| sampled::<R, T>(property, samples@[i], t),
    );
    let mut i: usize = 0;
    while i < samples.len()
        invariant
            i <= samples@.len(),
            forall|k: int|
                0 <= k < samples@.len() ==> (#[trigger] samples@[k]).delta@.len()
                    == T::dof_spec(),
            fixed_spec::<R, T>(property, t) is None,
            faults == Seq::new(
                samples@.len(),
                |i: int| sampled::<R, T>(property, samples@[i], t),
            ),
            forall|j: int| 0 <= j < i ==> (#[trigger] faults[j]) is None,
        decreases samples@.len() - i,
    {
        let sample = &samples[i];
        let fault = match examine(
            property,
            &sample.x,
            &sample.y,
            &sample.z,
            sample.delta.as_slice(),
            t,
        ) {
            Some(Fault::Rejected) => None,
            fault => fault,
        };
        assert(fault == faults[i as int]);
        if fault.is_some() {
            proof {
                lemma_earliest(faults, i as int);
            }
            return fault;
        }
        i += 1;
    }
    proof {
        lemma_no_fault(faults);
    }
    None
}

} // verus!
