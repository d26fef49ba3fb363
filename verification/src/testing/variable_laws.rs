//! What it means that a check of a variable finds no fault.
use crate::algebra::{lemma_sum_same, sum};
use crate::scalar::Real;
use crate::testing::laws::lemma_none_fails;
use crate::testing::{
    at, axis_spec, column_spec, constant_spec, derivative_spec, dot_spec, earliest, either,
    examine_spec, fixed_spec, image_spec, jacobians_spec, lemma_square, lifted_log_spec,
    matrix_spec, narrowed, near_spec, negated_spec, product_spec, row_spec, sampled, seeded_spec,
    slope_spec, slopes_spec, tiny_spec, unit_entry, unit_spec, vector_spec, widened, zero_spec,
    zeros_spec, adjoint_spec, Check, Fault, ProbeView, Sample, TestScalar, TestVariable, Tolerance,
    VariableProperty,
};
use crate::variable::{tangent_of, Variable};
use vstd::prelude::*;

verus! {

/// Two coordinate lists agree entry by entry.
pub open spec fn lists_agree<W: Real>(t: Tolerance<W>, actual: Seq<W>, expected: Seq<W>) -> bool {
    forall|i: int|
        0 <= i < actual.len() ==> t.close_spec(#[trigger] actual[i], expected[i])
}

/// Two square matrices, stored column by column, agree entry by entry.
pub open spec fn matrices_agree<W: Real>(
    t: Tolerance<W>,
    n: nat,
    actual: spec_fn(int, int) -> W,
    expected: spec_fn(int, int) -> W,
) -> bool {
    forall|r: int, c: int|
        0 <= r < n && 0 <= c < n ==> t.close_spec(#[trigger] actual(r, c), expected(r, c))
}

/// The entries of a square matrix of coefficients, stored column by column.
pub open spec fn entries<R: TestScalar>(n: nat, matrix: Seq<R>) -> spec_fn(int, int) -> R::Wide {
    |r: int, c: int| matrix[c * n + r].test_value_spec()
}

/// The entries of the identity.
pub open spec fn unit<W: Real>() -> spec_fn(int, int) -> W {
    |r: int, c: int|
        if r == c {
            W::one_spec()
        } else {
            W::zero_spec()
        }
}

/// The entries of a product of two matrices.
pub open spec fn times<W: Real>(
    n: nat,
    a: spec_fn(int, int) -> W,
    b: spec_fn(int, int) -> W,
) -> spec_fn(int, int) -> W {
    |r: int, c: int| sum(n as int, |k: int| a(r, k).times_spec(b(k, c)))
}

/// The opposite of every entry.
pub open spec fn opposite<W: Real>(a: spec_fn(int, int) -> W) -> spec_fn(int, int) -> W {
    |r: int, c: int| a(r, c).negate_spec()
}

proof fn lemma_vector<W: Real>(t: Tolerance<W>, check: Check, actual: Seq<W>, expected: Seq<W>)
    ensures
        vector_spec(t, check, actual, expected) is None <==> lists_agree(t, actual, expected),
{
    let faults = Seq::new(
        actual.len(),
        |i: int| near_spec(t, check, i as usize, 0, actual[i], expected[i]),
    );
    lemma_none_fails(faults);
    if lists_agree(t, actual, expected) {
        assert forall|j: int| 0 <= j < faults.len() implies (#[trigger] faults[j]) is None by {
            assert(t.close_spec(actual[j], expected[j]));
        }
    }
    if vector_spec(t, check, actual, expected) is None {
        assert forall|i: int| 0 <= i < actual.len() implies t.close_spec(
            #[trigger] actual[i],
            expected[i],
        ) by {
            assert(faults[i] is None);
        }
    }
}

proof fn lemma_matrix<W: Real>(
    t: Tolerance<W>,
    check: Check,
    n: nat,
    actual: Seq<W>,
    expected: Seq<W>,
    a: spec_fn(int, int) -> W,
    b: spec_fn(int, int) -> W,
)
    requires
        forall|r: int, c: int|
            0 <= r < n && 0 <= c < n ==> #[trigger] a(r, c) == at(n, actual, r, c),
        forall|r: int, c: int|
            0 <= r < n && 0 <= c < n ==> #[trigger] b(r, c) == at(n, expected, r, c),
    ensures
        matrix_spec(t, check, n, actual, expected) is None <==> matrices_agree(t, n, a, b),
{
    let rows = Seq::new(n, |row: int| row_spec(t, check, n, actual, expected, row));
    lemma_none_fails(rows);
    assert forall|r: int| 0 <= r < n implies (#[trigger] rows[r] is None <==> forall|c: int|
        0 <= c < n ==> t.close_spec(#[trigger] a(r, c), b(r, c))) by {
        let entries = Seq::new(
            n,
            |column: int|
                near_spec(
                    t,
                    check,
                    r as usize,
                    column as usize,
                    at(n, actual, r, column),
                    at(n, expected, r, column),
                ),
        );
        lemma_none_fails(entries);
        if rows[r] is None {
            assert forall|c: int| 0 <= c < n implies t.close_spec(#[trigger] a(r, c), b(r, c)) by {
                assert(entries[c] is None);
            }
        }
        if forall|c: int| 0 <= c < n ==> t.close_spec(#[trigger] a(r, c), b(r, c)) {
            assert forall|c: int| 0 <= c < n implies (#[trigger] entries[c]) is None by {
                assert(t.close_spec(a(r, c), b(r, c)));
            }
        }
    }
    if matrix_spec(t, check, n, actual, expected) is None {
        assert forall|r: int, c: int| 0 <= r < n && 0 <= c < n implies t.close_spec(
            #[trigger] a(r, c),
            b(r, c),
        ) by {
            assert(rows[r] is None);
        }
    }
    if matrices_agree(t, n, a, b) {
        assert forall|r: int| 0 <= r < n implies (#[trigger] rows[r]) is None by {
            assert forall|c: int| 0 <= c < n implies t.close_spec(#[trigger] a(r, c), b(r, c)) by {}
        }
    }
}

proof fn lemma_dot<W: Real>(n: nat, a: Seq<W>, b: Seq<W>, r: int, c: int, m: int)
    ensures
        dot_spec(n, a, b, r, c, m) == sum(
            m,
            |k: int| at(n, a, r, k).times_spec(at(n, b, k, c)),
        ),
    decreases m,
{
    if m > 0 {
        lemma_dot(n, a, b, r, c, m - 1);
    }
}

proof fn lemma_product<W: Real>(
    n: nat,
    a: Seq<W>,
    b: Seq<W>,
    f: spec_fn(int, int) -> W,
    g: spec_fn(int, int) -> W,
)
    requires
        forall|r: int, c: int| 0 <= r < n && 0 <= c < n ==> #[trigger] f(r, c) == at(n, a, r, c),
        forall|r: int, c: int| 0 <= r < n && 0 <= c < n ==> #[trigger] g(r, c) == at(n, b, r, c),
    ensures
        forall|r: int, c: int|
            0 <= r < n && 0 <= c < n ==> #[trigger] times(n, f, g)(r, c) == at(
                n,
                product_spec(n, a, b),
                r,
                c,
            ),
{
    let entry = |row: int, column: int| dot_spec(n, a, b, row, column, n as int);
    assert forall|r: int, c: int| 0 <= r < n && 0 <= c < n implies #[trigger] times(n, f, g)(r, c)
        == at(n, product_spec(n, a, b), r, c) by {
        lemma_square(n, entry, r, c);
        lemma_dot(n, a, b, r, c, n as int);
        lemma_sum_same(
            n as int,
            |k: int| f(r, k).times_spec(g(k, c)),
            |k: int| at(n, a, r, k).times_spec(at(n, b, k, c)),
        );
    }
}

proof fn lemma_entries<R: TestScalar>(n: nat, matrix: Seq<R>)
    requires
        matrix.len() == n * n,
    ensures
        forall|r: int, c: int|
            0 <= r < n && 0 <= c < n ==> #[trigger] entries(n, matrix)(r, c) == at(
                n,
                widened(matrix),
                r,
                c,
            ),
        forall|r: int, c: int|
            0 <= r < n && 0 <= c < n ==> #[trigger] opposite(entries(n, matrix))(r, c) == at(
                n,
                negated_spec(widened(matrix)),
                r,
                c,
            ),
{
    assert forall|r: int, c: int| 0 <= r < n && 0 <= c < n implies #[trigger] entries(n, matrix)(
        r,
        c,
    ) == at(n, widened(matrix), r, c) by {
        crate::linearization::lemma_entry_index(n, n, r, c);
    }
    assert forall|r: int, c: int| 0 <= r < n && 0 <= c < n implies #[trigger] opposite(
        entries(n, matrix),
    )(r, c) == at(n, negated_spec(widened(matrix)), r, c) by {
        crate::linearization::lemma_entry_index(n, n, r, c);
    }
}

proof fn lemma_unit<W: Real>(n: nat)
    ensures
        forall|r: int, c: int|
            0 <= r < n && 0 <= c < n ==> #[trigger] unit::<W>()(r, c) == at(
                n,
                unit_spec::<W>(n),
                r,
                c,
            ),
{
    let entry = |row: int, column: int| unit_entry::<W>(row, column);
    assert forall|r: int, c: int| 0 <= r < n && 0 <= c < n implies #[trigger] unit::<W>()(r, c)
        == at(n, unit_spec::<W>(n), r, c) by {
        lemma_square(n, entry, r, c);
    }
}

/// The group laws hold of three states, up to equivalence.
pub open spec fn is_group<R: TestScalar, T: TestVariable<R>>(
    x: T,
    y: T,
    z: T,
    t: Tolerance<R::Wide>,
) -> bool {
    let id = T::identity_spec();
    &&& id.compose_spec(x).equivalent_spec(x, t)
    &&& x.compose_spec(id).equivalent_spec(x, t)
    &&& x.inverse_spec().compose_spec(x).equivalent_spec(id, t)
    &&& x.compose_spec(x.inverse_spec()).equivalent_spec(id, t)
    &&& x.inverse_spec().inverse_spec().equivalent_spec(x, t)
    &&& x.compose_spec(y).compose_spec(z).equivalent_spec(x.compose_spec(y.compose_spec(z)), t)
    &&& x.compose_spec(y).inverse_spec().equivalent_spec(
        y.inverse_spec().compose_spec(x.inverse_spec()),
        t,
    )
}

/// Exponential and logarithm are inverse to each other, and the logarithm of the lifted state is
/// the lifted logarithm.
pub open spec fn is_chart<R: TestScalar, T: TestVariable<R>>(
    x: T,
    delta: Seq<R>,
    t: Tolerance<R::Wide>,
) -> bool {
    let lifted = x.lifted_spec().log_spec();
    let log = x.log_spec();
    &&& x.smooth_spec()
    &&& T::exp_spec(delta).smooth_spec()
    &&& lists_agree(t, widened(T::exp_spec(delta).log_spec()), widened(delta))
    &&& T::exp_spec(log).equivalent_spec(x, t)
    &&& forall|i: int|
        0 <= i < log.len() ==> {
            &&& t.close_spec(
                R::parts_spec(#[trigger] lifted[i]).0,
                log[i].test_value_spec(),
            )
            &&& t.close_spec(R::parts_spec(lifted[i]).1, R::Wide::zero_spec())
        }
}

/// Retraction and local coordinates are inverse to each other, and follow the right-side
/// convention.
pub open spec fn is_right_sided<R: TestScalar, T: TestVariable<R>>(
    x: T,
    y: T,
    delta: Seq<R>,
    t: Tolerance<R::Wide>,
) -> bool {
    let zero = zero_spec::<R, T>();
    let between = x.inverse_spec().compose_spec(y);
    &&& between.smooth_spec()
    &&& T::exp_spec(delta).smooth_spec()
    &&& x.retract_spec(zero).equivalent_spec(x, t)
    &&& x.retract_spec(delta).equivalent_spec(x.compose_spec(T::exp_spec(delta)), t)
    &&& lists_agree(t, widened(x.local_spec(x)), widened(zero))
    &&& lists_agree(t, widened(x.local_spec(y)), widened(between.log_spec()))
    &&& lists_agree(t, widened(x.local_spec(x.retract_spec(delta))), widened(delta))
    &&& x.retract_spec(x.local_spec(y)).equivalent_spec(y, t)
}

/// Coordinates multiplied by a matrix of coefficients.
pub open spec fn image<R: TestScalar>(n: nat, matrix: Seq<R>, v: Seq<R>) -> Seq<R::Wide> {
    Seq::new(
        n,
        |r: int|
            sum(n as int, |k: int| entries(n, matrix)(r, k).times_spec(v[k].test_value_spec())),
    )
}

/// Adjoints compose as states do, and conjugate increments.
pub open spec fn is_adjoint<R: TestScalar, T: TestVariable<R>>(
    x: T,
    y: T,
    delta: Seq<R>,
    t: Tolerance<R::Wide>,
) -> bool {
    let n = T::dof_spec();
    &&& matrices_agree(
        t,
        n,
        entries(n, x.compose_spec(y).adjoint_spec()),
        times(n, entries(n, x.adjoint_spec()), entries(n, y.adjoint_spec())),
    )
    &&& x.compose_spec(T::exp_spec(delta)).compose_spec(x.inverse_spec()).equivalent_spec(
        T::exp_spec(
            tangent_of::<T>(
                Seq::new(
                    n,
                    |r: int| R::from_test_value_spec(image(n, x.adjoint_spec(), delta)[r]),
                ),
            ),
        ),
        t,
    )
}

/// A map between tangent vectors has some values and a derivative at an input: its dual
/// evaluations, each with one coordinate of the input seeded, have these values, and as slopes
/// the columns of the derivative.
pub open spec fn differentiates<R: TestScalar, D: Variable<Scalar = R::Dual>>(
    t: Tolerance<R::Wide>,
    input: Seq<R>,
    value: Seq<R>,
    derivative: spec_fn(int, int) -> R::Wide,
    map: spec_fn(Seq<R::Dual>) -> Seq<R::Dual>,
) -> bool {
    forall|r: int, c: int|
        0 <= r < value.len() && 0 <= c < value.len() ==> #[trigger] slope_agrees::<R, D>(
            t,
            input,
            value,
            derivative,
            map,
            r,
            c,
        )
}

/// One row of a dual evaluation, with one coordinate of the input seeded.
pub open spec fn slope_agrees<R: TestScalar, D: Variable<Scalar = R::Dual>>(
    t: Tolerance<R::Wide>,
    input: Seq<R>,
    value: Seq<R>,
    derivative: spec_fn(int, int) -> R::Wide,
    map: spec_fn(Seq<R::Dual>) -> Seq<R::Dual>,
    r: int,
    c: int,
) -> bool {
    let output = R::parts_spec(map(tangent_of::<D>(with_seed(input, c)))[r]);
    &&& t.close_spec(output.0, value[r].test_value_spec())
    &&& t.close_spec(output.1, derivative(r, c))
}

/// Coordinates as dual numbers, one of which has a derivative of one and all others of zero.
pub open spec fn with_seed<R: TestScalar>(input: Seq<R>, c: int) -> Seq<R::Dual> {
    Seq::new(
        input.len(),
        |i: int|
            input[i].dual_spec(
                if i == c {
                    R::Wide::one_spec()
                } else {
                    R::Wide::zero_spec()
                },
            ),
    )
}

proof fn lemma_differentiates<R: TestScalar, D: Variable<Scalar = R::Dual>>(
    t: Tolerance<R::Wide>,
    checks: (Check, Check),
    input: Seq<R>,
    value: Seq<R>,
    expected: Seq<R::Wide>,
    probe: ProbeView<D>,
    derivative: spec_fn(int, int) -> R::Wide,
    map: spec_fn(Seq<R::Dual>) -> Seq<R::Dual>,
)
    requires
        derivative_spec::<R, D>(t, checks, input, value, expected, probe) is None,
        forall|r: int, c: int|
            0 <= r < value.len() && 0 <= c < value.len() ==> #[trigger] derivative(r, c) == at(
                value.len(),
                expected,
                r,
                c,
            ),
        forall|e: Seq<R::Dual>| #[trigger] map(e) == probe.at(e),
    ensures
        differentiates::<R, D>(t, input, value, derivative, map),
{
    let columns = Seq::new(
        value.len(),
        |column: int|
            column_spec(
                t,
                checks,
                column,
                probe.at(tangent_of::<D>(seeded_spec(input, column))),
                value,
                expected,
            ),
    );
    lemma_none_fails(columns);
    assert forall|r: int, c: int|
        0 <= r < value.len() && 0 <= c < value.len() implies #[trigger] slope_agrees::<R, D>(
        t,
        input,
        value,
        derivative,
        map,
        r,
        c,
    ) by {
        assert(columns[c] is None);
        assert(with_seed(input, c) =~= seeded_spec(input, c));
        let output = map(tangent_of::<D>(with_seed(input, c)));
        let rows = Seq::new(
            value.len(),
            |row: int|
                slope_spec(
                    t,
                    checks,
                    row,
                    c,
                    output[row],
                    value[row],
                    at(value.len(), expected, row, c),
                ),
        );
        lemma_none_fails(rows);
        assert(rows[r] is None);
    }
}

/// Tangent vectors and matrices of a variable have its size.
pub open spec fn sized<R: TestScalar, T: TestVariable<R>>() -> bool {
    let n = T::dof_spec();
    &&& forall|c: Seq<R>| c.len() == n ==> (#[trigger] tangent_of::<T>(c)).len() == n
    &&& forall|x: T| (#[trigger] x.log_spec()).len() == n
    &&& forall|x: T, y: T| (#[trigger] x.local_spec(y)).len() == n
    &&& forall|x: T| (#[trigger] x.adjoint_spec()).len() == n * n
    &&& forall|d: Seq<R>| d.len() == n ==> (#[trigger] T::right_jacobian_spec(d)).len() == n * n
    &&& forall|d: Seq<R>|
        d.len() == n ==> (#[trigger] T::right_jacobian_inverse_spec(d)).len() == n * n
}

/// The Jacobians of the geometry are the derivatives of what they belong to: of exponential and
/// logarithm, conjugation, composition in either input, inversion, retraction in base and
/// increment, and local coordinates in base and target.
pub open spec fn has_jacobians<R: TestScalar, T: TestVariable<R>>(
    x: T,
    y: T,
    delta: Seq<R>,
    t: Tolerance<R::Wide>,
) -> bool {
    let n = T::dof_spec();
    let zero = zero_spec::<R, T>();
    let exp = T::exp_spec(delta);
    let dx = x.lifted_spec();
    let dy = y.lifted_spec();
    let log = x.log_spec();
    let local = x.local_spec(y);
    let exp_back = exp.lifted_spec().inverse_spec();
    let product_back = x.compose_spec(y).lifted_spec().inverse_spec();
    let inverse_back = x.inverse_spec().lifted_spec().inverse_spec();
    let moved_back = x.retract_spec(delta).lifted_spec().inverse_spec();
    let constant = tangent_of::<T::Dual>(
        Seq::new(delta.len(), |i: int| delta[i].dual_spec(R::Wide::zero_spec())),
    );
    let jr = entries(n, T::right_jacobian_spec(delta));
    let jr_inverse = entries(n, T::right_jacobian_inverse_spec(delta));
    let adjoint = entries(n, x.adjoint_spec());
    &&& x.smooth_spec()
    &&& x.inverse_spec().compose_spec(y).smooth_spec()
    &&& exp.smooth_spec()
    &&& matrices_agree(t, n, times(n, jr, jr_inverse), unit())
    &&& differentiates::<R, T::Dual>(
        t,
        delta,
        zero,
        jr,
        |e: Seq<R::Dual>| exp_back.compose_spec(T::Dual::exp_spec(e)).log_spec(),
    )
    &&& differentiates::<R, T::Dual>(
        t,
        zero,
        delta,
        jr_inverse,
        |e: Seq<R::Dual>| exp.lifted_spec().retract_spec(e).log_spec(),
    )
    &&& differentiates::<R, T::Dual>(
        t,
        zero,
        log,
        entries(n, T::right_jacobian_inverse_spec(log)),
        |e: Seq<R::Dual>| dx.retract_spec(e).log_spec(),
    )
    &&& differentiates::<R, T::Dual>(
        t,
        zero,
        zero,
        adjoint,
        |e: Seq<R::Dual>|
            dx.compose_spec(T::Dual::exp_spec(e)).compose_spec(dx.inverse_spec()).log_spec(),
    )
    &&& differentiates::<R, T::Dual>(
        t,
        zero,
        zero,
        entries(n, y.inverse_spec().adjoint_spec()),
        |e: Seq<R::Dual>|
            product_back.compose_spec(dx.retract_spec(e).compose_spec(dy)).log_spec(),
    )
    &&& differentiates::<R, T::Dual>(
        t,
        zero,
        zero,
        unit(),
        |e: Seq<R::Dual>|
            product_back.compose_spec(dx.compose_spec(dy.retract_spec(e))).log_spec(),
    )
    &&& differentiates::<R, T::Dual>(
        t,
        zero,
        zero,
        opposite(adjoint),
        |e: Seq<R::Dual>|
            inverse_back.compose_spec(dx.retract_spec(e).inverse_spec()).log_spec(),
    )
    &&& differentiates::<R, T::Dual>(
        t,
        zero,
        zero,
        entries(n, exp.inverse_spec().adjoint_spec()),
        |e: Seq<R::Dual>|
            moved_back.compose_spec(dx.retract_spec(e).retract_spec(constant)).log_spec(),
    )
    &&& differentiates::<R, T::Dual>(
        t,
        delta,
        zero,
        jr,
        |e: Seq<R::Dual>| moved_back.compose_spec(dx.retract_spec(e)).log_spec(),
    )
    &&& differentiates::<R, T::Dual>(
        t,
        zero,
        local,
        opposite(
            entries(
                n,
                T::right_jacobian_inverse_spec(
                    Seq::new(local.len(), |i: int| local[i].negate_spec()),
                ),
            ),
        ),
        |e: Seq<R::Dual>| dx.retract_spec(e).local_spec(dy),
    )
    &&& differentiates::<R, T::Dual>(
        t,
        zero,
        local,
        entries(n, T::right_jacobian_inverse_spec(local)),
        |e: Seq<R::Dual>| dx.local_spec(dy.retract_spec(e)),
    )
}

proof fn lemma_has_jacobians<R: TestScalar, T: TestVariable<R>>(
    x: T,
    y: T,
    delta: Seq<R>,
    t: Tolerance<R::Wide>,
)
    requires
        jacobians_spec::<R, T>(x, y, delta, t) is None,
        sized::<R, T>(),
        delta.len() == T::dof_spec(),
    ensures
        has_jacobians::<R, T>(x, y, delta, t),
{
    let n = T::dof_spec();
    let zero = zero_spec::<R, T>();
    let exp = T::exp_spec(delta);
    let dx = x.lifted_spec();
    let dy = y.lifted_spec();
    let log = x.log_spec();
    let local = x.local_spec(y);
    let exp_back = exp.lifted_spec().inverse_spec();
    let product_back = x.compose_spec(y).lifted_spec().inverse_spec();
    let inverse_back = x.inverse_spec().lifted_spec().inverse_spec();
    let moved_back = x.retract_spec(delta).lifted_spec().inverse_spec();
    let constant = tangent_of::<T::Dual>(
        Seq::new(delta.len(), |i: int| delta[i].dual_spec(R::Wide::zero_spec())),
    );
    let jr = entries(n, T::right_jacobian_spec(delta));
    let jr_inverse = entries(n, T::right_jacobian_inverse_spec(delta));
    let adjoint = entries(n, x.adjoint_spec());
    assert(constant == tangent_of::<T::Dual>(constant_spec(delta))) by {
        assert(Seq::new(delta.len(), |i: int| delta[i].dual_spec(R::Wide::zero_spec()))
            =~= constant_spec(delta));
    }
    assert(Seq::new(local.len(), |i: int| local[i].negate_spec()) =~= negated_spec(local));
    lemma_unit::<R::Wide>(n);
    lemma_entries(n, T::right_jacobian_spec(delta));
    lemma_entries(n, T::right_jacobian_inverse_spec(delta));
    lemma_entries(n, T::right_jacobian_inverse_spec(log));
    lemma_entries(n, T::right_jacobian_inverse_spec(local));
    lemma_entries(n, T::right_jacobian_inverse_spec(negated_spec(local)));
    lemma_entries(n, x.adjoint_spec());
    lemma_entries(n, y.inverse_spec().adjoint_spec());
    lemma_entries(n, exp.inverse_spec().adjoint_spec());
    lemma_product(
        n,
        widened(T::right_jacobian_spec(delta)),
        widened(T::right_jacobian_inverse_spec(delta)),
        jr,
        jr_inverse,
    );
    lemma_matrix(
        t,
        Check::JacobianInverse,
        n,
        product_spec(
            n,
            widened(T::right_jacobian_spec(delta)),
            widened(T::right_jacobian_inverse_spec(delta)),
        ),
        unit_spec(n),
        times(n, jr, jr_inverse),
        unit(),
    );
    assert(slopes_spec::<R, T>(x, y, delta, t) is None);
    lemma_differentiates::<R, T::Dual>(
        t,
        (Check::ExpValue, Check::ExpDerivative),
        delta,
        zero,
        widened(T::right_jacobian_spec(delta)),
        (ProbeView::Exp { inverse: exp_back }),
        jr,
        |e: Seq<R::Dual>| exp_back.compose_spec(T::Dual::exp_spec(e)).log_spec(),
    );
    lemma_differentiates::<R, T::Dual>(
        t,
        (Check::LogOfExpValue, Check::LogOfExpDerivative),
        zero,
        delta,
        widened(T::right_jacobian_inverse_spec(delta)),
        (ProbeView::Log { base: exp.lifted_spec() }),
        jr_inverse,
        |e: Seq<R::Dual>| exp.lifted_spec().retract_spec(e).log_spec(),
    );
    lemma_differentiates::<R, T::Dual>(
        t,
        (Check::LogValue, Check::LogDerivative),
        zero,
        log,
        widened(T::right_jacobian_inverse_spec(log)),
        (ProbeView::Log { base: dx }),
        entries(n, T::right_jacobian_inverse_spec(log)),
        |e: Seq<R::Dual>| dx.retract_spec(e).log_spec(),
    );
    lemma_differentiates::<R, T::Dual>(
        t,
        (Check::AdjointValue, Check::AdjointDerivative),
        zero,
        zero,
        widened(x.adjoint_spec()),
        (ProbeView::Adjoint { base: dx }),
        adjoint,
        |e: Seq<R::Dual>|
            dx.compose_spec(T::Dual::exp_spec(e)).compose_spec(dx.inverse_spec()).log_spec(),
    );
    lemma_differentiates::<R, T::Dual>(
        t,
        (Check::ComposeLeftValue, Check::ComposeLeftDerivative),
        zero,
        zero,
        widened(y.inverse_spec().adjoint_spec()),
        (ProbeView::ComposeLeft { base: dx, other: dy, inverse: product_back }),
        entries(n, y.inverse_spec().adjoint_spec()),
        |e: Seq<R::Dual>|
            product_back.compose_spec(dx.retract_spec(e).compose_spec(dy)).log_spec(),
    );
    lemma_differentiates::<R, T::Dual>(
        t,
        (Check::ComposeRightValue, Check::ComposeRightDerivative),
        zero,
        zero,
        unit_spec::<R::Wide>(n),
        (ProbeView::ComposeRight { base: dx, other: dy, inverse: product_back }),
        unit(),
        |e: Seq<R::Dual>|
            product_back.compose_spec(dx.compose_spec(dy.retract_spec(e))).log_spec(),
    );
    lemma_differentiates::<R, T::Dual>(
        t,
        (Check::InverseValue, Check::InverseDerivative),
        zero,
        zero,
        negated_spec(widened(x.adjoint_spec())),
        (ProbeView::Inverse { base: dx, inverse: inverse_back }),
        opposite(adjoint),
        |e: Seq<R::Dual>|
            inverse_back.compose_spec(dx.retract_spec(e).inverse_spec()).log_spec(),
    );
    lemma_differentiates::<R, T::Dual>(
        t,
        (Check::RetractBaseValue, Check::RetractBaseDerivative),
        zero,
        zero,
        widened(exp.inverse_spec().adjoint_spec()),
        (ProbeView::RetractBase { base: dx, delta: constant, inverse: moved_back }),
        entries(n, exp.inverse_spec().adjoint_spec()),
        |e: Seq<R::Dual>|
            moved_back.compose_spec(dx.retract_spec(e).retract_spec(constant)).log_spec(),
    );
    lemma_differentiates::<R, T::Dual>(
        t,
        (Check::RetractIncrementValue, Check::RetractIncrementDerivative),
        delta,
        zero,
        widened(T::right_jacobian_spec(delta)),
        (ProbeView::RetractIncrement { base: dx, inverse: moved_back }),
        jr,
        |e: Seq<R::Dual>| moved_back.compose_spec(dx.retract_spec(e)).log_spec(),
    );
    lemma_differentiates::<R, T::Dual>(
        t,
        (Check::LocalBaseValue, Check::LocalBaseDerivative),
        zero,
        local,
        negated_spec(widened(T::right_jacobian_inverse_spec(negated_spec(local)))),
        (ProbeView::LocalBase { base: dx, other: dy }),
        opposite(
            entries(
                n,
                T::right_jacobian_inverse_spec(
                    Seq::new(local.len(), |i: int| local[i].negate_spec()),
                ),
            ),
        ),
        |e: Seq<R::Dual>| dx.retract_spec(e).local_spec(dy),
    );
    lemma_differentiates::<R, T::Dual>(
        t,
        (Check::LocalTargetValue, Check::LocalTargetDerivative),
        zero,
        local,
        widened(T::right_jacobian_inverse_spec(local)),
        (ProbeView::LocalTarget { base: dx, other: dy }),
        entries(n, T::right_jacobian_inverse_spec(local)),
        |e: Seq<R::Dual>| dx.local_spec(dy.retract_spec(e)),
    );
}

/// Whether a sample has a property.
pub open spec fn has_property<R: TestScalar, T: TestVariable<R>>(
    property: VariableProperty,
    x: T,
    y: T,
    z: T,
    delta: Seq<R>,
    t: Tolerance<R::Wide>,
) -> bool {
    match property {
        VariableProperty::Coordinates => lists_agree(
            t,
            widened(tangent_of::<T>(delta)),
            widened(delta),
        ),
        VariableProperty::GroupLaws => is_group::<R, T>(x, y, z, t),
        VariableProperty::ExpLog => is_chart::<R, T>(x, delta, t),
        VariableProperty::RetractLocal => is_right_sided::<R, T>(x, y, delta, t),
        VariableProperty::Adjoint => is_adjoint::<R, T>(x, y, delta, t),
        VariableProperty::Jacobians => has_jacobians::<R, T>(x, y, delta, t),
    }
}

/// Whether a sample lies where a logarithm that a property needs is not smooth.
pub open spec fn off_chart<R: TestScalar, T: TestVariable<R>>(
    property: VariableProperty,
    x: T,
    y: T,
    delta: Seq<R>,
) -> bool {
    let between = x.inverse_spec().compose_spec(y);
    match property {
        VariableProperty::ExpLog => !x.smooth_spec() || !T::exp_spec(delta).smooth_spec(),
        VariableProperty::RetractLocal => !between.smooth_spec() || !T::exp_spec(
            delta,
        ).smooth_spec(),
        VariableProperty::Jacobians => !x.smooth_spec() || !between.smooth_spec() || !T::exp_spec(
            delta,
        ).smooth_spec(),
        _ => false,
    }
}

proof fn lemma_is_adjoint<R: TestScalar, T: TestVariable<R>>(
    x: T,
    y: T,
    delta: Seq<R>,
    t: Tolerance<R::Wide>,
)
    requires
        adjoint_spec::<R, T>(x, y, delta, t) is None,
        sized::<R, T>(),
        delta.len() == T::dof_spec(),
    ensures
        is_adjoint::<R, T>(x, y, delta, t),
{
    let n = T::dof_spec();
    let (ax, ay) = (x.adjoint_spec(), y.adjoint_spec());
    let (f, g) = (entries(n, ax), entries(n, ay));
    lemma_entries(n, ax);
    lemma_entries(n, ay);
    lemma_entries(n, x.compose_spec(y).adjoint_spec());
    lemma_product(n, widened(ax), widened(ay), f, g);
    lemma_matrix(
        t,
        Check::AdjointOfProduct,
        n,
        widened(x.compose_spec(y).adjoint_spec()),
        product_spec(n, widened(ax), widened(ay)),
        entries(n, x.compose_spec(y).adjoint_spec()),
        times(n, f, g),
    );
    let mapped = image_spec(n, widened(ax), widened(delta));
    assert(Seq::new(n, |r: int| R::from_test_value_spec(image(n, ax, delta)[r])) =~= narrowed::<R>(
        mapped,
    )) by {
        assert forall|r: int| 0 <= r < n implies image(n, ax, delta)[r] == #[trigger] mapped[r] by {
            lemma_dot(n, widened(ax), widened(delta), r, 0, n as int);
            let p = |k: int| f(r, k).times_spec(delta[k].test_value_spec());
            let q = |k: int|
                at(n, widened(ax), r, k).times_spec(at(n, widened(delta), k, 0));
            assert forall|k: int| 0 <= k < n implies #[trigger] p(k) == q(k) by {
                assert(0 * n + k == k) by (nonlinear_arith);
                assert(f(r, k) == at(n, widened(ax), r, k));
            }
            lemma_sum_same(n as int, p, q);
        }
    }
}

/// An examination that finds no fault shows that the sample has the property, and one that
/// rejects it that a logarithm is not smooth there.
pub proof fn lemma_examined<R: TestScalar, T: TestVariable<R>>(
    property: VariableProperty,
    x: T,
    y: T,
    z: T,
    delta: Seq<R>,
    t: Tolerance<R::Wide>,
)
    requires
        sized::<R, T>(),
        delta.len() == T::dof_spec(),
    ensures
        examine_spec::<R, T>(property, x, y, z, delta, t) is None ==> has_property::<R, T>(
            property,
            x,
            y,
            z,
            delta,
            t,
        ),
        examine_spec::<R, T>(property, x, y, z, delta, t) matches Some(Fault::Rejected)
            ==> off_chart::<R, T>(property, x, y, delta),
{
    let fault = examine_spec::<R, T>(property, x, y, z, delta, t);
    match property {
        VariableProperty::Coordinates => {
            lemma_vector(
                t,
                Check::CoordinateRoundTrip,
                widened(tangent_of::<T>(delta)),
                widened(delta),
            );
            lemma_no_rejection(
                t,
                Check::CoordinateRoundTrip,
                widened(tangent_of::<T>(delta)),
                widened(delta),
            );
        },
        VariableProperty::GroupLaws => {},
        VariableProperty::ExpLog => {
            let exp = T::exp_spec(delta);
            lemma_vector(t, Check::LogOfExp, widened(exp.log_spec()), widened(delta));
            lemma_no_rejection(t, Check::LogOfExp, widened(exp.log_spec()), widened(delta));
            lemma_lifted_log(t, x.lifted_spec().log_spec(), x.log_spec());
        },
        VariableProperty::RetractLocal => {
            let zero = zero_spec::<R, T>();
            let between = x.inverse_spec().compose_spec(y).log_spec();
            let back = x.local_spec(x.retract_spec(delta));
            lemma_vector(t, Check::LocalToItself, widened(x.local_spec(x)), widened(zero));
            lemma_vector(t, Check::LocalConvention, widened(x.local_spec(y)), widened(between));
            lemma_vector(t, Check::LocalOfRetraction, widened(back), widened(delta));
            lemma_no_rejection(t, Check::LocalToItself, widened(x.local_spec(x)), widened(zero));
            lemma_no_rejection(
                t,
                Check::LocalConvention,
                widened(x.local_spec(y)),
                widened(between),
            );
            lemma_no_rejection(t, Check::LocalOfRetraction, widened(back), widened(delta));
        },
        VariableProperty::Adjoint => {
            if fault is None {
                lemma_is_adjoint::<R, T>(x, y, delta, t);
            }
            let n = T::dof_spec();
            lemma_no_matrix_rejection(
                t,
                Check::AdjointOfProduct,
                n,
                widened(x.compose_spec(y).adjoint_spec()),
                product_spec(n, widened(x.adjoint_spec()), widened(y.adjoint_spec())),
            );
        },
        VariableProperty::Jacobians => {
            if fault is None {
                lemma_has_jacobians::<R, T>(x, y, delta, t);
            }
            if !off_chart::<R, T>(property, x, y, delta) {
                lemma_no_jacobian_rejection::<R, T>(x, y, delta, t);
            }
        },
    }
}

/// Comparisons do not reject.
pub open spec fn compares<W>(fault: Option<Fault<W>>) -> bool {
    !(fault matches Some(Fault::Rejected))
}

proof fn lemma_compares<W>(faults: Seq<Option<Fault<W>>>)
    requires
        forall|j: int| 0 <= j < faults.len() ==> compares(#[trigger] faults[j]),
    ensures
        compares(earliest(faults)),
{
    if exists|i: int| crate::testing::fails_first(faults, i) {
        let i = choose|i: int| crate::testing::fails_first(faults, i);
        assert(compares(faults[i]));
    }
}

proof fn lemma_no_rejection<W: Real>(
    t: Tolerance<W>,
    check: Check,
    actual: Seq<W>,
    expected: Seq<W>,
)
    ensures
        compares(vector_spec(t, check, actual, expected)),
{
    lemma_compares(
        Seq::new(
            actual.len(),
            |i: int| near_spec(t, check, i as usize, 0, actual[i], expected[i]),
        ),
    );
}

proof fn lemma_no_matrix_rejection<W: Real>(
    t: Tolerance<W>,
    check: Check,
    n: nat,
    actual: Seq<W>,
    expected: Seq<W>,
)
    ensures
        compares(matrix_spec(t, check, n, actual, expected)),
{
    let rows = Seq::new(n, |row: int| row_spec(t, check, n, actual, expected, row));
    assert forall|r: int| 0 <= r < n implies compares(#[trigger] rows[r]) by {
        lemma_compares(
            Seq::new(
                n,
                |column: int|
                    near_spec(
                        t,
                        check,
                        r as usize,
                        column as usize,
                        at(n, actual, r, column),
                        at(n, expected, r, column),
                    ),
            ),
        );
    }
    lemma_compares(rows);
}

proof fn lemma_no_slope_rejection<R: TestScalar, D: Variable<Scalar = R::Dual>>(
    t: Tolerance<R::Wide>,
    checks: (Check, Check),
    input: Seq<R>,
    value: Seq<R>,
    expected: Seq<R::Wide>,
    probe: ProbeView<D>,
)
    ensures
        compares(derivative_spec::<R, D>(t, checks, input, value, expected, probe)),
{
    let columns = Seq::new(
        value.len(),
        |column: int|
            column_spec(
                t,
                checks,
                column,
                probe.at(tangent_of::<D>(seeded_spec(input, column))),
                value,
                expected,
            ),
    );
    assert forall|c: int| 0 <= c < columns.len() implies compares(#[trigger] columns[c]) by {
        let output = probe.at(tangent_of::<D>(seeded_spec(input, c)));
        lemma_compares(
            Seq::new(
                value.len(),
                |row: int|
                    slope_spec(
                        t,
                        checks,
                        row,
                        c,
                        output[row],
                        value[row],
                        at(value.len(), expected, row, c),
                    ),
            ),
        );
    }
    lemma_compares(columns);
}

proof fn lemma_no_jacobian_rejection<R: TestScalar, T: TestVariable<R>>(
    x: T,
    y: T,
    delta: Seq<R>,
    t: Tolerance<R::Wide>,
)
    requires
        x.smooth_spec(),
        x.inverse_spec().compose_spec(y).smooth_spec(),
        T::exp_spec(delta).smooth_spec(),
    ensures
        compares(jacobians_spec::<R, T>(x, y, delta, t)),
{
    let n = T::dof_spec();
    let zero = zero_spec::<R, T>();
    let exp = T::exp_spec(delta);
    let dx = x.lifted_spec();
    let dy = y.lifted_spec();
    let log = x.log_spec();
    let local = x.local_spec(y);
    let exp_back = exp.lifted_spec().inverse_spec();
    let product_back = x.compose_spec(y).lifted_spec().inverse_spec();
    let inverse_back = x.inverse_spec().lifted_spec().inverse_spec();
    let moved_back = x.retract_spec(delta).lifted_spec().inverse_spec();
    let constant = tangent_of::<T::Dual>(
        Seq::new(delta.len(), |i: int| delta[i].dual_spec(R::Wide::zero_spec())),
    );
    assert(constant == tangent_of::<T::Dual>(constant_spec(delta))) by {
        assert(Seq::new(delta.len(), |i: int| delta[i].dual_spec(R::Wide::zero_spec()))
            =~= constant_spec(delta));
    }
    lemma_no_matrix_rejection(
        t,
        Check::JacobianInverse,
        n,
        product_spec(
            n,
            widened(T::right_jacobian_spec(delta)),
            widened(T::right_jacobian_inverse_spec(delta)),
        ),
        unit_spec(n),
    );
    lemma_no_slope_rejection::<R, T::Dual>(
        t,
        (Check::ExpValue, Check::ExpDerivative),
        delta,
        zero,
        widened(T::right_jacobian_spec(delta)),
        (ProbeView::Exp { inverse: exp_back }),
    );
    lemma_no_slope_rejection::<R, T::Dual>(
        t,
        (Check::LogOfExpValue, Check::LogOfExpDerivative),
        zero,
        delta,
        widened(T::right_jacobian_inverse_spec(delta)),
        (ProbeView::Log { base: exp.lifted_spec() }),
    );
    lemma_no_slope_rejection::<R, T::Dual>(
        t,
        (Check::LogValue, Check::LogDerivative),
        zero,
        log,
        widened(T::right_jacobian_inverse_spec(log)),
        (ProbeView::Log { base: dx }),
    );
    lemma_no_slope_rejection::<R, T::Dual>(
        t,
        (Check::AdjointValue, Check::AdjointDerivative),
        zero,
        zero,
        widened(x.adjoint_spec()),
        (ProbeView::Adjoint { base: dx }),
    );
    lemma_no_slope_rejection::<R, T::Dual>(
        t,
        (Check::ComposeLeftValue, Check::ComposeLeftDerivative),
        zero,
        zero,
        widened(y.inverse_spec().adjoint_spec()),
        (ProbeView::ComposeLeft { base: dx, other: dy, inverse: product_back }),
    );
    lemma_no_slope_rejection::<R, T::Dual>(
        t,
        (Check::ComposeRightValue, Check::ComposeRightDerivative),
        zero,
        zero,
        unit_spec::<R::Wide>(n),
        (ProbeView::ComposeRight { base: dx, other: dy, inverse: product_back }),
    );
    lemma_no_slope_rejection::<R, T::Dual>(
        t,
        (Check::InverseValue, Check::InverseDerivative),
        zero,
        zero,
        negated_spec(widened(x.adjoint_spec())),
        (ProbeView::Inverse { base: dx, inverse: inverse_back }),
    );
    lemma_no_slope_rejection::<R, T::Dual>(
        t,
        (Check::RetractBaseValue, Check::RetractBaseDerivative),
        zero,
        zero,
        widened(exp.inverse_spec().adjoint_spec()),
        (ProbeView::RetractBase { base: dx, delta: constant, inverse: moved_back }),
    );
    lemma_no_slope_rejection::<R, T::Dual>(
        t,
        (Check::RetractIncrementValue, Check::RetractIncrementDerivative),
        delta,
        zero,
        widened(T::right_jacobian_spec(delta)),
        (ProbeView::RetractIncrement { base: dx, inverse: moved_back }),
    );
    lemma_no_slope_rejection::<R, T::Dual>(
        t,
        (Check::LocalBaseValue, Check::LocalBaseDerivative),
        zero,
        local,
        negated_spec(widened(T::right_jacobian_inverse_spec(negated_spec(local)))),
        (ProbeView::LocalBase { base: dx, other: dy }),
    );
    lemma_no_slope_rejection::<R, T::Dual>(
        t,
        (Check::LocalTargetValue, Check::LocalTargetDerivative),
        zero,
        local,
        widened(T::right_jacobian_inverse_spec(local)),
        (ProbeView::LocalTarget { base: dx, other: dy }),
    );
}

proof fn lemma_lifted_log<R: TestScalar>(t: Tolerance<R::Wide>, lifted: Seq<R::Dual>, log: Seq<R>)
    ensures
        lifted_log_spec(t, lifted, log) is None ==> forall|i: int|
            0 <= i < log.len() ==> {
                &&& t.close_spec(
                    R::parts_spec(#[trigger] lifted[i]).0,
                    log[i].test_value_spec(),
                )
                &&& t.close_spec(R::parts_spec(lifted[i]).1, R::Wide::zero_spec())
            },
        compares(lifted_log_spec(t, lifted, log)),
{
    let faults = Seq::new(
        log.len(),
        |i: int|
            {
                let (value, derivative) = R::parts_spec(lifted[i]);
                either(
                    near_spec(
                        t,
                        Check::LiftedLogValue,
                        i as usize,
                        0,
                        value,
                        log[i].test_value_spec(),
                    ),
                    near_spec(
                        t,
                        Check::LiftedLogDerivative,
                        i as usize,
                        0,
                        derivative,
                        R::Wide::zero_spec(),
                    ),
                )
            },
    );
    assert(lifted_log_spec(t, lifted, log) == earliest(faults));
    lemma_none_fails(faults);
    lemma_compares(faults);
    if lifted_log_spec(t, lifted, log) is None {
        assert forall|i: int| 0 <= i < log.len() implies {
            &&& t.close_spec(R::parts_spec(#[trigger] lifted[i]).0, log[i].test_value_spec())
            &&& t.close_spec(R::parts_spec(lifted[i]).1, R::Wide::zero_spec())
        } by {
            assert(faults[i] is None);
        }
    }
}

/// What a property demands of the identity.
pub open spec fn holds_at_origin<R: TestScalar, T: TestVariable<R>>(
    property: VariableProperty,
    t: Tolerance<R::Wide>,
) -> bool {
    let n = T::dof_spec();
    let id = T::identity_spec();
    let zero = zero_spec::<R, T>();
    match property {
        VariableProperty::Coordinates => {
            &&& n < usize::MAX ==> T::tangent_spec(zeros_spec::<R>(n + 1)) is None
            &&& n > 0 ==> T::tangent_spec(zeros_spec::<R>((n - 1) as nat)) is None
        },
        VariableProperty::ExpLog => {
            &&& T::exp_spec(zero).equivalent_spec(id, t)
            &&& lists_agree(t, widened(id.log_spec()), widened(zero))
        },
        VariableProperty::Adjoint => matrices_agree(t, n, entries(n, id.adjoint_spec()), unit()),
        VariableProperty::Jacobians => {
            &&& matrices_agree(t, n, entries(n, T::right_jacobian_spec(zero)), unit())
            &&& matrices_agree(t, n, entries(n, T::right_jacobian_inverse_spec(zero)), unit())
            &&& forall|axis: int, up: bool|
                0 <= axis < n ==> #[trigger] has_jacobians::<R, T>(id, id, nudge::<R, T>(axis, up), t)
        },
        _ => true,
    }
}

/// A tangent vector of a ten-millionth along one coordinate, up or down.
pub open spec fn nudge<R: TestScalar, T: TestVariable<R>>(axis: int, up: bool) -> Seq<R> {
    tangent_of::<T>(
        Seq::new(
            T::dof_spec(),
            |i: int|
                R::from_test_value_spec(
                    if i == axis {
                        (if up {
                            R::Wide::one_spec()
                        } else {
                            R::Wide::one_spec().negate_spec()
                        }).times_spec(R::Wide::ratio_spec(1, 10_000_000))
                    } else {
                        R::Wide::zero_spec()
                    },
                ),
        ),
    )
}

proof fn lemma_fixed<R: TestScalar, T: TestVariable<R>>(
    property: VariableProperty,
    t: Tolerance<R::Wide>,
)
    requires
        sized::<R, T>(),
        fixed_spec::<R, T>(property, t) is None,
    ensures
        holds_at_origin::<R, T>(property, t),
        has_property::<R, T>(
            property,
            T::identity_spec(),
            T::identity_spec(),
            T::identity_spec(),
            zero_spec::<R, T>(),
            t,
        ),
{
    let n = T::dof_spec();
    let id = T::identity_spec();
    let zero = zero_spec::<R, T>();
    lemma_examined::<R, T>(property, id, id, id, zero, t);
    match property {
        VariableProperty::ExpLog => {
            lemma_vector(t, Check::LogOfIdentity, widened(id.log_spec()), widened(zero));
        },
        VariableProperty::Adjoint => {
            lemma_entries(n, id.adjoint_spec());
            lemma_unit::<R::Wide>(n);
            lemma_matrix(
                t,
                Check::AdjointOfIdentity,
                n,
                widened(id.adjoint_spec()),
                unit_spec(n),
                entries(n, id.adjoint_spec()),
                unit(),
            );
        },
        VariableProperty::Jacobians => {
            lemma_entries(n, T::right_jacobian_spec(zero));
            lemma_entries(n, T::right_jacobian_inverse_spec(zero));
            lemma_unit::<R::Wide>(n);
            lemma_matrix(
                t,
                Check::JacobianOfZero,
                n,
                widened(T::right_jacobian_spec(zero)),
                unit_spec(n),
                entries(n, T::right_jacobian_spec(zero)),
                unit(),
            );
            lemma_matrix(
                t,
                Check::InverseJacobianOfZero,
                n,
                widened(T::right_jacobian_inverse_spec(zero)),
                unit_spec(n),
                entries(n, T::right_jacobian_inverse_spec(zero)),
                unit(),
            );
            let axes = Seq::new(n, |axis: int| axis_spec::<R, T>(axis, t));
            lemma_none_fails(axes);
            assert forall|axis: int, up: bool| 0 <= axis < n implies #[trigger] has_jacobians::<
                R,
                T,
            >(id, id, nudge::<R, T>(axis, up), t) by {
                assert(axes[axis] is None);
                let one = R::Wide::one_spec();
                let sign = if up {
                    one
                } else {
                    one.negate_spec()
                };
                let coords = Seq::new(
                    n,
                    |i: int|
                        R::from_test_value_spec(
                            if i == axis {
                                (if up {
                                    R::Wide::one_spec()
                                } else {
                                    R::Wide::one_spec().negate_spec()
                                }).times_spec(R::Wide::ratio_spec(1, 10_000_000))
                            } else {
                                R::Wide::zero_spec()
                            },
                        ),
                );
                assert(coords =~= tiny_spec::<R>(n, axis, sign));
                assert(coords.len() == n);
                lemma_has_jacobians::<R, T>(id, id, nudge::<R, T>(axis, up), t);
            }
        },
        _ => {},
    }
}

/// A variable in which no fault is found has the property at the identity and at every sample
/// at which the logarithms it needs are smooth.
pub proof fn lemma_variable_passes<R: TestScalar, T: TestVariable<R>>(
    property: VariableProperty,
    samples: Seq<Sample<R, T>>,
    t: Tolerance<R::Wide>,
)
    requires
        sized::<R, T>(),
        forall|i: int|
            0 <= i < samples.len() ==> (#[trigger] samples[i]).delta@.len() == T::dof_spec(),
        either(
            fixed_spec::<R, T>(property, t),
            earliest(
                Seq::new(samples.len(), |i: int| sampled::<R, T>(property, samples[i], t)),
            ),
        ) is None,
    ensures
        holds_at_origin::<R, T>(property, t),
        has_property::<R, T>(
            property,
            T::identity_spec(),
            T::identity_spec(),
            T::identity_spec(),
            zero_spec::<R, T>(),
            t,
        ),
        forall|i: int|
            0 <= i < samples.len() ==> off_chart::<R, T>(
                property,
                (#[trigger] samples[i]).x,
                samples[i].y,
                samples[i].delta@,
            ) || has_property::<R, T>(
                property,
                samples[i].x,
                samples[i].y,
                samples[i].z,
                samples[i].delta@,
                t,
            ),
{
    lemma_fixed::<R, T>(property, t);
    let faults = Seq::new(samples.len(), |i: int| sampled::<R, T>(property, samples[i], t));
    lemma_none_fails(faults);
    assert forall|i: int| 0 <= i < samples.len() implies off_chart::<R, T>(
        property,
        (#[trigger] samples[i]).x,
        samples[i].y,
        samples[i].delta@,
    ) || has_property::<R, T>(
        property,
        samples[i].x,
        samples[i].y,
        samples[i].z,
        samples[i].delta@,
        t,
    ) by {
        assert(faults[i] is None);
        let sample = samples[i];
        lemma_examined::<R, T>(property, sample.x, sample.y, sample.z, sample.delta@, t);
    }
}

} // verus!
