//! What iterative solves solve: the normal equations of their model.
use crate::algebra::{
    lemma_negate, lemma_plus, lemma_sum_same, lemma_times, lemma_times_zero, ordered_at,
    ordered_field, sum,
};
use crate::backend::{DampedLeastSquaresBackend, LeastSquaresBackend};
use crate::kernels::{Bidiagonalization, Clock, RegressionView, Triangular};
use crate::graph_laws::lemma_length;
use crate::linear_model::{hypot_sum, LinearView};
use crate::lsmr::{
    damped_product, damped_transpose, normalized, undamped_spec, Augmented, Lsmr,
    Preconditioning, Solved,
};
use crate::matrix_laws::{jacobian, lemma_products_of_jacobian, lengths, placed};
use crate::notation::Action;
use crate::scalar::Real;
use vstd::prelude::*;

verus! {

/// The differences of two lists.
pub open spec fn gap<R: Real>(a: Seq<R>, b: Seq<R>) -> Seq<R> {
    Seq::new(a.len(), |i: int| a[i].minus_spec(b[i]))
}

/// A least-squares method that is exact: where it converges, the transpose of the map takes what
/// is left of the right-hand side to zero.
pub open spec fn minimizes<R: Real, K: Bidiagonalization<R>>(kernel: K) -> bool {
    forall|
        rows: nat,
        cols: nat,
        product: Action<R>,
        transposed: Action<R>,
        conditioned: Action<R>,
        conditioned_transpose: Action<R>,
        rhs: Seq<R>,
        tolerance: R,
        max_iterations: usize,
    |
        stationary(
            cols,
            product,
            transposed,
            rhs,
            #[trigger] kernel.regression_spec(
                rows,
                cols,
                product,
                transposed,
                conditioned,
                conditioned_transpose,
                rhs,
                tolerance,
                max_iterations,
            ),
        )
}

/// Where a solve converged, its step leaves no gradient.
pub open spec fn stationary<R: Real>(
    cols: nat,
    product: Action<R>,
    transposed: Action<R>,
    rhs: Seq<R>,
    found: RegressionView<R>,
) -> bool {
    found.converged && found.step.len() == cols ==> forall|j: int|
        0 <= j < cols ==> #[trigger] transposed(gap(product(found.step), rhs))[j]
            == R::zero_spec()
}

/// Square roots are what they should be.
pub open spec fn has_root<R: Real>(value: R) -> bool {
    value.sqrt_spec().times_spec(value.sqrt_spec()) == value
}

/// The gradient of what a model predicts to cost after a step, with damping.
pub open spec fn slope_after<R: Real>(
    linear: LinearView<R>,
    scales: Seq<R>,
    lambda: R,
    step: Seq<R>,
    c: int,
) -> R {
    sum(
        linear.rows as int,
        |i: int|
            jacobian(linear, i, c).times_spec(
                sum(
                    linear.cols as int,
                    |k: int| jacobian(linear, i, k).times_spec(step[k]),
                ).minus_spec(linear.negative_residual[i]),
            ),
    ).plus_spec(lambda.times_spec(scales[c].times_spec(scales[c])).times_spec(step[c]))
}

proof fn lemma_slope<R: Real>(
    linear: LinearView<R>,
    step: Seq<R>,
    y: Seq<R>,
    c: int,
)
    requires
        ordered_field::<R>(),
        placed(linear),
        0 <= c < linear.cols,
        y.len() == linear.rows,
        forall|i: int|
            0 <= i < linear.rows ==> #[trigger] y[i] == linear.product(step)[i].minus_spec(
                linear.negative_residual[i],
            ),
    ensures
        linear.transposed(y)[c] == sum(
            linear.rows as int,
            |i: int|
                jacobian(linear, i, c).times_spec(
                    sum(
                        linear.cols as int,
                        |k: int| jacobian(linear, i, k).times_spec(step[k]),
                    ).minus_spec(linear.negative_residual[i]),
                ),
        ),
{
    lemma_products_of_jacobian(linear, step, y);
    let f = |i: int| jacobian(linear, i, c).times_spec(y[i]);
    let g = |i: int|
        jacobian(linear, i, c).times_spec(
            sum(
                linear.cols as int,
                |k: int| jacobian(linear, i, k).times_spec(step[k]),
            ).minus_spec(linear.negative_residual[i]),
        );
    assert forall|i: int| 0 <= i < linear.rows implies #[trigger] f(i) == g(i) by {
        assert(y[i] == linear.product(step)[i].minus_spec(linear.negative_residual[i]));
    }
    lemma_sum_same(linear.rows as int, f, g);
}

/// A step of a damped attempt solves the damped normal equations, whatever coordinates it was
/// solved in: the gradient of the damped model vanishes there.
pub proof fn lemma_damped_step_solves_normal_equations<
    R: Real,
    K: Triangular<R> + Bidiagonalization<R> + Clock,
>(before: Lsmr<R, K>, after: Lsmr<R, K>, lambda: R, step: Seq<R>, predicted: R, c: int)
    requires
        ordered_field::<R>(),
        has_root(lambda),
        minimizes::<R, K>(after.kernel),
        placed(before.model@),
        before.model.scales@.len() == before.model@.cols,
        forall|j: int|
            0 <= j < before.model@.cols ==> #[trigger] before.model.scales@[j] != R::zero_spec(),
        <Lsmr<R, K> as DampedLeastSquaresBackend>::answers_damped(
            before,
            after,
            lambda,
            Ok((step, predicted)),
        ),
        0 <= c < before.model@.cols,
    ensures
        slope_after(before.model@, before.model.scales@, lambda, step, c) == R::zero_spec(),
{
    let mode = before.requested();
    let system = after.system(mode);
    let linear = before.model@;
    let scales = before.model.scales@;
    let s = scales[c];
    assert(s != R::zero_spec());
    let diagonal = system.diagonal(lambda);
    let found = system.regression(lambda, before.relative_tolerance, before.max_iterations);
    let x = found.step;
    let product = |x: Seq<R>|
        damped_product(|z: Seq<R>| linear.product(z), diagonal, system.scaling(), x);
    let transposed = |y: Seq<R>|
        damped_transpose(
            |z: Seq<R>| linear.transposed(z),
            diagonal,
            system.scaling(),
            linear.rows,
            y,
        );
    let rhs = linear.negative_residual + Seq::new(linear.cols, |j: int| R::zero_spec());
    assert(stationary(linear.cols, product, transposed, rhs, found));
    let y = gap(product(x), rhs);
    let z = normalized(x, system.scaling());
    assert(step == z);
    lemma_products_of_jacobian(linear, z, y);
    assert(y.len() == linear.rows + linear.cols);
    let top = y.take(linear.rows as int);
    assert(transposed(y)[c] == R::zero_spec());
    lemma_slope(linear, z, top, c);
    lemma_products_of_jacobian(linear, z, top);
    let t = linear.transposed(top)[c];
    let d = diagonal[c];
    let root = lambda.sqrt_spec();
    let bottom = y[linear.rows + c];
    assert(bottom == d.times_spec(x[c]).minus_spec(R::zero_spec()));
    lemma_plus(d.times_spec(x[c]), R::zero_spec(), R::zero_spec());
    lemma_negate(R::zero_spec(), R::zero_spec());
    lemma_times(d, d, x[c]);
    if mode == Preconditioning::Identity {
        lemma_times(root, s, root.times_spec(s));
        lemma_times(s, root, s);
        lemma_times(root, s, s);
        lemma_times(root, root, s.times_spec(s));
        lemma_times(root, s.times_spec(s), s);
    } else {
        let u = t.over_spec(s);
        assert(ordered_at(t, s, s));
        assert(ordered_at(x[c], s, s));
        assert(u.plus_spec(lambda.times_spec(x[c])) == R::zero_spec());
        lemma_times(u, lambda.times_spec(x[c]), s);
        lemma_times_zero(s);
        lemma_times(lambda, x[c], s);
        lemma_times(z[c], s, s);
        lemma_times(z[c], s.times_spec(s), s);
        lemma_times(lambda, s.times_spec(s), z[c]);
    }
}

/// A step of an undamped solve is one at which the model costs least: its gradient vanishes there.
pub proof fn lemma_undamped_step_solves_normal_equations<
    R: Real,
    K: Triangular<R> + Bidiagonalization<R> + Clock,
>(before: Lsmr<R, K>, after: Lsmr<R, K>, step: Seq<R>, c: int)
    requires
        ordered_field::<R>(),
        minimizes::<R, K>(before.kernel),
        placed(before.model@),
        <Lsmr<R, K> as LeastSquaresBackend>::answers(before, after, Ok(step)),
        0 <= c < before.model@.cols,
    ensures
        slope_after(before.model@, before.model.scales@, R::zero_spec(), step, c)
            == R::zero_spec(),
{
    let linear = before.model@;
    let zero = R::zero_spec();
    let s = before.model.scales@[c];
    lemma_times_zero(s.times_spec(s));
    lemma_times_zero(step[c]);
    let f = |i: int|
        jacobian(linear, i, c).times_spec(
            sum(
                linear.cols as int,
                |k: int| jacobian(linear, i, k).times_spec(step[k]),
            ).minus_spec(linear.negative_residual[i]),
        );
    lemma_plus(sum(linear.rows as int, f), zero, zero);
    if linear.rows > 0 {
        let found = undamped_spec(
            before.kernel,
            linear,
            before.relative_tolerance,
            before.max_iterations,
        );
        let product = |x: Seq<R>| linear.product(x);
        let transposed = |y: Seq<R>| linear.transposed(y);
        assert(stationary(linear.cols, product, transposed, linear.negative_residual, found));
        let y = gap(product(found.step), linear.negative_residual);
        assert(step == found.step);
        lemma_products_of_jacobian(linear, step, y);
        assert(transposed(y)[c] == zero);
        lemma_slope(linear, step, y, c);
    }
}

/// The residual of the damped normal equations is the gradient of the damped model.
pub proof fn lemma_residual_is_slope<R: Real>(
    linear: LinearView<R>,
    step: Seq<R>,
    scales: Seq<R>,
    lambda: R,
    c: int,
)
    requires
        ordered_field::<R>(),
        placed(linear),
        0 <= c < linear.cols,
    ensures
        linear.normal_residual(step, scales, lambda)[c] == slope_after(
            linear,
            scales,
            lambda,
            step,
            c,
        ),
{
    let y = linear.remainder(step);
    lemma_products_of_jacobian(linear, step, y);
    lemma_slope(linear, step, y, c);
    let (d, s) = (scales[c], step[c]);
    lemma_times(lambda, d.times_spec(s), d);
    lemma_times(d, s, d);
    lemma_times(d, d, s);
    lemma_times(s, d, d);
    lemma_times(lambda, d.times_spec(d), s);
}

/// The residual that an attempt reports is the length of the gradient that its step leaves, and
/// relative to the gradient before it unless that is zero.
pub proof fn lemma_reported_residual<R: Real, K: Triangular<R> + Bidiagonalization<R>>(
    system: Augmented<R, K>,
    lambda: R,
    solved: Solved<R>,
)
    requires
        ordered_field::<R>(),
        lengths::<R>(),
        placed(system.linear),
    ensures
        ({
            let attempt = system.concluded(lambda, solved);
            let cols = system.linear.cols as int;
            let reference = hypot_sum(system.linear.gradient, cols);
            &&& attempt.diagnostics.original_absolute_residual matches Some(residual)
            &&& residual.times_spec(residual) == sum(
                cols,
                |c: int|
                    slope_after(system.linear, system.scales, lambda, attempt.step, c).times_spec(
                        slope_after(system.linear, system.scales, lambda, attempt.step, c),
                    ),
            )
            &&& attempt.diagnostics.original_relative_residual matches Some(share)
            &&& reference != R::zero_spec() ==> share.times_spec(reference) == residual
            &&& reference == R::zero_spec() ==> share == residual
        }),
{
    let attempt = system.concluded(lambda, solved);
    let linear = system.linear;
    let cols = linear.cols as int;
    let step = attempt.step;
    let values = linear.normal_residual(step, system.scales, lambda);
    let residual = hypot_sum(values, cols);
    let reference = hypot_sum(linear.gradient, cols);
    lemma_length(values, cols);
    let f = |c: int| values[c].times_spec(values[c]);
    let g = |c: int|
        slope_after(linear, system.scales, lambda, step, c).times_spec(
            slope_after(linear, system.scales, lambda, step, c),
        );
    assert forall|c: int| 0 <= c < cols implies #[trigger] f(c) == g(c) by {
        lemma_residual_is_slope(linear, step, system.scales, lambda, c);
    }
    lemma_sum_same(cols, f, g);
    assert(ordered_at(reference, R::zero_spec(), reference));
    assert(ordered_at(residual, reference, reference));
}

} // verus!
