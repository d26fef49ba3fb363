//! What direct solves solve, and what covariances are: products with the inverse.
use crate::algebra::{
    lemma_cancel, lemma_order, lemma_plus, lemma_positive_times_order, lemma_sum_same,
    lemma_sum_swap, lemma_sum_times, lemma_sum_window, lemma_times, lemma_times_zero,
    ordered_field, ring, sum,
};
use crate::backend::LeastSquaresBackend;
use crate::covariance::{column_dot, columns_spec, selected_spec, units};
use crate::error::SolverError;
use crate::kernels::{lower_triangle, Triangular};
use crate::key::{BlockId, RawKey};
use crate::layout::Block;
use crate::normal::{pivots_spec, DenseNormalCholesky};
use crate::scalar::Real;
use vstd::prelude::*;

verus! {

/// An entry of a lower triangular matrix that is given by its columns from the diagonal on.
pub open spec fn low<R: Real>(factor: Seq<Seq<R>>, row: int, col: int) -> R {
    if 0 <= col <= row {
        factor[col][row - col]
    } else {
        R::zero_spec()
    }
}

/// An entry of a symmetric matrix that is given by its columns from the diagonal on.
pub open spec fn symmetric<R: Real>(lower: Seq<Seq<R>>, row: int, col: int) -> R {
    if col <= row {
        lower[col][row - col]
    } else {
        lower[row][col - row]
    }
}

/// The product of a row of a matrix and a list of numbers.
pub open spec fn row_times<R: Real>(
    n: int,
    matrix: spec_fn(int, int) -> R,
    row: int,
    x: spec_fn(int) -> R,
) -> R {
    sum(n, |j: int| matrix(row, j).times_spec(x(j)))
}

proof fn lemma_row_same<R: Real>(
    n: int,
    a: spec_fn(int, int) -> R,
    i: int,
    x: spec_fn(int) -> R,
    b: spec_fn(int, int) -> R,
    k: int,
    y: spec_fn(int) -> R,
)
    requires
        forall|j: int| 0 <= j < n ==> #[trigger] a(i, j) == b(k, j),
        forall|j: int| 0 <= j < n ==> #[trigger] x(j) == y(j),
    ensures
        row_times(n, a, i, x) == row_times(n, b, k, y),
{
    let f = |j: int| a(i, j).times_spec(x(j));
    let g = |j: int| b(k, j).times_spec(y(j));
    assert forall|j: int| 0 <= j < n implies #[trigger] f(j) == g(j) by {
        assert(a(i, j) == b(k, j));
        assert(x(j) == y(j));
    }
    lemma_sum_same(n, f, g);
}

/// Every place on the diagonal of a triangular matrix is positive.
pub open spec fn has_pivots<R: Real>(width: int, factor: Seq<Seq<R>>) -> bool {
    forall|k: int| 0 <= k < width ==> R::zero_spec().below_spec(#[trigger] low(factor, k, k))
}

/// A factor is the Cholesky factor of a matrix.
pub open spec fn factors<R: Real>(width: int, lower: Seq<Seq<R>>, factor: Seq<R>) -> bool {
    &&& has_pivots(width, lower_triangle(width as nat, factor))
    &&& forall|row: int, col: int|
        0 <= row < width && 0 <= col < width ==> #[trigger] symmetric(lower, row, col) == sum(
            width,
            |k: int|
                low(lower_triangle(width as nat, factor), row, k).times_spec(
                    low(lower_triangle(width as nat, factor), col, k),
                ),
        )
}

/// Columns solve a lower triangular system.
pub open spec fn solves_lower<R: Real>(
    width: int,
    factor: Seq<Seq<R>>,
    rhs: Seq<R>,
    cols: int,
    x: Seq<R>,
) -> bool {
    has_pivots(width, factor) && rhs.len() == width * cols ==> x.len() == width * cols
        && forall|row: int, col: int|
        0 <= row < width && 0 <= col < cols ==> #[trigger] rhs[col * width + row] == row_times(
            width,
            |r: int, k: int| low(factor, r, k),
            row,
            |k: int| x[col * width + k],
        )
}

/// Columns solve the transposed system.
pub open spec fn solves_upper<R: Real>(
    width: int,
    factor: Seq<Seq<R>>,
    rhs: Seq<R>,
    cols: int,
    x: Seq<R>,
) -> bool {
    has_pivots(width, factor) && rhs.len() == width * cols ==> x.len() == width * cols
        && forall|row: int, col: int|
        0 <= row < width && 0 <= col < cols ==> #[trigger] rhs[col * width + row] == row_times(
            width,
            |r: int, k: int| low(factor, k, r),
            row,
            |k: int| x[col * width + k],
        )
}

/// A kernel without rounding: its factors and solutions are what they should be.
pub open spec fn is_exact<R: Real, K: Triangular<R>>(kernel: K) -> bool {
    &&& forall|width: usize, lower: Seq<Seq<R>>|
        (#[trigger] kernel.cholesky_spec(width, lower)) matches Some(factor) ==> factors(
            width as int,
            lower,
            factor,
        )
    &&& forall|width: usize, factor: Seq<Seq<R>>, rhs: Seq<R>, cols: usize|
        solves_lower(
            width as int,
            factor,
            rhs,
            cols as int,
            #[trigger] kernel.lower_spec(width, factor, rhs, cols),
        )
    &&& forall|width: usize, factor: Seq<Seq<R>>, rhs: Seq<R>, cols: usize|
        solves_upper(
            width as int,
            factor,
            rhs,
            cols as int,
            #[trigger] kernel.upper_spec(width, factor, rhs, cols),
        )
}

/// The product of a factor and its transpose takes numbers where the two solves take them from.
pub proof fn lemma_product_of_factors<R: Real>(
    n: int,
    a: spec_fn(int, int) -> R,
    l: spec_fn(int, int) -> R,
    x: spec_fn(int) -> R,
    row: int,
)
    requires
        ring::<R>(),
        forall|j: int|
            0 <= j < n ==> #[trigger] a(row, j) == sum(n, |k: int| l(row, k).times_spec(l(j, k))),
    ensures
        row_times(n, a, row, x) == row_times(
            n,
            l,
            row,
            |k: int| row_times(n, |i: int, j: int| l(j, i), k, x),
        ),
{
    let grid = |j: int, k: int| l(row, k).times_spec(l(j, k).times_spec(x(j)));
    let f = |j: int| a(row, j).times_spec(x(j));
    let by_j = |j: int| sum(n, |k: int| grid(j, k));
    assert forall|j: int| 0 <= j < n implies #[trigger] f(j) == by_j(j) by {
        let p = |k: int| l(row, k).times_spec(l(j, k));
        let h = |k: int| grid(j, k);
        assert forall|k: int| 0 <= k < n implies #[trigger] h(k) == x(j).times_spec(p(k)) by {
            lemma_times(l(row, k), l(j, k), x(j));
            lemma_times(x(j), p(k), x(j));
        }
        lemma_sum_times(n, x(j), p, h);
        lemma_times(x(j), sum(n, p), x(j));
        assert(a(row, j) == sum(n, p));
    }
    lemma_sum_same(n, f, by_j);
    lemma_sum_swap(n, n, grid);
    let turned = |i: int, j: int| l(j, i);
    let inner = |k: int| row_times(n, turned, k, x);
    let by_k = |k: int| sum(n, |j: int| grid(j, k));
    let g = |k: int| l(row, k).times_spec(inner(k));
    assert forall|k: int| 0 <= k < n implies #[trigger] g(k) == by_k(k) by {
        let p = |j: int| turned(k, j).times_spec(x(j));
        let h = |j: int| grid(j, k);
        lemma_sum_times(n, l(row, k), p, h);
    }
    lemma_sum_same(n, g, by_k);
}

/// Two triangular solves solve the equations that the factor comes from.
pub proof fn lemma_cholesky_solves<R: Real, K: Triangular<R>>(
    kernel: K,
    width: usize,
    lower: Seq<Seq<R>>,
    factor: Seq<R>,
    rhs: Seq<R>,
    row: int,
)
    requires
        ring::<R>(),
        is_exact::<R, K>(kernel),
        factors(width as int, lower, factor),
        rhs.len() == width,
        0 <= row < width,
    ensures
        ({
            let triangle = lower_triangle(width as nat, factor);
            let x = kernel.upper_spec(width, triangle, kernel.lower_spec(width, triangle, rhs, 1), 1);
            &&& x.len() == width
            &&& rhs[row] == row_times(
                width as int,
                |i: int, j: int| symmetric(lower, i, j),
                row,
                |j: int| x[j],
            )
        }),
{
    let n = width as int;
    let triangle = lower_triangle(width as nat, factor);
    let half = kernel.lower_spec(width, triangle, rhs, 1);
    let x = kernel.upper_spec(width, triangle, half, 1);
    let a = |i: int, j: int| symmetric(lower, i, j);
    let l = |i: int, k: int| low(triangle, i, k);
    let value = |j: int| x[j];
    assert(solves_lower(n, triangle, rhs, 1, half));
    assert(solves_upper(n, triangle, half, 1, x));
    assert(n * 1 == n);
    assert forall|j: int| 0 <= j < n implies #[trigger] a(row, j) == sum(
        n,
        |k: int| l(row, k).times_spec(l(j, k)),
    ) by {
        assert(symmetric(lower, row, j) == a(row, j));
        lemma_sum_same(
            n,
            |k: int| l(row, k).times_spec(l(j, k)),
            |k: int|
                low(lower_triangle(n as nat, factor), row, k).times_spec(
                    low(lower_triangle(n as nat, factor), j, k),
                ),
        );
    }
    lemma_product_of_factors(n, a, l, value, row);
    let turned = |i: int, j: int| l(j, i);
    let inner = |k: int| row_times(n, turned, k, value);
    let down = |k: int| half[0 * n + k];
    assert forall|k: int| 0 <= k < n implies #[trigger] inner(k) == down(k) by {
        assert(half[0 * n + k] == row_times(
            n,
            |r: int, k: int| low(triangle, k, r),
            k,
            |k: int| x[0 * n + k],
        ));
        lemma_row_same(
            n,
            turned,
            k,
            value,
            |r: int, k: int| low(triangle, k, r),
            k,
            |k: int| x[0 * n + k],
        );
    }
    assert(rhs[0 * n + row] == row_times(
        n,
        |r: int, k: int| low(triangle, r, k),
        row,
        |k: int| half[0 * n + k],
    ));
    lemma_row_same(
        n,
        l,
        row,
        inner,
        |r: int, k: int| low(triangle, r, k),
        row,
        |k: int| half[0 * n + k],
    );
}

/// The step of assembled equations solves them: the matrix that their lower triangle stands for
/// takes it to the right-hand side.
pub proof fn lemma_normal_step_solves<R: Real, K: Triangular<R>>(
    before: DenseNormalCholesky<R, K>,
    after: DenseNormalCholesky<R, K>,
    step: Seq<R>,
    row: int,
)
    requires
        ring::<R>(),
        is_exact::<R, K>(before.kernel),
        before.wf(),
        !before.factorized,
        <DenseNormalCholesky<R, K> as LeastSquaresBackend>::answers(before, after, Ok(step)),
        0 <= row < before.dimension,
    ensures
        step.len() == before.dimension,
        before.rhs@[row] == sum(
            before.dimension as int,
            |j: int|
                (if j <= row {
                    before.normal@[j * before.dimension + row]
                } else {
                    before.normal@[row * before.dimension + j]
                }).times_spec(step[j]),
        ),
{
    let n = before.dimension as int;
    let lower = lower_triangle(n as nat, before.normal@);
    let factor = before.factor()->Ok_0;
    assert(before.kernel.cholesky_spec(before.dimension, lower) == Some(factor));
    lemma_cholesky_solves(before.kernel, before.dimension, lower, factor, before.rhs@, row);
    let g = |j: int|
        (if j <= row {
            before.normal@[j * before.dimension + row]
        } else {
            before.normal@[row * before.dimension + j]
        }).times_spec(step[j]);
    let a = |i: int, j: int| symmetric(lower, i, j);
    let x = |j: int| step[j];
    let h = |j: int| a(row, j).times_spec(x(j));
    assert(before.rhs@[row] == row_times(n, a, row, x));
    assert forall|j: int| 0 <= j < n implies #[trigger] h(j) == g(j) by {}
    lemma_sum_same(n, h, g);
}

/// A triangular system has one solution.
proof fn lemma_unique<R: Real>(
    n: int,
    l: spec_fn(int, int) -> R,
    x: spec_fn(int) -> R,
    y: spec_fn(int) -> R,
    k: int,
)
    requires
        ordered_field::<R>(),
        forall|i: int, j: int| 0 <= i < j < n ==> #[trigger] l(i, j) == R::zero_spec(),
        forall|i: int| 0 <= i < n ==> R::zero_spec().below_spec(#[trigger] l(i, i)),
        forall|i: int|
            0 <= i < n ==> #[trigger] row_times(n, l, i, x) == row_times(n, l, i, y),
        0 <= k < n,
    ensures
        x(k) == y(k),
    decreases k,
{
    let zero = R::zero_spec();
    let f = |j: int| l(k, j).times_spec(x(j));
    let g = |j: int| l(k, j).times_spec(y(j));
    assert(row_times(n, l, k, x) == row_times(n, l, k, y));
    assert forall|j: int| 0 <= j < n && !(0 <= j < 0 + (k + 1)) implies #[trigger] f(j) == zero by {
        assert(l(k, j) == zero);
        lemma_times_zero(x(j));
    }
    assert forall|j: int| 0 <= j < n && !(0 <= j < 0 + (k + 1)) implies #[trigger] g(j) == zero by {
        assert(l(k, j) == zero);
        lemma_times_zero(y(j));
    }
    lemma_sum_window(n, 0, k + 1, f, f);
    lemma_sum_window(n, 0, k + 1, g, g);
    assert forall|j: int| 0 <= j < k implies #[trigger] f(j) == g(j) by {
        lemma_unique(n, l, x, y, j);
    }
    lemma_sum_same(k, f, g);
    assert(sum(k + 1, f) == sum(k, f).plus_spec(f(k)));
    assert(sum(k + 1, g) == sum(k, g).plus_spec(g(k)));
    lemma_cancel(sum(k, f), f(k), g(k));
    lemma_times(l(k, k), x(k), x(k));
    lemma_times(l(k, k), y(k), y(k));
    lemma_positive_times_order(x(k), y(k), l(k, k));
}

/// So has a transposed one.
proof fn lemma_unique_transposed<R: Real>(
    n: int,
    l: spec_fn(int, int) -> R,
    x: spec_fn(int) -> R,
    y: spec_fn(int) -> R,
    k: int,
)
    requires
        ordered_field::<R>(),
        forall|i: int, j: int| 0 <= j < i < n ==> #[trigger] l(i, j) == R::zero_spec(),
        forall|i: int| 0 <= i < n ==> R::zero_spec().below_spec(#[trigger] l(i, i)),
        forall|i: int|
            0 <= i < n ==> #[trigger] row_times(n, l, i, x) == row_times(n, l, i, y),
        0 <= k < n,
    ensures
        x(k) == y(k),
    decreases n - k,
{
    let zero = R::zero_spec();
    let f = |j: int| l(k, j).times_spec(x(j));
    let g = |j: int| l(k, j).times_spec(y(j));
    let difference = |j: int| f(j).plus_spec(g(j).negate_spec());
    assert(row_times(n, l, k, x) == row_times(n, l, k, y));
    let opposite = |j: int| g(j).negate_spec();
    crate::algebra::lemma_sum_negate(n, g, opposite);
    crate::algebra::lemma_sum_plus(n, f, opposite, difference);
    lemma_plus(sum(n, f), zero, zero);
    let one = |j: int| difference(k);
    assert forall|j: int| 0 <= j < n && !(k <= j < k + 1) implies #[trigger] difference(j)
        == zero by {
        if j < k {
            assert(l(k, j) == zero);
            lemma_times_zero(x(j));
            lemma_times_zero(y(j));
            lemma_plus(zero, zero, zero);
        } else {
            lemma_unique_transposed(n, l, x, y, j);
            lemma_plus(f(j), zero, zero);
        }
    }
    lemma_sum_window(n, k, 1, difference, one);
    assert(sum(1, one) == sum(0, one).plus_spec(one(0)));
    lemma_plus(one(0), zero, zero);
    lemma_plus(f(k), g(k).negate_spec(), g(k));
    lemma_plus(g(k), zero, zero);
    lemma_plus(f(k), zero, zero);
    lemma_times(l(k, k), x(k), x(k));
    lemma_times(l(k, k), y(k), y(k));
    lemma_positive_times_order(x(k), y(k), l(k, k));
}

/// Equations whose matrix has a Cholesky factor have one solution.
pub proof fn lemma_factored_unique<R: Real>(
    width: nat,
    lower: Seq<Seq<R>>,
    factor: Seq<R>,
    x: spec_fn(int) -> R,
    y: spec_fn(int) -> R,
    k: int,
)
    requires
        ordered_field::<R>(),
        factors(width as int, lower, factor),
        forall|i: int|
            0 <= i < width ==> #[trigger] row_times(width as int, full(lower), i, x) == row_times(
                width as int,
                full(lower),
                i,
                y,
            ),
        0 <= k < width,
    ensures
        x(k) == y(k),
{
    let n = width as int;
    let triangle = lower_triangle(width, factor);
    let a = full(lower);
    let l = |i: int, k: int| low(triangle, i, k);
    let turned = |i: int, j: int| l(j, i);
    let u = |k: int| row_times(n, turned, k, x);
    let v = |k: int| row_times(n, turned, k, y);
    assert forall|i: int| 0 <= i < n implies R::zero_spec().below_spec(#[trigger] l(i, i)) by {
        assert(R::zero_spec().below_spec(low(triangle, i, i)));
    }
    assert forall|i: int| 0 <= i < n implies R::zero_spec().below_spec(#[trigger] turned(i, i)) by {
        assert(R::zero_spec().below_spec(l(i, i)));
    }
    assert forall|i: int| 0 <= i < n implies #[trigger] row_times(n, l, i, u) == row_times(
        n,
        l,
        i,
        v,
    ) by {
        assert forall|c: int| 0 <= c < n implies #[trigger] a(i, c) == sum(
            n,
            |k: int| l(i, k).times_spec(l(c, k)),
        ) by {
            assert(symmetric(lower, i, c) == a(i, c));
            lemma_sum_same(
                n,
                |k: int| l(i, k).times_spec(l(c, k)),
                |k: int|
                    low(lower_triangle(n as nat, factor), i, k).times_spec(
                        low(lower_triangle(n as nat, factor), c, k),
                    ),
            );
        }
        lemma_product_of_factors(n, a, l, x, i);
        lemma_product_of_factors(n, a, l, y, i);
        lemma_row_same(n, l, i, u, l, i, |k: int| row_times(n, |i: int, j: int| l(j, i), k, x));
        lemma_row_same(n, l, i, v, l, i, |k: int| row_times(n, |i: int, j: int| l(j, i), k, y));
        assert(row_times(n, full(lower), i, x) == row_times(n, full(lower), i, y));
    }
    assert forall|i: int| 0 <= i < n implies #[trigger] row_times(n, turned, i, x) == row_times(
        n,
        turned,
        i,
        y,
    ) by {
        lemma_unique(n, l, u, v, i);
        assert(u(i) == v(i));
    }
    lemma_unique_transposed(n, turned, x, y, k);
}

proof fn lemma_column_dot<R: Real>(values: Seq<R>, dimension: nat, left: int, right: int, n: int)
    ensures
        column_dot(values, dimension, left, right, n) == sum(
            n,
            |k: int| values[left * dimension + k].times_spec(values[right * dimension + k]),
        ),
    decreases n,
{
    if n > 0 {
        lemma_column_dot(values, dimension, left, right, n - 1);
        assert(left * dimension + n - 1 == left * dimension + (n - 1));
        assert(right * dimension + n - 1 == right * dimension + (n - 1));
    }
}

proof fn lemma_unit<R: Real>(dimension: nat, columns: Seq<usize>, c: int, row: int)
    requires
        0 <= c < columns.len(),
        0 <= row < dimension,
    ensures
        units::<R>(dimension, columns)[c * dimension + row] == if row == columns[c] {
            R::one_spec()
        } else {
            R::zero_spec()
        },
{
    let n = dimension as int;
    assert(0 <= c * n + row < n * columns.len()) by (nonlinear_arith)
        requires
            0 <= c < columns.len(),
            0 <= row < n,
    ;
    vstd::arithmetic::div_mod::lemma_fundamental_div_mod_converse(c * n + row, n, c, row);
}

/// Two numbers that a transpose and its factor relate.
proof fn lemma_adjoint<R: Real>(
    n: int,
    l: spec_fn(int, int) -> R,
    x: spec_fn(int) -> R,
    w: spec_fn(int) -> R,
)
    requires
        ring::<R>(),
    ensures
        sum(n, |r: int| row_times(n, l, r, x).times_spec(w(r))) == sum(
            n,
            |k: int| x(k).times_spec(row_times(n, |i: int, j: int| l(j, i), k, w)),
        ),
{
    let turned = |i: int, j: int| l(j, i);
    let grid = |r: int, k: int| x(k).times_spec(l(r, k).times_spec(w(r)));
    let f = |r: int| row_times(n, l, r, x).times_spec(w(r));
    let by_r = |r: int| sum(n, |k: int| grid(r, k));
    assert forall|r: int| 0 <= r < n implies #[trigger] f(r) == by_r(r) by {
        let p = |k: int| l(r, k).times_spec(x(k));
        let h = |k: int| grid(r, k);
        assert forall|k: int| 0 <= k < n implies #[trigger] h(k) == w(r).times_spec(p(k)) by {
            lemma_times(x(k), l(r, k), w(r));
            lemma_times(w(r), l(r, k), x(k));
            lemma_times(l(r, k), x(k), w(r));
            lemma_times(p(k), w(r), w(r));
        }
        lemma_sum_times(n, w(r), p, h);
        lemma_times(w(r), sum(n, p), w(r));
    }
    lemma_sum_same(n, f, by_r);
    lemma_sum_swap(n, n, grid);
    let g = |k: int| x(k).times_spec(row_times(n, turned, k, w));
    let by_k = |k: int| sum(n, |r: int| grid(r, k));
    assert forall|k: int| 0 <= k < n implies #[trigger] g(k) == by_k(k) by {
        let p = |r: int| turned(k, r).times_spec(w(r));
        let h = |r: int| grid(r, k);
        lemma_sum_times(n, x(k), p, h);
    }
    lemma_sum_same(n, g, by_k);
}

/// A symmetric matrix that is given by its columns from the diagonal on.
pub open spec fn full<R: Real>(lower: Seq<Seq<R>>) -> spec_fn(int, int) -> R {
    |i: int, j: int| symmetric(lower, i, j)
}

/// A column of the inverse of a matrix: the matrix takes it to a unit vector.
pub open spec fn inverse_column<R: Real>(
    n: int,
    lower: Seq<Seq<R>>,
    w: spec_fn(int) -> R,
    col: int,
) -> bool {
    forall|row: int|
        0 <= row < n ==> #[trigger] row_times(n, full(lower), row, w) == if row == col {
            R::one_spec()
        } else {
            R::zero_spec()
        }
}

/// A covariance is the part of the inverse of the information that belongs to the selected
/// coordinates, in the order in which they were selected.
pub proof fn lemma_covariance_is_inverse<R: Real, K: Triangular<R>>(
    kernel: K,
    lower: Seq<Seq<R>>,
    factor: Seq<R>,
    dimension: nat,
    columns: Seq<usize>,
    i: int,
    j: int,
    w: spec_fn(int) -> R,
)
    requires
        ordered_field::<R>(),
        is_exact::<R, K>(kernel),
        dimension <= usize::MAX,
        columns.len() <= usize::MAX,
        factors(dimension as int, lower, factor),
        forall|c: int| 0 <= c < columns.len() ==> #[trigger] columns[c] < dimension,
        selected_spec(Ok(factor), kernel, dimension, columns) is Ok,
        0 <= i < columns.len(),
        0 <= j < columns.len(),
        inverse_column(dimension as int, lower, w, columns[j] as int),
    ensures
        selected_spec(Ok(factor), kernel, dimension, columns)->Ok_0[j * columns.len() + i] == w(
            columns[i] as int,
        ),
{
    let n = dimension as int;
    let count = columns.len() as int;
    let zero = R::zero_spec();
    let triangle = lower_triangle(dimension, factor);
    let b = units::<R>(dimension, columns);
    let half = kernel.lower_spec(dimension as usize, triangle, b, columns.len() as usize);
    assert(solves_lower(n, triangle, b, count, half));
    let a = |r: int, c: int| symmetric(lower, r, c);
    let l = |r: int, k: int| low(triangle, r, k);
    let turned = |r: int, k: int| l(k, r);
    let hi = |k: int| half[i * n + k];
    let hj = |k: int| half[j * n + k];
    let y = |k: int| row_times(n, turned, k, w);
    assert forall|r: int| 0 <= r < n implies #[trigger] row_times(n, l, r, hi) == if r
        == columns[i] {
        R::one_spec()
    } else {
        zero
    } by {
        lemma_unit::<R>(dimension, columns, i, r);
        assert(b[i * n + r] == row_times(
            n,
            |r: int, k: int| low(triangle, r, k),
            r,
            |k: int| half[i * n + k],
        ));
        lemma_row_same(
            n,
            l,
            r,
            hi,
            |r: int, k: int| low(triangle, r, k),
            r,
            |k: int| half[i * n + k],
        );
    }
    assert forall|r: int| 0 <= r < n implies #[trigger] row_times(n, l, r, y) == row_times(
        n,
        l,
        r,
        hj,
    ) by {
        lemma_unit::<R>(dimension, columns, j, r);
        assert(b[j * n + r] == row_times(
            n,
            |r: int, k: int| low(triangle, r, k),
            r,
            |k: int| half[j * n + k],
        ));
        lemma_row_same(
            n,
            l,
            r,
            hj,
            |r: int, k: int| low(triangle, r, k),
            r,
            |k: int| half[j * n + k],
        );
        assert forall|c: int| 0 <= c < n implies #[trigger] a(r, c) == sum(
            n,
            |k: int| l(r, k).times_spec(l(c, k)),
        ) by {
            assert(symmetric(lower, r, c) == a(r, c));
            lemma_sum_same(
                n,
                |k: int| l(r, k).times_spec(l(c, k)),
                |k: int|
                    low(lower_triangle(n as nat, factor), r, k).times_spec(
                        low(lower_triangle(n as nat, factor), c, k),
                    ),
            );
        }
        lemma_product_of_factors(n, a, l, w, r);
        lemma_row_same(n, a, r, w, full(lower), r, w);
        lemma_row_same(n, l, r, y, l, r, |k: int| row_times(n, |i: int, j: int| l(j, i), k, w));
    }
    assert forall|r: int| 0 <= r < n implies zero.below_spec(#[trigger] l(r, r)) by {
        assert(zero.below_spec(low(triangle, r, r)));
    }
    assert forall|k: int| 0 <= k < n implies #[trigger] y(k) == hj(k) by {
        lemma_unique(n, l, y, hj, k);
    }
    lemma_adjoint(n, l, hi, w);
    let left = |r: int| row_times(n, l, r, hi).times_spec(w(r));
    let one = |k: int| w(columns[i] as int);
    assert(columns[i] < dimension);
    assert forall|r: int|
        0 <= r < n && !(columns[i] as int <= r < columns[i] as int + 1) implies #[trigger] left(r)
        == zero by {
        assert(row_times(n, l, r, hi) == zero);
        lemma_times_zero(w(r));
    }
    assert forall|k: int| 0 <= k < 1 implies #[trigger] one(k) == left(columns[i] + k) by {
        assert(row_times(n, l, columns[i] as int, hi) == R::one_spec());
        lemma_times(w(columns[i] as int), R::one_spec(), R::one_spec());
    }
    lemma_sum_window(n, columns[i] as int, 1, left, one);
    assert(sum(1, one) == sum(0, one).plus_spec(one(0)));
    lemma_plus(one(0), one(0), one(0));
    let right = |k: int| hi(k).times_spec(row_times(n, |i: int, j: int| l(j, i), k, w));
    let dots = |k: int| half[i * dimension + k].times_spec(half[j * dimension + k]);
    assert forall|k: int| 0 <= k < n implies #[trigger] right(k) == dots(k) by {
        assert(y(k) == hj(k));
    }
    lemma_sum_same(n, right, dots);
    lemma_column_dot(half, dimension, i, j, n);
    assert(0 <= j * count + i < count * count) by (nonlinear_arith)
        requires
            0 <= i < count,
            0 <= j < count,
    ;
    vstd::arithmetic::div_mod::lemma_fundamental_div_mod_converse(j * count + i, count, j, i);
}

/// A covariance is symmetric.
pub proof fn lemma_covariance_is_symmetric<R: Real, K: Triangular<R>>(
    kernel: K,
    information: Result<Seq<R>, SolverError>,
    dimension: nat,
    columns: Seq<usize>,
    i: int,
    j: int,
)
    requires
        ring::<R>(),
        selected_spec(information, kernel, dimension, columns) is Ok,
        0 <= i < columns.len(),
        0 <= j < columns.len(),
    ensures
        ({
            let result = selected_spec(information, kernel, dimension, columns)->Ok_0;
            result[j * columns.len() + i] == result[i * columns.len() + j]
        }),
{
    let count = columns.len() as int;
    let half = kernel.lower_spec(
        dimension as usize,
        lower_triangle(dimension, information->Ok_0),
        units(dimension, columns),
        columns.len() as usize,
    );
    lemma_column_dot(half, dimension, i, j, dimension as int);
    lemma_column_dot(half, dimension, j, i, dimension as int);
    let f = |k: int| half[i * dimension + k].times_spec(half[j * dimension + k]);
    let g = |k: int| half[j * dimension + k].times_spec(half[i * dimension + k]);
    assert forall|k: int| 0 <= k < dimension implies #[trigger] f(k) == g(k) by {
        lemma_times(half[i * dimension + k], half[j * dimension + k], R::zero_spec());
    }
    lemma_sum_same(dimension as int, f, g);
    assert(0 <= j * count + i < count * count && 0 <= i * count + j < count * count)
        by (nonlinear_arith)
        requires
            0 <= i < count,
            0 <= j < count,
    ;
    vstd::arithmetic::div_mod::lemma_fundamental_div_mod_converse(j * count + i, count, j, i);
    vstd::arithmetic::div_mod::lemma_fundamental_div_mod_converse(i * count + j, count, i, j);
}

/// Information is usable only where every pivot and the entry that it came from are positive,
/// and the square of the pivot exceeds the share of the entry that is asked for.
pub proof fn lemma_pivots<R: Real>(
    factor: Seq<R>,
    diagonal: Seq<R>,
    tolerance: R,
    n: int,
    i: int,
)
    requires
        ordered_field::<R>(),
        diagonal[i].sqrt_spec().times_spec(diagonal[i].sqrt_spec()) == diagonal[i],
        R::zero_spec().below_spec(diagonal[i]) ==> R::zero_spec().below_spec(
            diagonal[i].sqrt_spec(),
        ),
        0 <= i < n,
        pivots_spec(factor, diagonal, tolerance, n) is Ok,
    ensures
        ({
            let pivot = factor[i * diagonal.len() + i];
            &&& pivot.finite_spec()
            &&& diagonal[i].finite_spec()
            &&& R::zero_spec().below_spec(pivot)
            &&& R::zero_spec().below_spec(diagonal[i])
            &&& tolerance.times_spec(diagonal[i]).below_spec(pivot.times_spec(pivot))
        }),
    decreases n,
{
    if i < n - 1 {
        lemma_pivots(factor, diagonal, tolerance, n - 1, i);
    } else {
        let pivot = factor[i * diagonal.len() + i];
        let zero = R::zero_spec();
        let root = diagonal[i].sqrt_spec();
        let ratio = pivot.over_spec(root);
        lemma_order(zero, pivot, pivot);
        lemma_order(zero, diagonal[i], pivot);
        lemma_order(zero, root, root);
        lemma_order(tolerance, ratio.times_spec(ratio), root);
        lemma_order(ratio.times_spec(ratio), tolerance, root);
        crate::algebra::lemma_quotient_order(pivot, root, root);
        lemma_positive_times_order(tolerance, ratio.times_spec(ratio), diagonal[i]);
        lemma_times(ratio, ratio, root.times_spec(root));
        lemma_times(ratio, root, root);
        lemma_times(root, ratio, root);
        lemma_times(ratio, pivot, root);
        lemma_times(pivot, ratio, root);
        lemma_times(ratio, ratio.times_spec(root), root);
        lemma_times(pivot, root, ratio);
    }
}

/// The selected coordinates are those of the listed variables, one variable after the other, each
/// with all its coordinates in turn.
pub proof fn lemma_selected_columns(
    blocks: Seq<Block>,
    index: Map<RawKey, usize>,
    selection: Seq<BlockId>,
    n: int,
    k: int,
    c: int,
)
    requires
        0 <= k < n <= selection.len(),
        columns_spec(blocks, index, selection, n) is Ok,
        0 <= c < blocks[index[selection[k].raw] as int].width,
        forall|b: int|
            0 <= b < blocks.len() ==> (#[trigger] blocks[b]).offset + blocks[b].width <= usize::MAX,
        forall|i: int|
            0 <= i < selection.len() && index.contains_key((#[trigger] selection[i]).raw)
                ==> index[selection[i].raw] < blocks.len(),
    ensures
        ({
            let columns = columns_spec(blocks, index, selection, n)->Ok_0;
            let before = columns_spec(blocks, index, selection, k)->Ok_0;
            let block = blocks[index[selection[k].raw] as int];
            &&& columns_spec(blocks, index, selection, k) is Ok
            &&& index.contains_key(selection[k].raw)
            &&& forall|i: int| 0 <= i < k ==> #[trigger] selection[i] != selection[k]
            &&& before.len() + c < columns.len()
            &&& columns[before.len() + c] == block.offset + c
            &&& n == k + 1 ==> columns.len() == before.len() + block.width
        }),
    decreases n,
{
    let before = columns_spec(blocks, index, selection, n - 1)->Ok_0;
    if k < n - 1 {
        lemma_selected_columns(blocks, index, selection, n - 1, k, c);
    } else {
        assert forall|i: int| 0 <= i < k implies #[trigger] selection[i] != selection[k] by {
            assert(selection.take(k)[i] == selection[i]);
        }
    }
}

} // verus!
