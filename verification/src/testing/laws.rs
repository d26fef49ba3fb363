//! What it means that a check finds no fault.
use crate::algebra::{
    lemma_negate, lemma_negate_order, lemma_order, lemma_plus, lemma_sum_same, lemma_times,
    lemma_times_order, lemma_times_zero, ordered_at, ordered_field, ring, sum,
};
use crate::key::BlockId;
use crate::scalar::Real;
use crate::testing::factors::{
    case_spec, cases_spec, derivative_spec, dual_fault_spec, dual_row_spec, dual_scope_spec,
    first_is, objective_spec, part_spec, parts_spec, position, residual_squares_spec, rows_spec,
    same_column_spec, same_row_spec, same_scope_spec, same_variable_spec, scope_slope_spec,
    seed_spec, seeds_spec, selection_fault_spec, singles_spec, slope_spec, squares_spec,
    variable_seeds_spec, CaptureView, Evaluation, FactorProperty, RecordedView, ScopeView,
    Selection,
};
use crate::testing::{earliest, fails_first, lemma_earliest, lemma_no_fault, TestScalar, Tolerance};
use vstd::prelude::*;

verus! {

/// A least number with a property.
proof fn lemma_least<F>(faults: Seq<Option<F>>, j: int)
    requires
        0 <= j < faults.len(),
        faults[j] is Some,
    ensures
        exists|i: int| fails_first(faults, i),
    decreases j,
{
    if exists|k: int| 0 <= k < j && (#[trigger] faults[k]) is Some {
        let k = choose|k: int| 0 <= k < j && (#[trigger] faults[k]) is Some;
        lemma_least(faults, k);
    } else {
        assert(fails_first(faults, j));
    }
}

/// Checks in order find no fault exactly if each of them finds none.
pub proof fn lemma_none_fails<F>(faults: Seq<Option<F>>)
    ensures
        earliest(faults) is None <==> forall|j: int|
            0 <= j < faults.len() ==> (#[trigger] faults[j]) is None,
{
    if exists|j: int| 0 <= j < faults.len() && (#[trigger] faults[j]) is Some {
        let j = choose|j: int| 0 <= j < faults.len() && (#[trigger] faults[j]) is Some;
        lemma_least(faults, j);
        let i = choose|i: int| fails_first(faults, i);
        lemma_earliest(faults, i);
    } else {
        lemma_no_fault(faults);
    }
}

/// Comparison is symmetric, and a finite coefficient agrees with itself; a nonfinite one agrees
/// with nothing. Coefficients that agree do so under any larger tolerances. Stated over an
/// ordered field.
pub proof fn lemma_close<W: Real>(t: Tolerance<W>, u: Tolerance<W>, a: W, b: W)
    requires
        ordered_field::<W>(),
        W::zero_spec().at_most_spec(t.absolute),
        W::zero_spec().at_most_spec(t.relative),
    ensures
        t.close_spec(a, b) <==> t.close_spec(b, a),
        t.close_spec(a, a) <==> a.finite_spec(),
        t.close_spec(a, b) ==> a.finite_spec() && b.finite_spec(),
        t.close_spec(a, b) && t.absolute.at_most_spec(u.absolute) && t.relative.at_most_spec(
            u.relative,
        ) ==> u.close_spec(a, b),
        t.relative == W::zero_spec() ==> (t.close_spec(a, b) <==> a.finite_spec()
            && b.finite_spec() && a.minus_spec(b).at_most_spec(t.absolute) && b.minus_spec(
            a,
        ).at_most_spec(t.absolute)),
{
    let zero = W::zero_spec();
    let (p, q) = (a.minus_spec(b), b.minus_spec(a));
    lemma_plus(a, b, b);
    lemma_plus(b, a, a);
    lemma_negate(a, b.negate_spec());
    lemma_negate(b, b);
    lemma_plus(a.negate_spec(), b, b);
    assert(p.negate_spec() == q);
    lemma_negate(p, p);
    assert(ordered_at(p, zero, zero));
    assert(ordered_at(q, zero, zero));
    lemma_negate_order(p, zero);
    lemma_negate_order(zero, p);
    lemma_negate_order(q, zero);
    lemma_negate(zero, zero);
    lemma_order(p, zero, zero);
    lemma_order(zero, p, zero);
    lemma_order(q, zero, zero);
    lemma_order(zero, q, zero);
    assert(p.abs_spec() == q.abs_spec());
    let (x, y) = (a.abs_spec(), b.abs_spec());
    lemma_order(x, y, zero);
    lemma_order(y, x, zero);
    let size = x.max_spec(y);
    assert(y.max_spec(x) == size);
    // A coefficient and itself.
    lemma_plus(a, a, a);
    assert(ordered_at(zero, zero, zero));
    lemma_order(zero, zero, zero);
    assert(ordered_at(a, zero, zero));
    lemma_negate_order(a, zero);
    lemma_order(a, zero, zero);
    lemma_order(zero, a, zero);
    assert(zero.at_most_spec(x));
    lemma_order(x, x, zero);
    lemma_bound(t, x);
    // Larger tolerances.
    assert(ordered_at(b, zero, zero));
    lemma_negate_order(b, zero);
    lemma_order(b, zero, zero);
    lemma_order(zero, b, zero);
    assert(zero.at_most_spec(y));
    if t.absolute.at_most_spec(u.absolute) && t.relative.at_most_spec(u.relative) {
        lemma_bounds(t, u, size);
        lemma_order(
            p.abs_spec(),
            t.absolute.plus_spec(t.relative.times_spec(size)),
            u.absolute.plus_spec(u.relative.times_spec(size)),
        );
    }
    lemma_times_zero(size);
    lemma_plus(t.absolute, zero, zero);
    lemma_order(p, q, t.absolute);
    lemma_order(q, p, t.absolute);
    lemma_order(p, zero, t.absolute);
    lemma_order(q, zero, t.absolute);
}

proof fn lemma_bound<W: Real>(t: Tolerance<W>, size: W)
    requires
        ordered_field::<W>(),
        W::zero_spec().at_most_spec(t.absolute),
        W::zero_spec().at_most_spec(t.relative),
        W::zero_spec().at_most_spec(size),
    ensures
        W::zero_spec().at_most_spec(t.absolute.plus_spec(t.relative.times_spec(size))),
{
    let zero = W::zero_spec();
    lemma_times_order(zero, t.relative, size);
    lemma_times_zero(size);
    crate::algebra::lemma_plus_order(zero, t.relative.times_spec(size), t.absolute);
    lemma_plus(t.absolute, zero, zero);
    lemma_plus(t.absolute, t.relative.times_spec(size), zero);
    lemma_order(
        zero,
        t.absolute,
        t.absolute.plus_spec(t.relative.times_spec(size)),
    );
}

proof fn lemma_bounds<W: Real>(t: Tolerance<W>, u: Tolerance<W>, size: W)
    requires
        ordered_field::<W>(),
        t.absolute.at_most_spec(u.absolute),
        t.relative.at_most_spec(u.relative),
        W::zero_spec().at_most_spec(size),
    ensures
        t.absolute.plus_spec(t.relative.times_spec(size)).at_most_spec(
            u.absolute.plus_spec(u.relative.times_spec(size)),
        ),
{
    let (a, b) = (t.relative.times_spec(size), u.relative.times_spec(size));
    lemma_times_order(t.relative, u.relative, size);
    crate::algebra::lemma_plus_order(a, b, t.absolute);
    crate::algebra::lemma_plus_order(t.absolute, u.absolute, b);
    lemma_order(
        t.absolute.plus_spec(a),
        t.absolute.plus_spec(b),
        u.absolute.plus_spec(b),
    );
}

/// How many rows the first `k` residuals of a factor have.
pub open spec fn rows_before<R>(residuals: Seq<RecordedView<R>>, k: int) -> int
    decreases k,
{
    if k <= 0 {
        0
    } else {
        rows_before(residuals, k - 1) + residuals[k - 1].values.len()
    }
}

proof fn lemma_rows_listed<R>(residuals: Seq<RecordedView<R>>, n: int)
    requires
        0 <= n,
    ensures
        rows_spec(residuals, n).len() == rows_before(residuals, n),
        forall|k: int, r: int|
            0 <= k < n && 0 <= r < residuals[k].values.len() ==> 0 <= #[trigger] numbered(
                residuals,
                k,
                r,
            ) < rows_before(residuals, n) && rows_spec(residuals, n)[numbered(residuals, k, r)]
                == (k, r),
    decreases n,
{
    if n > 0 {
        lemma_rows_listed(residuals, n - 1);
        let before = rows_spec(residuals, n - 1);
        assert forall|k: int, r: int|
            0 <= k < n && 0 <= r < residuals[k].values.len() implies 0 <= #[trigger] numbered(
            residuals,
            k,
            r,
        ) < rows_before(residuals, n) && rows_spec(residuals, n)[numbered(residuals, k, r)] == (
            k,
            r,
        ) by {
            if k < n - 1 {
                assert(before[numbered(residuals, k, r)] == (k, r));
            }
        }
    }
}

/// The number of a row among all rows of a factor, one residual after the other.
pub open spec fn numbered<R>(residuals: Seq<RecordedView<R>>, k: int, r: int) -> int {
    rows_before(residuals, k) + r
}

/// What the emitted Jacobians of a row say of its derivative in a coordinate of a variable: the
/// coefficient there of the first block that is emitted for the variable, as far as that has
/// one, and otherwise zero.
pub open spec fn emitted_derivative<R: TestScalar>(
    residual: RecordedView<R>,
    variable: BlockId,
    row: int,
    column: int,
    derivative: R::Wide,
) -> bool {
    &&& forall|k: int|
        {
            &&& 0 <= k < residual.jacobians.len()
            &&& (#[trigger] residual.jacobians[k]).variable == variable
            &&& forall|j: int|
                0 <= j < k ==> (#[trigger] residual.jacobians[j]).variable != variable
        } ==> derivative == {
            let block = residual.jacobians[k];
            if block.values.len() == block.rows * block.cols && row < block.rows && column
                < block.cols {
                block.values[column * block.rows + row].test_value_spec()
            } else {
                R::Wide::zero_spec()
            }
        }
    &&& (forall|k: int|
        0 <= k < residual.jacobians.len() ==> (#[trigger] residual.jacobians[k]).variable
            != variable) ==> derivative == R::Wide::zero_spec()
}

proof fn lemma_emitted_derivative<R: TestScalar>(
    residual: RecordedView<R>,
    variable: BlockId,
    row: int,
    column: int,
)
    ensures
        emitted_derivative(
            residual,
            variable,
            row,
            column,
            derivative_spec(residual, variable, row, column),
        ),
{
    let ids = Seq::new(residual.jacobians.len(), |k: int| residual.jacobians[k].variable);
    let derivative = derivative_spec(residual, variable, row, column);
    assert forall|k: int|
        {
            &&& 0 <= k < residual.jacobians.len()
            &&& (#[trigger] residual.jacobians[k]).variable == variable
            &&& forall|j: int|
                0 <= j < k ==> (#[trigger] residual.jacobians[j]).variable != variable
        } implies derivative == {
        let block = residual.jacobians[k];
        if block.values.len() == block.rows * block.cols && row < block.rows && column
            < block.cols {
            block.values[column * block.rows + row].test_value_spec()
        } else {
            R::Wide::zero_spec()
        }
    } by {
        assert forall|j: int| 0 <= j < k implies #[trigger] ids[j] != variable by {
            assert(residual.jacobians[j].variable != variable);
        }
        assert(first_is(ids, variable, k));
        let p = choose|p: int| first_is(ids, variable, p);
        if p < k {
            assert(ids[p] != variable);
        }
        if k < p {
            assert(ids[k] != variable);
        }
    }
    if forall|k: int|
        0 <= k < residual.jacobians.len() ==> (#[trigger] residual.jacobians[k]).variable
            != variable {
        if exists|p: int| first_is(ids, variable, p) {
            let p = choose|p: int| first_is(ids, variable, p);
            assert(residual.jacobians[p].variable != variable);
        }
    }
}

/// A dual evaluation agrees with what was emitted: it has the same variables, factors and rows;
/// each row has the emitted value and, unless only the local model counts, the derivative that
/// the emitted Jacobian has in the seeded coordinate, or none without a seed; the cost is the
/// same.
pub open spec fn dual_agrees<R: TestScalar>(
    cost: R,
    plain: CaptureView<R>,
    value: R::Dual,
    dual: CaptureView<R::Dual>,
    seed: Option<(usize, usize)>,
    t: Tolerance<R::Wide>,
    local: bool,
) -> bool {
    &&& dual.widths == plain.widths
    &&& dual.scopes.len() == plain.scopes.len()
    &&& t.close_spec(R::parts_spec(value).0, cost.test_value_spec())
    &&& forall|s: int|
        0 <= s < plain.scopes.len() ==> {
            let here = (#[trigger] plain.scopes[s]).residuals;
            let there = dual.scopes[s].residuals;
            &&& dual.scopes[s].id == plain.scopes[s].id
            &&& rows_before(here, here.len() as int) == rows_before(there, there.len() as int)
        }
    &&& forall|s: int, k: int, r: int, l: int, q: int|
        {
            &&& 0 <= s < plain.scopes.len()
            &&& 0 <= k < plain.scopes[s].residuals.len()
            &&& 0 <= r < plain.scopes[s].residuals[k].values.len()
            &&& 0 <= l < dual.scopes[s].residuals.len()
            &&& 0 <= q < dual.scopes[s].residuals[l].values.len()
            &&& #[trigger] numbered(plain.scopes[s].residuals, k, r) == #[trigger] numbered(
                dual.scopes[s].residuals,
                l,
                q,
            )
        } ==> {
            let (primal, slope) = R::parts_spec(dual.scopes[s].residuals[l].values[q]);
            let residual = plain.scopes[s].residuals[k];
            &&& t.close_spec(primal, residual.values[r].test_value_spec())
            &&& !local ==> match seed {
                None => t.close_spec(slope, R::Wide::zero_spec()),
                Some((variable, column)) => exists|derivative: R::Wide|
                    {
                        &&& #[trigger] emitted_derivative(
                            residual,
                            plain.blocks[variable as int],
                            r,
                            column as int,
                            derivative,
                        )
                        &&& t.close_spec(slope, derivative)
                    },
            }
        }
}

proof fn lemma_dual_agrees<R: TestScalar>(
    cost: R,
    plain: CaptureView<R>,
    value: R::Dual,
    dual: CaptureView<R::Dual>,
    seed: Option<(usize, usize)>,
    t: Tolerance<R::Wide>,
    local: bool,
)
    requires
        dual_fault_spec(cost, plain, value, dual, seed, t, local) is None,
    ensures
        dual_agrees(cost, plain, value, dual, seed, t, local),
        t.close_spec(
            R::parts_spec(value).1,
            slope_spec(plain, seed, plain.scopes.len() as int),
        ),
{
    let scopes = Seq::new(
        plain.scopes.len(),
        |scope: int| dual_scope_spec(plain, dual, scope, seed, t, local),
    );
    lemma_none_fails(scopes);
    assert forall|s: int| 0 <= s < plain.scopes.len() implies {
        let here = (#[trigger] plain.scopes[s]).residuals;
        let there = dual.scopes[s].residuals;
        &&& dual.scopes[s].id == plain.scopes[s].id
        &&& rows_before(here, here.len() as int) == rows_before(there, there.len() as int)
    } by {
        assert(scopes[s] is None);
        lemma_rows_listed(plain.scopes[s].residuals, plain.scopes[s].residuals.len() as int);
        lemma_rows_listed(dual.scopes[s].residuals, dual.scopes[s].residuals.len() as int);
    }
    assert forall|s: int, k: int, r: int, l: int, q: int|
        {
            &&& 0 <= s < plain.scopes.len()
            &&& 0 <= k < plain.scopes[s].residuals.len()
            &&& 0 <= r < plain.scopes[s].residuals[k].values.len()
            &&& 0 <= l < dual.scopes[s].residuals.len()
            &&& 0 <= q < dual.scopes[s].residuals[l].values.len()
            &&& #[trigger] numbered(plain.scopes[s].residuals, k, r) == #[trigger] numbered(
                dual.scopes[s].residuals,
                l,
                q,
            )
        } implies {
        let (primal, slope) = R::parts_spec(dual.scopes[s].residuals[l].values[q]);
        let residual = plain.scopes[s].residuals[k];
        &&& t.close_spec(primal, residual.values[r].test_value_spec())
        &&& !local ==> match seed {
            None => t.close_spec(slope, R::Wide::zero_spec()),
            Some((variable, column)) => exists|derivative: R::Wide|
                {
                    &&& #[trigger] emitted_derivative(
                        residual,
                        plain.blocks[variable as int],
                        r,
                        column as int,
                        derivative,
                    )
                    &&& t.close_spec(slope, derivative)
                },
        }
    } by {
        assert(scopes[s] is None);
        lemma_rows_listed(plain.scopes[s].residuals, plain.scopes[s].residuals.len() as int);
        lemma_rows_listed(dual.scopes[s].residuals, dual.scopes[s].residuals.len() as int);
        let i = numbered(plain.scopes[s].residuals, k, r);
        let rows = Seq::new(
            plain.scopes[s].rows().len(),
            |i: int| dual_row_spec(plain, dual, s, i, seed, t, local),
        );
        lemma_none_fails(rows);
        assert(rows[i] is None);
        assert(plain.scopes[s].rows()[i] == (k, r));
        assert(dual.scopes[s].rows()[i] == (l, q));
        if let Some((variable, column)) = seed {
            lemma_emitted_derivative(
                plain.scopes[s].residuals[k],
                plain.blocks[variable as int],
                r,
                column as int,
            );
        }
    }
}

/// The dual evaluation of a selection with some seed agrees with what was emitted.
pub open spec fn seed_agrees<R: TestScalar, E: Evaluation<R>>(
    case: E,
    selection: Selection,
    cost: R,
    view: CaptureView<R>,
    seed: Option<(usize, usize)>,
    t: Tolerance<R::Wide>,
    local: bool,
) -> bool {
    &&& case.lifted_spec(selection, seed) matches Ok((value, dual))
    &&& dual_agrees(cost, view, value, dual, seed, t, local)
    &&& t.close_spec(R::parts_spec(value).1, slope_spec(view, seed, view.scopes.len() as int))
}

/// All dual evaluations of a selection agree with what was emitted: the one without a seed, and
/// those with a seed in any coordinate of any variable.
pub open spec fn seeds_agree<R: TestScalar, E: Evaluation<R>>(
    case: E,
    selection: Selection,
    cost: R,
    view: CaptureView<R>,
    t: Tolerance<R::Wide>,
    local: bool,
) -> bool {
    &&& seed_agrees(case, selection, cost, view, None, t, local)
    &&& forall|variable: usize, column: usize|
        variable < view.widths.len() && column < view.widths[variable as int]
            ==> #[trigger] seed_agrees(
            case,
            selection,
            cost,
            view,
            Some((variable, column)),
            t,
            local,
        )
}

proof fn lemma_seeds_agree<R: TestScalar, E: Evaluation<R>>(
    case: E,
    selection: Selection,
    cost: R,
    view: CaptureView<R>,
    t: Tolerance<R::Wide>,
    local: bool,
)
    requires
        seeds_spec::<R, E>(case, selection, cost, view, t, local) is None,
    ensures
        seeds_agree(case, selection, cost, view, t, local),
{
    let (value, dual) = case.lifted_spec(selection, None)->Ok_0;
    lemma_dual_agrees(cost, view, value, dual, None, t, local);
    let all = Seq::new(
        view.widths.len(),
        |variable: int|
            variable_seeds_spec::<R, E>(case, selection, cost, view, variable, t, local),
    );
    lemma_none_fails(all);
    assert forall|variable: usize, column: usize|
        variable < view.widths.len() && column
            < view.widths[variable as int] implies #[trigger] seed_agrees(
        case,
        selection,
        cost,
        view,
        Some((variable, column)),
        t,
        local,
    ) by {
        assert(all[variable as int] is None);
        let columns = Seq::new(
            view.widths[variable as int] as nat,
            |column: int|
                seed_spec::<R, E>(
                    case,
                    selection,
                    cost,
                    view,
                    Some((variable as int as usize, column as usize)),
                    t,
                    local,
                ),
        );
        lemma_none_fails(columns);
        assert(columns[column as int] is None);
        let (value, dual) = case.lifted_spec(selection, Some((variable, column)))->Ok_0;
        lemma_dual_agrees(cost, view, value, dual, Some((variable, column)), t, local);
    }
}

/// A cost that can be one, and unless only the local model counts agrees with the emitted
/// residuals.
pub open spec fn cost_agrees<R: TestScalar>(
    cost: R,
    view: CaptureView<R>,
    t: Tolerance<R::Wide>,
    local: bool,
) -> bool {
    &&& cost.test_value_spec().finite_spec()
    &&& R::Wide::zero_spec().at_most_spec(cost.test_value_spec())
    &&& !local ==> t.close_spec(
        cost.test_value_spec(),
        objective_spec(view.scopes, view.scopes.len() as int),
    )
}

/// A selected factor is linearized as it is among all factors: it has as many rows there, each
/// with the same value and the same derivative in every coordinate of every variable.
pub open spec fn selection_agrees<R: TestScalar>(
    full: CaptureView<R>,
    part: CaptureView<R>,
    t: Tolerance<R::Wide>,
) -> bool {
    &&& part.widths == full.widths
    &&& forall|s: int|
        0 <= s < part.scopes.len() ==> among(full, #[trigger] part.scopes[s], t)
}

/// A linearization of a factor agrees with that of the same factor among all factors.
pub open spec fn among<R: TestScalar>(
    full: CaptureView<R>,
    scope: ScopeView<R>,
    t: Tolerance<R::Wide>,
) -> bool {
    exists|f: int|
        {
            &&& 0 <= f < full.scopes.len()
            &&& (#[trigger] full.scopes[f]).id == scope.id
            &&& scope_agrees(full, full.scopes[f].residuals, scope.residuals, t)
        }
}

/// The emitted derivatives of two rows in one coordinate of a variable agree.
pub open spec fn derivatives_agree<R: TestScalar>(
    left: RecordedView<R>,
    r: int,
    right: RecordedView<R>,
    q: int,
    variable: BlockId,
    column: int,
    t: Tolerance<R::Wide>,
) -> bool {
    exists|a: R::Wide, b: R::Wide|
        {
            &&& #[trigger] emitted_derivative(left, variable, r, column, a)
            &&& #[trigger] emitted_derivative(right, variable, q, column, b)
            &&& t.close_spec(a, b)
        }
}

/// Two linearizations of one factor agree.
pub open spec fn scope_agrees<R: TestScalar>(
    full: CaptureView<R>,
    left: Seq<RecordedView<R>>,
    right: Seq<RecordedView<R>>,
    t: Tolerance<R::Wide>,
) -> bool {
    &&& rows_before(left, left.len() as int) == rows_before(right, right.len() as int)
    &&& forall|k: int, r: int, l: int, q: int|
        {
            &&& 0 <= k < left.len()
            &&& 0 <= r < left[k].values.len()
            &&& 0 <= l < right.len()
            &&& 0 <= q < right[l].values.len()
            &&& #[trigger] numbered(left, k, r) == #[trigger] numbered(right, l, q)
        } ==> {
            &&& t.close_spec(
                left[k].values[r].test_value_spec(),
                right[l].values[q].test_value_spec(),
            )
            &&& forall|variable: int, column: int|
                0 <= variable < full.widths.len() && 0 <= column < full.widths[variable]
                    ==> #[trigger] derivatives_agree(
                    left[k],
                    r,
                    right[l],
                    q,
                    full.blocks[variable],
                    column,
                    t,
                )
        }
}

proof fn lemma_scope_agrees<R: TestScalar>(
    full: CaptureView<R>,
    original: ScopeView<R>,
    scope: ScopeView<R>,
    t: Tolerance<R::Wide>,
)
    requires
        original.rows().len() == scope.rows().len(),
        earliest(
            Seq::new(
                scope.rows().len(),
                |i: int|
                    same_row_spec(
                        full,
                        original.residuals[original.rows()[i].0],
                        scope.residuals[scope.rows()[i].0],
                        (original.rows()[i].1, scope.rows()[i].1),
                        t,
                    ),
            ),
        ) is None,
    ensures
        scope_agrees(full, original.residuals, scope.residuals, t),
{
    let left = original.residuals;
    let right = scope.residuals;
    let rows = Seq::new(
        scope.rows().len(),
        |i: int|
            same_row_spec(
                full,
                original.residuals[original.rows()[i].0],
                scope.residuals[scope.rows()[i].0],
                (original.rows()[i].1, scope.rows()[i].1),
                t,
            ),
    );
    lemma_none_fails(rows);
    lemma_rows_listed(left, left.len() as int);
    lemma_rows_listed(right, right.len() as int);
    assert forall|k: int, r: int, l: int, q: int|
        {
            &&& 0 <= k < left.len()
            &&& 0 <= r < left[k].values.len()
            &&& 0 <= l < right.len()
            &&& 0 <= q < right[l].values.len()
            &&& #[trigger] numbered(left, k, r) == #[trigger] numbered(right, l, q)
        } implies {
        &&& t.close_spec(
            left[k].values[r].test_value_spec(),
            right[l].values[q].test_value_spec(),
        )
        &&& forall|variable: int, column: int|
            0 <= variable < full.widths.len() && 0 <= column < full.widths[variable]
                ==> #[trigger] derivatives_agree(
                left[k],
                r,
                right[l],
                q,
                full.blocks[variable],
                column,
                t,
            )
    } by {
        let i = numbered(left, k, r);
        assert(original.rows()[i] == (k, r));
        assert(scope.rows()[i] == (l, q));
        assert(rows[i] is None);
        let variables = Seq::new(
            full.widths.len(),
            |variable: int| same_variable_spec(full, left[k], right[l], (r, q), variable, t),
        );
        lemma_none_fails(variables);
        assert forall|variable: int, column: int|
            0 <= variable < full.widths.len() && 0 <= column
                < full.widths[variable] implies #[trigger] derivatives_agree(
            left[k],
            r,
            right[l],
            q,
            full.blocks[variable],
            column,
            t,
        ) by {
            lemma_emitted_derivative(left[k], full.blocks[variable], r, column);
            lemma_emitted_derivative(right[l], full.blocks[variable], q, column);
            assert(variables[variable] is None);
            let columns = Seq::new(
                full.widths[variable] as nat,
                |column: int|
                    same_column_spec(full, left[k], right[l], (r, q), variable, column, t),
            );
            lemma_none_fails(columns);
            assert(columns[column] is None);
        }
    }
}

proof fn lemma_selection_agrees<R: TestScalar>(
    full: CaptureView<R>,
    part: CaptureView<R>,
    t: Tolerance<R::Wide>,
)
    requires
        selection_fault_spec(full, part, t) is None,
    ensures
        selection_agrees(full, part, t),
{
    let scopes = Seq::new(part.scopes.len(), |i: int| same_scope_spec(full, part.scopes[i], t));
    lemma_none_fails(scopes);
    assert forall|s: int| 0 <= s < part.scopes.len() implies among(
        full,
        #[trigger] part.scopes[s],
        t,
    ) by {
        assert(scopes[s] is None);
        let f = position(full.ids(), part.scopes[s].id)->0;
        assert(first_is(full.ids(), part.scopes[s].id, f));
        lemma_scope_agrees(full, full.scopes[f], part.scopes[s], t);
        assert(full.scopes[f].id == part.scopes[s].id);
    }
}

/// A proper selection of factors passes: its cost and, unless only costs count, its dual
/// evaluations agree with what it emits, and it emits what the full evaluation does.
pub open spec fn part_passes<R: TestScalar, E: Evaluation<R>>(
    case: E,
    full: CaptureView<R>,
    selection: Selection,
    property: FactorProperty,
    t: Tolerance<R::Wide>,
) -> bool {
    let local = property is LocalModel;
    &&& case.evaluate_spec(selection) matches Ok((cost, view))
    &&& cost_agrees(cost, view, t, local)
    &&& selection_agrees(full, view, t)
    &&& !(property is Cost) ==> seeds_agree(case, selection, cost, view, t, local)
}

/// A case of a factor or a batch passes.
pub open spec fn case_passes<R: TestScalar, E: Evaluation<R>>(
    case: E,
    batched: bool,
    property: FactorProperty,
    t: Tolerance<R::Wide>,
) -> bool {
    let local = property is LocalModel;
    &&& case.evaluate_spec(Selection::All) matches Ok((cost, full))
    &&& cost_agrees(cost, full, t, local)
    &&& !(property is Cost) ==> seeds_agree(case, Selection::All, cost, full, t, local)
    &&& batched ==> {
        &&& part_passes(case, full, Selection::Empty, property, t)
        &&& t.close_spec(
            case.evaluate_spec(Selection::Empty)->Ok_0.0.test_value_spec(),
            R::Wide::zero_spec(),
        )
        &&& forall|i: usize|
            i < full.scopes.len() ==> #[trigger] part_passes(
                case,
                full,
                Selection::One(i),
                property,
                t,
            )
        &&& t.close_spec(
            cost.test_value_spec(),
            singles_spec::<R, E>(case, full.scopes.len() as int),
        )
    }
}

proof fn lemma_part_passes<R: TestScalar, E: Evaluation<R>>(
    case: E,
    full: CaptureView<R>,
    selection: Selection,
    property: FactorProperty,
    t: Tolerance<R::Wide>,
)
    requires
        part_spec::<R, E>(case, full, selection, property, t) is None,
    ensures
        part_passes(case, full, selection, property, t),
        selection is Empty ==> t.close_spec(
            case.evaluate_spec(selection)->Ok_0.0.test_value_spec(),
            R::Wide::zero_spec(),
        ),
{
    let local = property is LocalModel;
    let (cost, view) = case.evaluate_spec(selection)->Ok_0;
    lemma_selection_agrees(full, view, t);
    if !(property is Cost) {
        lemma_seeds_agree(case, selection, cost, view, t, local);
    }
}

/// Where no fault is found in a case, it passes: for the Jacobians in particular, the derivative
/// of every row in every coordinate of every variable is the emitted one.
pub proof fn lemma_case_passes<R: TestScalar, E: Evaluation<R>>(
    case: E,
    batched: bool,
    property: FactorProperty,
    t: Tolerance<R::Wide>,
)
    requires
        case_spec::<R, E>(case, batched, property, t) is None,
    ensures
        case_passes(case, batched, property, t),
{
    let local = property is LocalModel;
    let (cost, full) = case.evaluate_spec(Selection::All)->Ok_0;
    if !(property is Cost) {
        lemma_seeds_agree(case, Selection::All, cost, full, t, local);
    }
    if batched {
        assert(parts_spec::<R, E>(case, cost, full, property, t) is None);
        lemma_part_passes(case, full, Selection::Empty, property, t);
        let parts = Seq::new(
            full.scopes.len(),
            |i: int| part_spec::<R, E>(case, full, Selection::One(i as usize), property, t),
        );
        lemma_none_fails(parts);
        assert forall|i: usize| i < full.scopes.len() implies #[trigger] part_passes(
            case,
            full,
            Selection::One(i),
            property,
            t,
        ) by {
            assert(parts[i as int] is None);
            lemma_part_passes(case, full, Selection::One(i), property, t);
        }
    }
}

/// Where no fault is found in some cases, all of them pass.
pub proof fn lemma_cases_pass<R: TestScalar, E: Evaluation<R>>(
    cases: Seq<E>,
    batched: bool,
    property: FactorProperty,
    t: Tolerance<R::Wide>,
)
    requires
        cases_spec::<R, E>(cases, batched, property, t) is None,
    ensures
        forall|i: int|
            0 <= i < cases.len() ==> case_passes(#[trigger] cases[i], batched, property, t),
{
    let faults = Seq::new(
        cases.len(),
        |i: int| case_spec::<R, E>(cases[i], batched, property, t),
    );
    lemma_none_fails(faults);
    assert forall|i: int| 0 <= i < cases.len() implies case_passes(
        #[trigger] cases[i],
        batched,
        property,
        t,
    ) by {
        assert(faults[i] is None);
        lemma_case_passes(cases[i], batched, property, t);
    }
}

proof fn lemma_squares<R: TestScalar>(start: R::Wide, values: Seq<R>, n: int)
    requires
        ring::<R::Wide>(),
    ensures
        squares_spec::<R>(start, values, n) == start.plus_spec(
            sum(n, |i: int| half_square(values[i])),
        ),
    decreases n,
{
    let term = |i: int| half_square(values[i]);
    if n <= 0 {
        lemma_plus(start, start, start);
    } else {
        lemma_squares(start, values, n - 1);
        let value = values[n - 1].test_value_spec();
        lemma_times(R::Wide::ratio_spec(1, 2), value, value);
        lemma_plus(start, sum(n - 1, term), term(n - 1));
    }
}

/// Half the square of a coefficient.
pub open spec fn half_square<R: TestScalar>(value: R) -> R::Wide {
    R::Wide::ratio_spec(1, 2).times_spec(
        value.test_value_spec().times_spec(value.test_value_spec()),
    )
}

/// Half the squares of all coordinates of a residual.
pub open spec fn residual_cost<R: TestScalar>(residual: RecordedView<R>) -> R::Wide {
    sum(residual.values.len() as int, |i: int| half_square(residual.values[i]))
}

/// Half the squares of all residual coordinates of a factor.
pub open spec fn scope_cost<R: TestScalar>(scope: ScopeView<R>) -> R::Wide {
    sum(scope.residuals.len() as int, |k: int| residual_cost(scope.residuals[k]))
}

proof fn lemma_residual_squares<R: TestScalar>(
    start: R::Wide,
    residuals: Seq<RecordedView<R>>,
    n: int,
)
    requires
        ring::<R::Wide>(),
    ensures
        residual_squares_spec(start, residuals, n) == start.plus_spec(
            sum(n, |k: int| residual_cost(residuals[k])),
        ),
    decreases n,
{
    let term = |k: int| residual_cost(residuals[k]);
    if n <= 0 {
        lemma_plus(start, start, start);
    } else {
        lemma_residual_squares(start, residuals, n - 1);
        let values = residuals[n - 1].values;
        lemma_squares(
            residual_squares_spec(start, residuals, n - 1),
            values,
            values.len() as int,
        );
        lemma_plus(start, sum(n - 1, term), term(n - 1));
    }
}

/// The objective that costs are compared with is half the sum of the squares of all emitted
/// residual coordinates.
pub proof fn lemma_objective<R: TestScalar>(scopes: Seq<ScopeView<R>>, n: int)
    requires
        ring::<R::Wide>(),
    ensures
        objective_spec(scopes, n) == sum(n, |s: int| scope_cost(scopes[s])),
    decreases n,
{
    if n > 0 {
        lemma_objective(scopes, n - 1);
        let residuals = scopes[n - 1].residuals;
        lemma_residual_squares(
            objective_spec(scopes, n - 1),
            residuals,
            residuals.len() as int,
        );
    }
}

/// The cost that single factors are compared with is the sum of their costs.
pub proof fn lemma_summed_cost<R: TestScalar, E: Evaluation<R>>(case: E, n: int)
    ensures
        singles_spec::<R, E>(case, n) == sum(
            n,
            |i: int|
                case.evaluate_spec(Selection::One(i as usize))->Ok_0.0.test_value_spec(),
        ),
    decreases n,
{
    if n > 0 {
        lemma_summed_cost::<R, E>(case, n - 1);
    }
}

/// What one row contributes to the derivative of the objective in the direction of a seed: its
/// value times its emitted derivative there.
pub open spec fn row_pull<R: TestScalar>(
    view: CaptureView<R>,
    s: int,
    k: int,
    r: int,
    seed: Option<(usize, usize)>,
) -> R::Wide {
    view.scopes[s].residuals[k].values[r].test_value_spec().times_spec(
        match seed {
            Some((variable, column)) => derivative_spec(
                view.scopes[s].residuals[k],
                view.blocks[variable as int],
                r,
                column as int,
            ),
            None => R::Wide::zero_spec(),
        },
    )
}

proof fn lemma_scope_slope_rows<R: TestScalar>(
    view: CaptureView<R>,
    s: int,
    seed: Option<(usize, usize)>,
    start: R::Wide,
    n: int,
)
    requires
        ring::<R::Wide>(),
    ensures
        scope_slope_spec(view, s, seed, start, n) == start.plus_spec(
            sum(
                n,
                |i: int|
                    row_pull(
                        view,
                        s,
                        view.scopes[s].rows()[i].0,
                        view.scopes[s].rows()[i].1,
                        seed,
                    ),
            ),
        ),
    decreases n,
{
    let rows = view.scopes[s].rows();
    let term = |i: int| row_pull(view, s, rows[i].0, rows[i].1, seed);
    if n <= 0 {
        lemma_plus(start, start, start);
    } else {
        lemma_scope_slope_rows(view, s, seed, start, n - 1);
        lemma_plus(start, sum(n - 1, term), term(n - 1));
    }
}

proof fn lemma_row_sum<R: TestScalar>(
    residuals: Seq<RecordedView<R>>,
    n: int,
    f: spec_fn(int, int) -> R::Wide,
)
    requires
        ring::<R::Wide>(),
        0 <= n <= residuals.len(),
    ensures
        sum(
            rows_spec(residuals, n).len() as int,
            |i: int| f(rows_spec(residuals, n)[i].0, rows_spec(residuals, n)[i].1),
        ) == sum(n, |k: int| sum(residuals[k].values.len() as int, |r: int| f(k, r))),
    decreases n,
{
    let rows = rows_spec(residuals, n);
    let all = |i: int| f(rows[i].0, rows[i].1);
    if n > 0 {
        let before = rows_spec(residuals, n - 1);
        let early = |i: int| f(before[i].0, before[i].1);
        lemma_row_sum(residuals, n - 1, f);
        let m = residuals[n - 1].values.len() as int;
        let last = |r: int| f(n - 1, r);
        lemma_sum_append(before.len() as int, m, all, early, last);
        let outer = |k: int| sum(residuals[k].values.len() as int, |r: int| f(k, r));
        assert(outer(n - 1) == sum(m, |r: int| f(n - 1, r)));
        assert(sum(n, outer) == sum(n - 1, outer).plus_spec(outer(n - 1)));
        assert(rows.len() == before.len() + m);
    }
}

proof fn lemma_sum_append<W: Real>(
    n: int,
    m: int,
    all: spec_fn(int) -> W,
    first: spec_fn(int) -> W,
    last: spec_fn(int) -> W,
)
    requires
        ring::<W>(),
        0 <= n,
        0 <= m,
        forall|i: int| 0 <= i < n ==> #[trigger] all(i) == first(i),
        forall|r: int| 0 <= r < m ==> #[trigger] last(r) == all(n + r),
    ensures
        sum(n + m, all) == sum(n, first).plus_spec(sum(m, last)),
    decreases m,
{
    if m == 0 {
        lemma_sum_same(n, all, first);
        lemma_plus(sum(n, first), W::zero_spec(), W::zero_spec());
    } else {
        lemma_sum_append(n, m - 1, all, first, last);
        assert(last(m - 1) == all(n + (m - 1)));
        lemma_plus(sum(n, first), sum(m - 1, last), last(m - 1));
    }
}

/// What a factor contributes to the derivative of the objective in the direction of a seed.
pub open spec fn scope_pull<R: TestScalar>(
    view: CaptureView<R>,
    s: int,
    seed: Option<(usize, usize)>,
) -> R::Wide {
    sum(
        view.scopes[s].residuals.len() as int,
        |k: int|
            sum(
                view.scopes[s].residuals[k].values.len() as int,
                |r: int| row_pull(view, s, k, r, seed),
            ),
    )
}

/// The derivative that the dual cost is compared with is the sum over all rows of their values
/// times their derivatives in the seeded coordinate, and without a seed zero.
pub proof fn lemma_slope<R: TestScalar>(
    view: CaptureView<R>,
    seed: Option<(usize, usize)>,
    n: int,
)
    requires
        ring::<R::Wide>(),
        n <= view.scopes.len(),
    ensures
        slope_spec(view, seed, n) == sum(n, |s: int| scope_pull(view, s, seed)),
    decreases n,
{
    if n > 0 {
        lemma_slope(view, seed, n - 1);
        let s = n - 1;
        let residuals = view.scopes[s].residuals;
        let rows = view.scopes[s].rows();
        let start = slope_spec(view, seed, s);
        lemma_scope_slope_rows(view, s, seed, start, rows.len() as int);
        let f = |k: int, r: int| row_pull(view, s, k, r, seed);
        lemma_row_sum(residuals, residuals.len() as int, f);
        lemma_sum_same(
            rows.len() as int,
            |i: int| row_pull(view, s, rows[i].0, rows[i].1, seed),
            |i: int| f(rows[i].0, rows[i].1),
        );
        let inner = |k: int| sum(residuals[k].values.len() as int, |r: int| f(k, r));
        let outer = |k: int|
            sum(
                view.scopes[s].residuals[k].values.len() as int,
                |r: int| row_pull(view, s, k, r, seed),
            );
        assert forall|k: int| 0 <= k < residuals.len() implies #[trigger] inner(k) == outer(k) by {
            lemma_sum_same(
                residuals[k].values.len() as int,
                |r: int| f(k, r),
                |r: int| row_pull(view, s, k, r, seed),
            );
        }
        lemma_sum_same(residuals.len() as int, inner, outer);
    }
}

} // verus!
