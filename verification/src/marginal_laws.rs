//! What marginalization keeps, what covariances of information are, and which controls are
//! refused.
use crate::algebra::{lemma_order, lemma_plus, lemma_plus_order, ordered_field};
use crate::backend::LeastSquaresBackend;
use crate::covariance::{implied_spec, CovarianceOptions};
use crate::direct_laws::{inverse_column, is_exact, lemma_covariance_is_inverse};
use crate::elimination::{
    factored_spec, reduced_spec, MatrixView, PivotedQr, ReducedView, Rows, RowsView,
};
use crate::elimination_laws::{
    exact, lemma_elimination_attains_cost, lemma_elimination_bounds_cost, lemma_reduced_size,
    orthogonal, prior_cost, rows_cost,
};
use crate::families::{collected_run, Collected, FactorSchema, Incidence};
use crate::front::{all_incidence, kept, listed, prior_incidence, touches, Front};
use crate::kernels::{lower_triangle, Triangular};
use crate::key::{BlockId, RawKey};
use crate::layout::Layout;
use crate::levenberg_marquardt::LmOptions;
use crate::linearization::{BlockView, EventView};
use crate::marginalization::{
    gathered_spec, lemma_front_order, marginalized, report_spec, staying, MarginalizationOptions,
    MarginalizationReport,
};
use crate::normal::NormalView;
use crate::optimization::{untouched, OptimizeOptions};
use crate::priors::{prior_columns, PriorView, Priors};
use crate::scalar::Real;
use crate::sink::{emission_check, event_step, events_run, replies_from, Progress, Unit, Window};
use crate::states::{width_sum, StateSchema};
use vstd::prelude::*;

verus! {

/// Rows over a number of coordinates.
pub open spec fn rows_over<R: Real>(rows: RowsView<R>, dimension: nat) -> bool {
    rows.wf() && rows.dimension == dimension
}

proof fn lemma_extended_rows<R: Real>(
    rows: RowsView<R>,
    residual: Seq<R>,
    blocks: Seq<BlockView<R>>,
    columns: Seq<usize>,
    dimension: nat,
)
    requires
        rows_over(rows, dimension),
    ensures
        rows.extended(residual, blocks, columns) matches Ok(after) ==> rows_over(
            after,
            dimension,
        ),
{
    assert((rows.height + residual.len()) * (dimension + 1) == rows.height * (dimension + 1)
        + residual.len() * (dimension + 1)) by (nonlinear_arith);
}

proof fn lemma_events_rows<R: Real>(
    layout: &Layout,
    window: Window,
    scoped: bool,
    progress: Progress<RowsView<R>>,
    events: Seq<EventView<R>>,
    n: int,
    dimension: nat,
)
    requires
        rows_over(progress.model, dimension),
    ensures
        rows_over(
            events_run::<Rows<R>>(layout, window, scoped, progress, events, n).model,
            dimension,
        ),
    decreases n,
{
    if n > 0 {
        lemma_events_rows(layout, window, scoped, progress, events, n - 1, dimension);
        let before = events_run::<Rows<R>>(layout, window, scoped, progress, events, n - 1);
        match events[n - 1] {
            EventView::Residual(residual, blocks) => {
                if before.active is Some {
                    let check = emission_check(
                        layout,
                        before.active->0 as int,
                        residual,
                        blocks,
                    );
                    if check is Ok {
                        lemma_extended_rows(
                            before.model,
                            residual,
                            blocks,
                            check->Ok_0,
                            dimension,
                        );
                    }
                }
            },
            _ => {},
        }
    }
}

proof fn lemma_collected_over<R: Real>(
    layout: &Layout,
    progress: Progress<RowsView<R>>,
    collected: Seq<Collected<R>>,
    n: int,
    dimension: nat,
)
    requires
        rows_over(progress.model, dimension),
    ensures
        collected_run::<Rows<R>>(layout, progress, collected, n) matches Ok(reached) ==> rows_over(
            reached.model,
            dimension,
        ),
    decreases n,
{
    if n > 0 {
        lemma_collected_over(layout, progress, collected, n - 1, dimension);
        if collected_run::<Rows<R>>(layout, progress, collected, n) is Ok {
            let before = collected_run::<Rows<R>>(layout, progress, collected, n - 1)->Ok_0;
            let picked = collected[n - 1];
            let position = picked.position;
            let window = Window { start: position, end: position + picked.unit.count() };
            match picked.unit {
                Unit::Single(id, emission) => {
                    let begun = event_step::<Rows<R>>(
                        layout,
                        window,
                        true,
                        before,
                        EventView::Open(id),
                    ).0;
                    let emitted = emission(replies_from::<Rows<R>>(layout, window, true, begun));
                    lemma_events_rows(
                        layout,
                        window,
                        true,
                        begun,
                        emitted.events,
                        emitted.events.len() as int,
                        dimension,
                    );
                },
                Unit::Many(_, emission) => {
                    let emitted = emission(replies_from::<Rows<R>>(layout, window, false, before));
                    lemma_events_rows(
                        layout,
                        window,
                        false,
                        before,
                        emitted.events,
                        emitted.events.len() as int,
                        dimension,
                    );
                },
            }
        }
    }
}

proof fn lemma_prior_rows_over<R: Real>(
    priors: Priors<R>,
    layout: &Layout,
    model: RowsView<R>,
    views: Seq<PriorView<R>>,
    selected: Option<Set<RawKey>>,
    n: int,
    dimension: nat,
)
    requires
        rows_over(model, dimension),
    ensures
        priors.rows_run::<Rows<R>>(layout, model, views, selected, n) matches Ok(after)
            ==> rows_over(after, dimension),
    decreases n,
{
    if n > 0 {
        lemma_prior_rows_over(priors, layout, model, views, selected, n - 1, dimension);
        if priors.rows_run::<Rows<R>>(layout, model, views, selected, n) is Ok {
            let before = priors.rows_run::<Rows<R>>(layout, model, views, selected, n - 1)->Ok_0;
            let prior = views[n - 1];
            let columns = prior_columns(layout, prior, prior.blocks.len() as int);
            if columns is Ok {
                lemma_extended_rows(
                    before,
                    prior.residual,
                    prior.shares(),
                    columns->Ok_0,
                    dimension,
                );
            }
        }
    }
}

/// Gathered rows are complete, over the coordinates of their front.
pub proof fn lemma_gathered_rows<S: StateSchema, F: FactorSchema<S, Scalar = S::Scalar>>(
    layout: &Layout,
    states: S,
    factors: F,
    priors: Priors<S::Scalar>,
    affected: Set<RawKey>,
)
    ensures
        gathered_spec(layout, states, factors, priors, affected) matches Ok(rows) ==> rows_over(
            rows,
            layout.dimension as nat,
        ) && rows.dimension < usize::MAX,
{
    if gathered_spec(layout, states, factors, priors, affected) is Ok {
        let dimension = layout.dimension as nat;
        let picked = factors.picked(states.reading(), layout.factor_index@);
        let start = untouched(layout, Rows::<S::Scalar>::empty_spec((), dimension));
        assert(0 * (dimension + 1) == 0) by (nonlinear_arith);
        lemma_collected_over(layout, start, picked, picked.len() as int, dimension);
        let reached = collected_run::<Rows<S::Scalar>>(
            layout,
            start,
            picked,
            picked.len() as int,
        )->Ok_0;
        let views = priors.evaluated(states, true, Some(affected))->Ok_0;
        lemma_prior_rows_over(
            priors,
            layout,
            reached.model,
            views,
            Some(affected),
            views.len() as int,
            dimension,
        );
    }
}

/// What the priors that a marginalization leaves cost beyond those that it does not affect: the
/// constant, and the new prior where there is one.
pub open spec fn left_cost<R: Real>(
    before: Priors<R>,
    after: Priors<R>,
    rows: usize,
    moved: spec_fn(int) -> R,
) -> R {
    if rows > 0 {
        after.constant.plus_spec(
            prior_cost(
                after.entries.values@[after.entries.place(before.entries.next_local())]@,
                moved,
            ),
        )
    } else {
        after.constant
    }
}

proof fn lemma_left_cost<
    S: StateSchema,
    F: FactorSchema<S, Scalar = S::Scalar>,
    Q: PivotedQr<S::Scalar>,
>(
    kernel: Q,
    states: S,
    factors: F,
    priors: Priors<S::Scalar>,
    ids: Seq<BlockId>,
    tolerance: S::Scalar,
    front: Front,
    report: MarginalizationReport,
    after_states: S,
    after_factors: F,
    after_priors: Priors<S::Scalar>,
    rows: RowsView<S::Scalar>,
    moved: spec_fn(int) -> S::Scalar,
)
    requires
        ordered_field::<S::Scalar>(),
        marginalized(
            kernel,
            states,
            factors,
            priors,
            ids,
            Some(tolerance),
            front,
            Ok(report),
            after_states,
            after_factors,
            after_priors,
        ),
        gathered_spec(&front.layout, states, factors, priors, front.affected@) == Ok::<
            _,
            crate::error::SolverError,
        >(rows),
    ensures
        ({
            let reduced = reduced_spec(kernel, rows, front.removed_dof as nat, Some(tolerance));
            &&& reduced is Ok
            &&& left_cost(priors, after_priors, report.prior_rows, moved)
                == priors.constant.plus_spec(
                prior_cost(reduced->Ok_0.prior, moved).plus_spec(reduced->Ok_0.constant),
            )
        }),
{
    lemma_gathered_rows(&front.layout, states, factors, priors, front.affected@);
    lemma_front_order(&front, states.blocks(), all_incidence(factors, priors), ids);
    let reduced = reduced_spec(kernel, rows, front.removed_dof as nat, Some(tolerance))->Ok_0;
    let cost = prior_cost(reduced.prior, moved);
    let (a, b) = (priors.constant, reduced.constant);
    lemma_reduced_size(kernel, rows, front.removed_dof as nat, Some(tolerance));
    lemma_plus(a, b, cost);
    lemma_plus(b, cost, cost);
    lemma_plus(b, b, b);
    if report.prior_rows > 0 {
        let new = after_priors.entries.values@[after_priors.entries.place(
            priors.entries.next_local(),
        )]@;
        assert(new.a == reduced.prior.a && new.b == reduced.prior.b);
        assert(prior_cost(new, moved) == cost);
    } else {
        assert(cost == <S::Scalar as Real>::zero_spec());
    }
}

/// Whatever values the variables take that are marginalized out, the graph costs at least what it
/// costs without them: the constant before and the affected rows are not less than the constant
/// after and the new prior.
pub proof fn lemma_marginalization_bounds_cost<
    S: StateSchema,
    F: FactorSchema<S, Scalar = S::Scalar>,
    Q: PivotedQr<S::Scalar>,
>(
    kernel: Q,
    states: S,
    factors: F,
    priors: Priors<S::Scalar>,
    ids: Seq<BlockId>,
    tolerance: S::Scalar,
    front: Front,
    report: MarginalizationReport,
    after_states: S,
    after_factors: F,
    after_priors: Priors<S::Scalar>,
    rows: RowsView<S::Scalar>,
    x: spec_fn(int) -> S::Scalar,
)
    requires
        ordered_field::<S::Scalar>(),
        orthogonal::<S::Scalar, Q>(kernel),
        marginalized(
            kernel,
            states,
            factors,
            priors,
            ids,
            Some(tolerance),
            front,
            Ok(report),
            after_states,
            after_factors,
            after_priors,
        ),
        gathered_spec(&front.layout, states, factors, priors, front.affected@) == Ok::<
            _,
            crate::error::SolverError,
        >(rows),
        exact(
            factored_spec(
                kernel,
                MatrixView::of_rows(rows),
                0,
                0,
                front.removed_dof as nat,
            )->Ok_0.0,
            front.removed_dof as int,
            tolerance,
        ),
    ensures
        left_cost(
            priors,
            after_priors,
            report.prior_rows,
            |c: int| x(front.removed_dof + c),
        ).at_most_spec(priors.constant.plus_spec(rows_cost(rows, x))),
{
    lemma_gathered_rows(&front.layout, states, factors, priors, front.affected@);
    lemma_front_order(&front, states.blocks(), all_incidence(factors, priors), ids);
    let removed = front.removed_dof as nat;
    let moved = |c: int| x(front.removed_dof + c);
    lemma_left_cost(
        kernel,
        states,
        factors,
        priors,
        ids,
        tolerance,
        front,
        report,
        after_states,
        after_factors,
        after_priors,
        rows,
        moved,
    );
    lemma_elimination_bounds_cost(kernel, rows, removed, tolerance, x);
    let reduced = reduced_spec(kernel, rows, removed, Some(tolerance))->Ok_0;
    assert(moved =~= (|c: int| x(removed + c)));
    lemma_plus_order(
        prior_cost(reduced.prior, moved).plus_spec(reduced.constant),
        rows_cost(rows, x),
        priors.constant,
    );
}

/// And for all values of the variables that stay there are values of the others at which the
/// graph costs just that.
pub proof fn lemma_marginalization_attains_cost<
    S: StateSchema,
    F: FactorSchema<S, Scalar = S::Scalar>,
    Q: PivotedQr<S::Scalar>,
>(
    kernel: Q,
    states: S,
    factors: F,
    priors: Priors<S::Scalar>,
    ids: Seq<BlockId>,
    tolerance: S::Scalar,
    front: Front,
    report: MarginalizationReport,
    after_states: S,
    after_factors: F,
    after_priors: Priors<S::Scalar>,
    rows: RowsView<S::Scalar>,
    x: spec_fn(int) -> S::Scalar,
) -> (best: spec_fn(int) -> S::Scalar)
    requires
        ordered_field::<S::Scalar>(),
        orthogonal::<S::Scalar, Q>(kernel),
        <S::Scalar as Real>::zero_spec().at_most_spec(tolerance),
        marginalized(
            kernel,
            states,
            factors,
            priors,
            ids,
            Some(tolerance),
            front,
            Ok(report),
            after_states,
            after_factors,
            after_priors,
        ),
        gathered_spec(&front.layout, states, factors, priors, front.affected@) == Ok::<
            _,
            crate::error::SolverError,
        >(rows),
        exact(
            factored_spec(
                kernel,
                MatrixView::of_rows(rows),
                0,
                0,
                front.removed_dof as nat,
            )->Ok_0.0,
            front.removed_dof as int,
            tolerance,
        ),
    ensures
        forall|j: int|
            front.removed_dof <= j < rows.dimension ==> #[trigger] best(j) == x(j),
        left_cost(
            priors,
            after_priors,
            report.prior_rows,
            |c: int| x(front.removed_dof + c),
        ) == priors.constant.plus_spec(rows_cost(rows, best)),
{
    lemma_gathered_rows(&front.layout, states, factors, priors, front.affected@);
    lemma_front_order(&front, states.blocks(), all_incidence(factors, priors), ids);
    let removed = front.removed_dof as nat;
    let moved = |c: int| x(front.removed_dof + c);
    lemma_left_cost(
        kernel,
        states,
        factors,
        priors,
        ids,
        tolerance,
        front,
        report,
        after_states,
        after_factors,
        after_priors,
        rows,
        moved,
    );
    assert(moved =~= (|c: int| x(removed + c)));
    lemma_elimination_attains_cost(kernel, rows, removed, tolerance, x)
}

/// What a marginalization reports adds up: the coordinates that went and those that stay are all
/// coordinates of the affected variables, no more rows were eliminated than coordinates went, and
/// the new prior has no more rows than coordinates stay.
pub proof fn lemma_report_adds_up<
    S: StateSchema,
    F: FactorSchema<S, Scalar = S::Scalar>,
    Q: PivotedQr<S::Scalar>,
>(
    kernel: Q,
    states: S,
    factors: F,
    priors: Priors<S::Scalar>,
    ids: Seq<BlockId>,
    tolerance: Option<S::Scalar>,
    front: Front,
    report: MarginalizationReport,
    after_states: S,
    after_factors: F,
    after_priors: Priors<S::Scalar>,
)
    requires
        marginalized(
            kernel,
            states,
            factors,
            priors,
            ids,
            tolerance,
            front,
            Ok(report),
            after_states,
            after_factors,
            after_priors,
        ),
    ensures
        report.removed_dof + report.separator_dof == front.layout.dimension,
        report.separator_dof == width_sum(
            staying(states.blocks(), all_incidence(factors, priors), ids),
        ),
        report.eliminated_rank <= report.removed_dof,
        report.prior_rows <= report.separator_dof,
{
    lemma_gathered_rows(&front.layout, states, factors, priors, front.affected@);
    lemma_front_order(&front, states.blocks(), all_incidence(factors, priors), ids);
    let rows = gathered_spec(&front.layout, states, factors, priors, front.affected@)->Ok_0;
    lemma_reduced_size(kernel, rows, front.removed_dof as nat, tolerance);
}

/// Whether none of some factors is over one of the given variables.
pub open spec fn untouched_by(all: Seq<Incidence>, ids: Seq<BlockId>) -> bool {
    forall|k: int, v: int, i: int|
        #![trigger all[k].variables[v], ids[i]]
        0 <= k < all.len() && 0 <= v < all[k].variables.len() && 0 <= i < ids.len()
            ==> all[k].variables[v].raw != ids[i].raw
}

proof fn lemma_none_kept(all: Seq<Incidence>, ids: Seq<BlockId>)
    ensures
        kept(all, listed(ids)).len() <= all.len(),
        kept(all, listed(ids)).len() == 0 <==> untouched_by(all, ids),
    decreases all.len(),
{
    reveal(Seq::filter);
    let remove = listed(ids);
    if all.len() > 0 {
        let shorter = all.drop_last();
        let last = all.last();
        lemma_none_kept(shorter, ids);
        if touches(last, remove) {
            let v = choose|v: int|
                0 <= v < last.variables.len() && remove.contains((#[trigger] last.variables[v]).raw);
            let i = choose|i: int| 0 <= i < ids.len() && (#[trigger] ids[i]).raw == last.variables[v].raw;
            assert(all[all.len() - 1].variables[v].raw == ids[i].raw);
        } else {
            assert forall|v: int, i: int|
                0 <= v < last.variables.len() && 0 <= i < ids.len() implies (
            #[trigger] last.variables[v]).raw != (#[trigger] ids[i]).raw by {
                assert(!remove.contains(last.variables[v].raw));
            }
            if untouched_by(shorter, ids) {
                assert forall|k: int, v: int, i: int|
                    #![trigger all[k].variables[v], ids[i]]
                    0 <= k < all.len() && 0 <= v < all[k].variables.len() && 0 <= i
                        < ids.len() implies all[k].variables[v].raw != ids[i].raw by {
                    if k < all.len() - 1 {
                        assert(shorter[k] == all[k]);
                        assert(shorter[k].variables[v].raw != ids[i].raw);
                    }
                }
            }
            if untouched_by(all, ids) {
                assert forall|k: int, v: int, i: int|
                    #![trigger shorter[k].variables[v], ids[i]]
                    0 <= k < shorter.len() && 0 <= v < shorter[k].variables.len() && 0 <= i
                        < ids.len() implies shorter[k].variables[v].raw != ids[i].raw by {
                    assert(all[k].variables[v].raw != ids[i].raw);
                }
            }
        }
    }
}

/// A marginalization absorbs factors, or priors, exactly where some are over a variable that goes.
pub proof fn lemma_absorbed<S: StateSchema, F: FactorSchema<S, Scalar = S::Scalar>>(
    states: S,
    factors: F,
    priors: Priors<S::Scalar>,
    ids: Seq<BlockId>,
    front: &Front,
    reduced: ReducedView<S::Scalar>,
)
    requires
        factors.incidence().len() <= usize::MAX,
        prior_incidence(priors).len() <= usize::MAX,
    ensures
        ({
            let report = report_spec(states, factors, priors, ids, front, reduced);
            &&& report.absorbed_factors <= factors.incidence().len()
            &&& report.absorbed_factors == 0 <==> untouched_by(factors.incidence(), ids)
            &&& report.absorbed_priors <= prior_incidence(priors).len()
            &&& report.absorbed_priors == 0 <==> untouched_by(prior_incidence(priors), ids)
        }),
{
    lemma_none_kept(factors.incidence(), ids);
    lemma_none_kept(prior_incidence(priors), ids);
}

/// The covariance that assembled information implies is the part of the inverse of that
/// information that belongs to the selected coordinates.
pub proof fn lemma_implied_covariance<R: Real, K: Triangular<R>>(
    kernel: K,
    information: NormalView<R>,
    columns: Seq<usize>,
    tolerance: R,
    i: int,
    j: int,
    w: spec_fn(int) -> R,
)
    requires
        ordered_field::<R>(),
        is_exact::<R, K>(kernel),
        0 < information.dimension <= usize::MAX,
        columns.len() <= usize::MAX,
        forall|c: int| 0 <= c < columns.len() ==> #[trigger] columns[c] < information.dimension,
        implied_spec(kernel, information, columns, tolerance) is Ok,
        0 <= i < columns.len(),
        0 <= j < columns.len(),
        inverse_column(
            information.dimension as int,
            lower_triangle(information.dimension, information.normal),
            w,
            columns[j] as int,
        ),
    ensures
        implied_spec(kernel, information, columns, tolerance)->Ok_0[j * columns.len() + i] == w(
            columns[i] as int,
        ),
{
    let lower = lower_triangle(information.dimension, information.normal);
    let factor = kernel.cholesky_spec(information.dimension as usize, lower)->0;
    lemma_covariance_is_inverse(
        kernel,
        lower,
        factor,
        information.dimension,
        columns,
        i,
        j,
        w,
    );
}

/// Which controls are usable: tolerances are finite and not negative, cutoffs lie in `[0, 1)`, an
/// optimizer may take a step, and damping lies within its positive bounds.
pub proof fn lemma_usable_controls<R: Real>(
    covariance: CovarianceOptions<R>,
    cutoff: R,
    optimize: OptimizeOptions<R>,
    damped: LmOptions<R>,
)
    requires
        ordered_field::<R>(),
    ensures
        ({
            let zero = R::zero_spec();
            let one = R::one_spec();
            let pivot = covariance.relative_pivot_tolerance;
            &&& covariance.valid() <==> pivot.finite_spec() && zero.at_most_spec(pivot)
                && pivot.below_spec(one)
            &&& (MarginalizationOptions { relative_rank_tolerance: Some(cutoff) }).valid()
                <==> cutoff.finite_spec() && zero.at_most_spec(cutoff) && cutoff.below_spec(one)
            &&& (MarginalizationOptions::<R> { relative_rank_tolerance: None }).valid()
            &&& optimize.valid() <==> {
                &&& optimize.max_iterations > 0
                &&& optimize.gradient_tolerance.finite_spec()
                &&& zero.at_most_spec(optimize.gradient_tolerance)
                &&& optimize.step_tolerance.finite_spec()
                &&& zero.at_most_spec(optimize.step_tolerance)
                &&& optimize.cost_tolerance.finite_spec()
                &&& zero.at_most_spec(optimize.cost_tolerance)
            }
            &&& damped.valid() <==> {
                &&& damped.max_trials > 0
                &&& damped.initial_damping.finite_spec()
                &&& damped.min_damping.finite_spec()
                &&& damped.max_damping.finite_spec()
                &&& damped.min_column_norm.finite_spec()
                &&& damped.acceptance_threshold.finite_spec()
                &&& zero.below_spec(damped.min_damping)
                &&& damped.min_damping.at_most_spec(damped.initial_damping)
                &&& damped.initial_damping.at_most_spec(damped.max_damping)
                &&& zero.below_spec(damped.min_column_norm)
                &&& zero.below_spec(damped.acceptance_threshold)
                &&& damped.acceptance_threshold.below_spec(one)
            }
        }),
{
    let zero = R::zero_spec();
    let one = R::one_spec();
    let pivot = covariance.relative_pivot_tolerance;
    lemma_order(pivot, zero, one);
    lemma_order(zero, pivot, one);
    lemma_order(pivot, one, one);
    lemma_order(cutoff, zero, one);
    lemma_order(zero, cutoff, one);
    lemma_order(cutoff, one, one);
    lemma_order(optimize.gradient_tolerance, zero, one);
    lemma_order(optimize.step_tolerance, zero, one);
    lemma_order(optimize.cost_tolerance, zero, one);
    lemma_order(zero, damped.min_damping, damped.initial_damping);
    lemma_order(zero, damped.initial_damping, damped.max_damping);
    lemma_order(damped.initial_damping, damped.min_damping, zero);
    lemma_order(damped.max_damping, damped.initial_damping, zero);
    lemma_order(zero, damped.max_damping, zero);
    lemma_order(zero, damped.min_column_norm, zero);
    lemma_order(zero, damped.acceptance_threshold, zero);
    lemma_order(damped.acceptance_threshold, one, zero);
}

} // verus!
