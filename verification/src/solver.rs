//! A graph with a method to optimize it.
use crate::access::{FactorAccess, PoolAccess, StateAccess, StateStore};
use crate::backend::LeastSquaresBackend;
use crate::covariance::{CovarianceOptimizer, CovarianceOptions};
use crate::elimination::PivotedQr;
use crate::error::{KeyError, SolverError};
use crate::factor_store::FactorStore;
use crate::factors::{Factor, FactorBatch};
use crate::families::FactorSchema;
use crate::gauss_newton::{optimized, GaussNewton};
use crate::kernels::Triangular;
use crate::key::{BatchKey, BlockId, FactorKey, StateKey};
use crate::marginalization::{ran, MarginalizationOptions, MarginalizationReport};
use crate::optimization::{cost_spec, OptimizeOptions, OptimizeReport, Optimizer};
use crate::problem::{
    batch_added, factor_added, factor_removed, optimized_and_queried, payload_added, state_added,
    state_set, Problem,
};
use crate::priors::Priors;
use crate::scalar::Real;
use crate::states::StateSchema;
use crate::storage::{BatchPool, FactorPool, StatePool};
use crate::variable::Variable;
use vstd::prelude::*;

verus! {

/// A graph with a Gauss-Newton method whose storage it keeps between calls.
pub struct Solver<S: StateSchema, F, Q, K, B> {
    pub problem: Problem<S, F, Q, K>,
    pub optimizer: GaussNewton<B>,
}

impl<
    S: StateSchema,
    F: FactorSchema<S, Scalar = S::Scalar>,
    Q: PivotedQr<S::Scalar>,
    K: Triangular<S::Scalar>,
    B: LeastSquaresBackend<Scalar = S::Scalar>,
> Solver<S, F, Q, K, B> {
    pub open spec fn wf(&self) -> bool {
        self.problem.wf() && self.optimizer.work.wf()
    }

    /// Keep a graph together with a backend to optimize it.
    pub fn new(problem: Problem<S, F, Q, K>, backend: B) -> (solver: Self)
        requires
            problem.wf(),
            backend.wf(),
        ensures
            solver.wf(),
            solver.problem == problem,
            solver.optimizer.work.backend == backend,
    {
        Solver { problem, optimizer: GaussNewton::new(backend) }
    }

    /// Store a variable in its family.
    pub fn add<T: Variable, I>(&mut self, value: T) -> (key: StateKey<T>) where
        S: StateAccess<T, I>,

        requires
            old(self).wf(),
            PoolAccess::<StatePool<T>, I>::pool_spec(&old(self).problem.states).entries.room(1),
        ensures
            final(self).wf(),
            final(self).optimizer == old(self).optimizer,
            state_added::<S, F, Q, K, T, I>(old(self).problem, final(self).problem, value, key),
    {
        self.problem.add(value)
    }

    /// Borrow the current estimate behind a handle.
    pub fn get<T: Variable, I>(&self, key: StateKey<T>) -> (found: Result<&T, KeyError>) where
        S: StateAccess<T, I>,

        requires
            self.wf(),
        ensures
            match found {
                Ok(value) => StateStore::<T, I>::get_spec(&self.problem.states, key) == Ok::<
                    T,
                    KeyError,
                >(*value),
                Err(error) => StateStore::<T, I>::get_spec(&self.problem.states, key) == Err::<
                    T,
                    KeyError,
                >(error),
            },
    {
        self.problem.get(key)
    }

    /// Store an ordinary factor once all its variables are known to be stored.
    pub fn add_factor<T: Factor<S, Scalar = S::Scalar>, I>(&mut self, factor: T) -> (added: Result<
        FactorKey<T>,
        SolverError,
    >) where F: FactorAccess<S, FactorPool<T>, I>
        requires
            old(self).wf(),
            PoolAccess::<FactorPool<T>, I>::pool_spec(&old(self).problem.factors).entries.room(1),
        ensures
            final(self).wf(),
            final(self).optimizer == old(self).optimizer,
            factor_added::<S, F, Q, K, T, I>(
                old(self).problem,
                final(self).problem,
                factor,
                added,
            ),
    {
        self.problem.add_factor(factor)
    }

    /// Start an empty batch. Variables are checked as payloads are added.
    pub fn add_batch<M: FactorBatch<S, Scalar = S::Scalar>, I>(&mut self, model: M) -> (key:
        BatchKey<M>) where F: FactorAccess<S, BatchPool<M, M::Factor>, I>
        requires
            old(self).wf(),
            PoolAccess::<BatchPool<M, M::Factor>, I>::pool_spec(
                &old(self).problem.factors,
            ).batches.room(1),
        ensures
            final(self).wf(),
            final(self).optimizer == old(self).optimizer,
            batch_added::<S, F, Q, K, M, I>(old(self).problem, final(self).problem, model, key),
    {
        self.problem.add_batch(model)
    }

    /// Add a payload to a batch once the batch and all variables are known to be stored.
    pub fn add_factor_to<M: FactorBatch<S, Scalar = S::Scalar>, I>(
        &mut self,
        batch: BatchKey<M>,
        factor: M::Factor,
    ) -> (added: Result<FactorKey<M::Factor>, SolverError>) where
        F: FactorAccess<S, BatchPool<M, M::Factor>, I>,

        requires
            old(self).wf(),
            PoolAccess::<BatchPool<M, M::Factor>, I>::pool_spec(
                &old(self).problem.factors,
            ).locations.room(1),
        ensures
            final(self).wf(),
            final(self).optimizer == old(self).optimizer,
            payload_added::<S, F, Q, K, M, I>(
                old(self).problem,
                final(self).problem,
                batch,
                factor,
                added,
            ),
    {
        self.problem.add_factor_to(batch, factor)
    }

    /// Evaluate the cost of one ordinary or batched factor.
    pub fn factor_cost<P, I>(&self, factor: FactorKey<P>) -> (cost: Result<
        S::Scalar,
        SolverError,
    >) where F: FactorStore<S, P, I>
        requires
            self.wf(),
        ensures
            cost == FactorStore::<S, P, I>::factor_cost_spec(
                &self.problem.factors,
                self.problem.states.reading(),
                factor,
            ),
    {
        self.problem.factor_cost(factor)
    }

    /// Remove one ordinary or batched factor; all others keep their handles.
    pub fn remove_factor<P, I>(&mut self, factor: FactorKey<P>) -> (removed: Result<
        (),
        SolverError,
    >) where F: FactorStore<S, P, I>
        requires
            old(self).wf(),
        ensures
            final(self).wf(),
            final(self).optimizer == old(self).optimizer,
            factor_removed::<S, F, Q, K, P, I>(
                old(self).problem,
                final(self).problem,
                factor,
                removed,
            ),
    {
        self.problem.remove_factor(factor)
    }

    /// Optimize by full-step Gauss-Newton with default stopping controls.
    pub fn optimize(&mut self) -> (outcome: Result<OptimizeReport<S::Scalar>, SolverError>)
        requires
            old(self).wf(),
        ensures
            final(self).wf(),
            final(self).problem.same_graph(&old(self).problem),
            optimized(
                old(self).optimizer,
                final(self).optimizer,
                old(self).problem.states,
                old(self).problem.factors,
                old(self).problem.priors,
                OptimizeOptions::defaults_spec(),
                outcome,
                final(self).problem.states.accepted(),
            ),
            outcome matches Ok(report) ==> {
                &&& report.iterations <= 50
                &&& cost_spec(
                    final(self).problem.states,
                    final(self).problem.factors,
                    final(self).problem.priors,
                ) matches Ok(cost) && report.final_cost == cost.plus_spec(
                    old(self).problem.priors.constant,
                )
            },
    {
        let options = OptimizeOptions::<S::Scalar>::defaults();
        self.problem.optimize_with(&mut self.optimizer, &options)
    }

    /// Optimize with another method and explicit stopping controls.
    pub fn optimize_with<O: Optimizer<S, F>>(
        &mut self,
        method: &mut O,
        options: &OptimizeOptions<S::Scalar>,
    ) -> (outcome: Result<OptimizeReport<S::Scalar>, SolverError>)
        requires
            old(self).wf(),
            old(method).ready(),
        ensures
            final(self).wf(),
            final(method).ready(),
            final(self).optimizer == old(self).optimizer,
            final(self).problem.same_graph(&old(self).problem),
            O::optimized(
                *old(method),
                *final(method),
                old(self).problem.states,
                old(self).problem.factors,
                old(self).problem.priors,
                *options,
                outcome,
                final(self).problem.states.accepted(),
            ),
            outcome matches Ok(report) ==> {
                &&& report.iterations <= options.max_iterations
                &&& cost_spec(
                    final(self).problem.states,
                    final(self).problem.factors,
                    final(self).problem.priors,
                ) matches Ok(cost) && report.final_cost == cost.plus_spec(
                    old(self).problem.priors.constant,
                )
            },
    {
        self.problem.optimize_with(method, options)
    }

    /// Eliminate variables, and replace the factors and priors over them by one prior over
    /// the variables that those share. A failed call changes nothing.
    pub fn marginalize(&mut self, blocks: &[BlockId]) -> (outcome: Result<
        MarginalizationReport,
        SolverError,
    >)
        requires
            old(self).wf(),
            old(self).problem.priors.entries.room(1),
        ensures
            final(self).wf(),
            final(self).optimizer == old(self).optimizer,
            ran(
                old(self).problem.marginalizer.kernel,
                old(self).problem.states,
                old(self).problem.factors,
                old(self).problem.priors,
                blocks@,
                (MarginalizationOptions { relative_rank_tolerance: None }),
                outcome,
                final(self).problem.states,
                final(self).problem.factors,
                final(self).problem.priors,
            ),
    {
        self.problem.marginalize(blocks)
    }

    /// Replace the accepted estimate behind a handle.
    pub fn set<T: Variable, I>(&mut self, key: StateKey<T>, value: T) -> (set: Result<
        (),
        KeyError,
    >) where S: StateAccess<T, I>
        requires
            old(self).wf(),
        ensures
            final(self).wf(),
            final(self).optimizer == old(self).optimizer,
            state_set::<S, F, Q, K, T, I>(
                old(self).problem,
                final(self).problem,
                key,
                value,
                set,
            ),
    {
        self.problem.set(key, value)
    }

    /// Evaluate the joint covariance of some variables with default rank controls.
    pub fn joint_covariance(&mut self, blocks: &[BlockId]) -> (evaluated: Result<
        &Vec<S::Scalar>,
        SolverError,
    >)
        requires
            old(self).wf(),
        ensures
            final(self).wf(),
            final(self).optimizer == old(self).optimizer,
            final(self).problem.same_graph(&old(self).problem),
            final(self).problem.states.accepted() == old(self).problem.states.accepted(),
            old(self).problem.query_laid_out(
                &final(self).problem,
                CovarianceOptions::defaults_spec(),
            ),
            ({
                let result = old(self).problem.queried(
                    &final(self).problem,
                    blocks@,
                    CovarianceOptions::defaults_spec(),
                );
                match evaluated {
                    Err(error) => result == Err::<Seq<S::Scalar>, SolverError>(error),
                    Ok(values) => result == Ok::<Seq<S::Scalar>, SolverError>(values@),
                }
            }),
    {
        self.problem.joint_covariance(blocks)
    }

    /// Optimize with a method, then extract the joint covariance of some variables.
    pub fn optimize_with_covariance<O: CovarianceOptimizer<S, F, K>>(
        &mut self,
        method: &mut O,
        options: &OptimizeOptions<S::Scalar>,
        blocks: &[BlockId],
        covariance_options: &CovarianceOptions<S::Scalar>,
    ) -> (outcome: Result<(OptimizeReport<S::Scalar>, &Vec<S::Scalar>), SolverError>)
        requires
            old(self).wf(),
            old(method).ready(),
        ensures
            final(self).wf(),
            final(method).ready(),
            final(self).optimizer == old(self).optimizer,
            final(self).problem.same_graph(&old(self).problem),
            if !covariance_options.valid() {
                &&& outcome == Err::<(OptimizeReport<S::Scalar>, &Vec<S::Scalar>), SolverError>(
                    SolverError::InvalidRankTolerance,
                )
                &&& final(self).problem == old(self).problem
                &&& *final(method) == *old(method)
            } else {
                exists|
                    middle: O,
                    p: Priors<S::Scalar>,
                    run: Result<OptimizeReport<S::Scalar>, SolverError>,
                | #[trigger]
                    optimized_and_queried(
                        old(self).problem,
                        *old(method),
                        *options,
                        middle,
                        p,
                        run,
                        *final(method),
                        final(self).problem,
                        blocks@,
                        *covariance_options,
                        outcome,
                    )
            },
    {
        self.problem.optimize_with_covariance(method, options, blocks, covariance_options)
    }
}

} // verus!
