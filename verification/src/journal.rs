//! A graph with a journal of its changes. Plain graphs carry none.
use crate::access::{FactorAccess, PoolAccess, StateAccess};
use crate::backend::{DampedLeastSquaresBackend, LeastSquaresBackend};
use crate::covariance::{CovarianceBackend, CovarianceOptimizer, CovarianceOptions};
use crate::elimination::PivotedQr;
use crate::error::{KeyError, SolverError};
use crate::factor_store::FactorStore;
use crate::factors::{Factor, FactorBatch};
use crate::families::FactorSchema;
use crate::gauss_newton::GaussNewton;
use crate::kernels::Triangular;
use crate::key::{BatchKey, BlockId, FactorId, FactorKey, StateKey};
use crate::levenberg_marquardt::LevenbergMarquardt;
use crate::marginalization::{ran, MarginalizationOptions, MarginalizationReport};
use crate::optimization::{cost_spec, OptimizeOptions, OptimizeReport, Optimizer};
use crate::problem::{
    batch_added, batch_removed, factor_added, factor_removed, optimized_and_queried,
    payload_added, state_added, state_set, Problem,
};
use crate::priors::Priors;
use crate::scalar::Real;
use crate::states::StateSchema;
use crate::storage::{BatchPool, FactorPool, StatePool};
use crate::variable::Variable;
use vstd::prelude::*;

verus! {

/// A successful change to a graph.
#[derive(Debug, Clone, Copy, PartialEq, Eq, Structural)]
pub enum ProblemChange {
    /// A variable was stored.
    StateAdded(BlockId),
    /// An accepted estimate was replaced.
    StateSet(BlockId),
    /// An ordinary or batched factor was stored.
    FactorAdded(FactorId),
    /// A factor was removed.
    FactorRemoved(FactorId),
    /// Whatever was derived from the graph must be derived afresh; earlier changes no longer
    /// matter.
    Rebuild,
}

/// A graph that can only be changed through its journal.
///
/// Changes to data that evaluators share from outside need [`TrackedProblem::invalidate_all`].
pub struct TrackedProblem<S: StateSchema, F, Q, K> {
    pub problem: Problem<S, F, Q, K>,
    pub changes: Vec<ProblemChange>,
}

impl<
    S: StateSchema,
    F: FactorSchema<S, Scalar = S::Scalar>,
    Q: PivotedQr<S::Scalar>,
    K: Triangular<S::Scalar>,
> TrackedProblem<S, F, Q, K> {
    pub open spec fn wf(&self) -> bool {
        self.problem.wf()
    }

    /// The journal with one more change.
    pub open spec fn records(&self, before: &Self, change: ProblemChange) -> bool {
        self.changes@ == before.changes@.push(change)
    }

    /// The journal demands a rebuild and nothing else.
    pub open spec fn invalidated(&self) -> bool {
        self.changes@ == seq![ProblemChange::Rebuild]
    }

    /// Begin to track a graph; what is derived from it first must be derived afresh.
    pub fn new(problem: Problem<S, F, Q, K>) -> (watched: Self)
        requires
            problem.wf(),
        ensures
            watched.wf(),
            watched.problem == problem,
            watched.invalidated(),
    {
        let mut changes: Vec<ProblemChange> = Vec::new();
        changes.push(ProblemChange::Rebuild);
        let watched = TrackedProblem { problem, changes };
        assert(watched.changes@ =~= seq![ProblemChange::Rebuild]);
        watched
    }

    /// Stop tracking and return the graph.
    pub fn into_inner(self) -> (problem: Problem<S, F, Q, K>)
        ensures
            problem == self.problem,
    {
        self.problem
    }

    /// The changes recorded so far.
    pub fn changes(&self) -> (changes: &[ProblemChange])
        ensures
            changes@ == self.changes@,
    {
        self.changes.as_slice()
    }

    /// The graph, for reading.
    pub fn problem(&self) -> (problem: &Problem<S, F, Q, K>)
        ensures
            *problem == self.problem,
    {
        &self.problem
    }

    /// Demand a rebuild, which supersedes all recorded changes.
    pub fn invalidate_all(&mut self)
        ensures
            final(self).problem == old(self).problem,
            final(self).invalidated(),
    {
        self.changes.clear();
        self.changes.push(ProblemChange::Rebuild);
        assert(self.changes@ =~= seq![ProblemChange::Rebuild]);
    }

    /// Store a variable and record its identity.
    pub fn add<T: Variable, I>(&mut self, value: T) -> (key: StateKey<T>) where
        S: StateAccess<T, I>,

        requires
            old(self).wf(),
            PoolAccess::<StatePool<T>, I>::pool_spec(&old(self).problem.states).entries.room(1),
        ensures
            final(self).wf(),
            state_added::<S, F, Q, K, T, I>(old(self).problem, final(self).problem, value, key),
            final(self).records(old(self), ProblemChange::StateAdded(BlockId { raw: key.raw })),
    {
        let key = self.problem.add(value);
        self.changes.push(ProblemChange::StateAdded(key.block_id()));
        key
    }

    /// Replace an estimate, recording only successful edits.
    pub fn set<T: Variable, I>(&mut self, key: StateKey<T>, value: T) -> (set: Result<
        (),
        KeyError,
    >) where S: StateAccess<T, I>
        requires
            old(self).wf(),
        ensures
            final(self).wf(),
            state_set::<S, F, Q, K, T, I>(
                old(self).problem,
                final(self).problem,
                key,
                value,
                set,
            ),
            match set {
                Ok(_) => final(self).records(
                    old(self),
                    ProblemChange::StateSet(BlockId { raw: key.raw }),
                ),
                Err(_) => final(self).changes == old(self).changes,
            },
    {
        let set = self.problem.set(key, value);
        if set.is_ok() {
            self.changes.push(ProblemChange::StateSet(key.block_id()));
        }
        set
    }

    /// Store an ordinary factor, recording only successful edits.
    pub fn add_factor<T: Factor<S, Scalar = S::Scalar>, I>(&mut self, factor: T) -> (added: Result<
        FactorKey<T>,
        SolverError,
    >) where F: FactorAccess<S, FactorPool<T>, I>
        requires
            old(self).wf(),
            PoolAccess::<FactorPool<T>, I>::pool_spec(&old(self).problem.factors).entries.room(1),
        ensures
            final(self).wf(),
            factor_added::<S, F, Q, K, T, I>(
                old(self).problem,
                final(self).problem,
                factor,
                added,
            ),
            match added {
                Ok(key) => final(self).records(
                    old(self),
                    ProblemChange::FactorAdded(FactorId { raw: key.raw }),
                ),
                Err(_) => final(self).changes == old(self).changes,
            },
    {
        match self.problem.add_factor(factor) {
            Ok(key) => {
                self.changes.push(ProblemChange::FactorAdded(key.factor_id()));
                Ok(key)
            },
            Err(error) => Err(error),
        }
    }

    /// Start an empty batch; as it contributes nothing, nothing is recorded.
    pub fn add_batch<M: FactorBatch<S, Scalar = S::Scalar>, I>(&mut self, model: M) -> (key:
        BatchKey<M>) where F: FactorAccess<S, BatchPool<M, M::Factor>, I>
        requires
            old(self).wf(),
            PoolAccess::<BatchPool<M, M::Factor>, I>::pool_spec(
                &old(self).problem.factors,
            ).batches.room(1),
        ensures
            final(self).wf(),
            batch_added::<S, F, Q, K, M, I>(old(self).problem, final(self).problem, model, key),
            final(self).changes == old(self).changes,
    {
        self.problem.add_batch(model)
    }

    /// Retire an empty batch; as it contributed nothing, nothing is recorded.
    pub fn remove_batch<M: FactorBatch<S, Scalar = S::Scalar>, I>(&mut self, batch: BatchKey<M>) -> (
        removed: Result<(), SolverError>) where F: FactorAccess<S, BatchPool<M, M::Factor>, I>
        requires
            old(self).wf(),
        ensures
            final(self).wf(),
            batch_removed::<S, F, Q, K, M, I>(
                old(self).problem,
                final(self).problem,
                batch,
                removed,
            ),
            final(self).changes == old(self).changes,
    {
        self.problem.remove_batch(batch)
    }

    /// Add a payload to a batch, recording only successful edits.
    pub fn add_factor_to<M: FactorBatch<S, Scalar = S::Scalar>, I>(
        &mut self,
        batch: BatchKey<M>,
        factor: M::Factor,
    ) -> (added: Result<FactorKey<M::Factor>, SolverError>) where
        F: FactorAccess<S, BatchPool<M, M::Factor>, I>,

        requires
            old(self).wf(),
            PoolAccess::<BatchPool<M, M::Factor>, I>::pool_spec(
                &old(self).problem.factors,
            ).locations.room(1),
        ensures
            final(self).wf(),
            payload_added::<S, F, Q, K, M, I>(
                old(self).problem,
                final(self).problem,
                batch,
                factor,
                added,
            ),
            match added {
                Ok(key) => final(self).records(
                    old(self),
                    ProblemChange::FactorAdded(FactorId { raw: key.raw }),
                ),
                Err(_) => final(self).changes == old(self).changes,
            },
    {
        match self.problem.add_factor_to(batch, factor) {
            Ok(key) => {
                self.changes.push(ProblemChange::FactorAdded(key.factor_id()));
                Ok(key)
            },
            Err(error) => Err(error),
        }
    }

    /// Remove a factor, recording only successful edits.
    pub fn remove_factor<P, I>(&mut self, factor: FactorKey<P>) -> (removed: Result<
        (),
        SolverError,
    >) where F: FactorStore<S, P, I>
        requires
            old(self).wf(),
        ensures
            final(self).wf(),
            factor_removed::<S, F, Q, K, P, I>(
                old(self).problem,
                final(self).problem,
                factor,
                removed,
            ),
            match removed {
                Ok(_) => final(self).records(
                    old(self),
                    ProblemChange::FactorRemoved(FactorId { raw: factor.raw }),
                ),
                Err(_) => final(self).changes == old(self).changes,
            },
    {
        let removed = self.problem.remove_factor(factor);
        if removed.is_ok() {
            self.changes.push(ProblemChange::FactorRemoved(factor.factor_id()));
        }
        removed
    }

    /// Eliminate variables; where that succeeds and there were any, demand a rebuild.
    pub fn marginalize_with(
        &mut self,
        blocks: &[BlockId],
        options: &MarginalizationOptions<S::Scalar>,
    ) -> (outcome: Result<MarginalizationReport, SolverError>)
        requires
            old(self).wf(),
            old(self).problem.priors.entries.room(1),
        ensures
            final(self).wf(),
            final(self).problem.covariance == old(self).problem.covariance,
            ran(
                old(self).problem.marginalizer.kernel,
                old(self).problem.states,
                old(self).problem.factors,
                old(self).problem.priors,
                blocks@,
                *options,
                outcome,
                final(self).problem.states,
                final(self).problem.factors,
                final(self).problem.priors,
            ),
            if outcome is Ok && blocks@.len() > 0 {
                final(self).invalidated()
            } else {
                final(self).changes == old(self).changes
            },
    {
        let outcome = self.problem.marginalize_with(blocks, options);
        if outcome.is_ok() && blocks.len() > 0 {
            self.invalidate_all();
        }
        outcome
    }

    /// Eliminate variables with default rank controls.
    pub fn marginalize(&mut self, blocks: &[BlockId]) -> (outcome: Result<
        MarginalizationReport,
        SolverError,
    >)
        requires
            old(self).wf(),
            old(self).problem.priors.entries.room(1),
        ensures
            final(self).wf(),
            final(self).problem.covariance == old(self).problem.covariance,
            ran(
                old(self).problem.marginalizer.kernel,
                old(self).problem.states,
                old(self).problem.factors,
                old(self).problem.priors,
                blocks@,
                (MarginalizationOptions { relative_rank_tolerance: None }),
                outcome,
                final(self).problem.states,
                final(self).problem.factors,
                final(self).problem.priors,
            ),
            if outcome is Ok && blocks@.len() > 0 {
                final(self).invalidated()
            } else {
                final(self).changes == old(self).changes
            },
    {
        let options = MarginalizationOptions::<S::Scalar>::defaults();
        self.marginalize_with(blocks, &options)
    }

    /// Evaluate the joint covariance of some variables; estimates and journal stay.
    pub fn joint_covariance_with(
        &mut self,
        blocks: &[BlockId],
        options: &CovarianceOptions<S::Scalar>,
    ) -> (evaluated: Result<&Vec<S::Scalar>, SolverError>)
        requires
            old(self).wf(),
        ensures
            final(self).wf(),
            final(self).changes == old(self).changes,
            final(self).problem.same_graph(&old(self).problem),
            final(self).problem.states.accepted() == old(self).problem.states.accepted(),
            old(self).problem.query_laid_out(&final(self).problem, *options),
            ({
                let result = old(self).problem.queried(&final(self).problem, blocks@, *options);
                match evaluated {
                    Err(error) => result == Err::<Seq<S::Scalar>, SolverError>(error),
                    Ok(values) => result == Ok::<Seq<S::Scalar>, SolverError>(values@),
                }
            }),
    {
        self.problem.joint_covariance_with(blocks, options)
    }

    /// Evaluate the joint covariance of some variables with default rank controls.
    pub fn joint_covariance(&mut self, blocks: &[BlockId]) -> (evaluated: Result<
        &Vec<S::Scalar>,
        SolverError,
    >)
        requires
            old(self).wf(),
        ensures
            final(self).wf(),
            final(self).changes == old(self).changes,
            final(self).problem.same_graph(&old(self).problem),
            final(self).problem.states.accepted() == old(self).problem.states.accepted(),
            old(self).problem.query_laid_out(
                &final(self).problem,
                CovarianceOptions::defaults_spec(),
            ),
            ({
                let result = old(self).problem.queried(
                    &final(self).problem,
                    blocks@,
                    CovarianceOptions::defaults_spec(),
                );
                match evaluated {
                    Err(error) => result == Err::<Seq<S::Scalar>, SolverError>(error),
                    Ok(values) => result == Ok::<Seq<S::Scalar>, SolverError>(values@),
                }
            }),
    {
        self.problem.joint_covariance(blocks)
    }
}

/// Plain and watched graphs, as far as methods solve them.
pub trait BatchProblem<
    S: StateSchema,
    F: FactorSchema<S, Scalar = S::Scalar>,
    Q: PivotedQr<S::Scalar>,
    K: Triangular<S::Scalar>,
>: Sized {
    spec fn ready(&self) -> bool;

    spec fn graph(&self) -> Problem<S, F, Q, K>;

    /// Nobody who watches the graph relies on what held before.
    spec fn reset(&self) -> bool;

    /// Optimize the graph. Watchers are told before that, so also where it fails.
    fn run_batch<O: Optimizer<S, F>>(
        &mut self,
        solver: &mut O,
        options: &OptimizeOptions<S::Scalar>,
    ) -> (outcome: Result<OptimizeReport<S::Scalar>, SolverError>)
        requires
            old(self).ready(),
            old(solver).ready(),
        ensures
            final(self).ready(),
            final(solver).ready(),
            final(self).reset(),
            final(self).graph().same_graph(&old(self).graph()),
            final(self).graph().covariance == old(self).graph().covariance,
            O::optimized(
                *old(solver),
                *final(solver),
                old(self).graph().states,
                old(self).graph().factors,
                old(self).graph().priors,
                *options,
                outcome,
                final(self).graph().states.accepted(),
            ),
            outcome matches Ok(report) ==> {
                &&& report.iterations <= options.max_iterations
                &&& cost_spec(
                    final(self).graph().states,
                    final(self).graph().factors,
                    final(self).graph().priors,
                ) matches Ok(cost) && report.final_cost == cost.plus_spec(
                    old(self).graph().priors.constant,
                )
            },
    ;

    /// Optimize the graph, then extract the joint covariance of some variables.
    fn run_batch_with_covariance<O: CovarianceOptimizer<S, F, K>>(
        &mut self,
        solver: &mut O,
        options: &OptimizeOptions<S::Scalar>,
        blocks: &[BlockId],
        covariance_options: &CovarianceOptions<S::Scalar>,
    ) -> (outcome: Result<(OptimizeReport<S::Scalar>, &Vec<S::Scalar>), SolverError>)
        requires
            old(self).ready(),
            old(solver).ready(),
        ensures
            final(self).ready(),
            final(solver).ready(),
            final(self).reset(),
            final(self).graph().same_graph(&old(self).graph()),
            if !covariance_options.valid() {
                &&& outcome == Err::<(OptimizeReport<S::Scalar>, &Vec<S::Scalar>), SolverError>(
                    SolverError::InvalidRankTolerance,
                )
                &&& final(self).graph() == old(self).graph()
                &&& *final(solver) == *old(solver)
            } else {
                exists|
                    middle: O,
                    p: Priors<S::Scalar>,
                    run: Result<OptimizeReport<S::Scalar>, SolverError>,
                | #[trigger]
                    optimized_and_queried(
                        old(self).graph(),
                        *old(solver),
                        *options,
                        middle,
                        p,
                        run,
                        *final(solver),
                        final(self).graph(),
                        blocks@,
                        *covariance_options,
                        outcome,
                    )
            },
    ;
}

impl<
    S: StateSchema,
    F: FactorSchema<S, Scalar = S::Scalar>,
    Q: PivotedQr<S::Scalar>,
    K: Triangular<S::Scalar>,
> BatchProblem<S, F, Q, K> for Problem<S, F, Q, K> {
    open spec fn ready(&self) -> bool {
        self.wf()
    }

    open spec fn graph(&self) -> Problem<S, F, Q, K> {
        *self
    }

    open spec fn reset(&self) -> bool {
        true
    }

    fn run_batch<O: Optimizer<S, F>>(
        &mut self,
        solver: &mut O,
        options: &OptimizeOptions<S::Scalar>,
    ) -> (outcome: Result<OptimizeReport<S::Scalar>, SolverError>) {
        self.optimize_with(solver, options)
    }

    fn run_batch_with_covariance<O: CovarianceOptimizer<S, F, K>>(
        &mut self,
        solver: &mut O,
        options: &OptimizeOptions<S::Scalar>,
        blocks: &[BlockId],
        covariance_options: &CovarianceOptions<S::Scalar>,
    ) -> (outcome: Result<(OptimizeReport<S::Scalar>, &Vec<S::Scalar>), SolverError>) {
        self.optimize_with_covariance(solver, options, blocks, covariance_options)
    }
}

impl<
    S: StateSchema,
    F: FactorSchema<S, Scalar = S::Scalar>,
    Q: PivotedQr<S::Scalar>,
    K: Triangular<S::Scalar>,
> BatchProblem<S, F, Q, K> for TrackedProblem<S, F, Q, K> {
    open spec fn ready(&self) -> bool {
        self.wf()
    }

    open spec fn graph(&self) -> Problem<S, F, Q, K> {
        self.problem
    }

    open spec fn reset(&self) -> bool {
        self.invalidated()
    }

    fn run_batch<O: Optimizer<S, F>>(
        &mut self,
        solver: &mut O,
        options: &OptimizeOptions<S::Scalar>,
    ) -> (outcome: Result<OptimizeReport<S::Scalar>, SolverError>) {
        self.invalidate_all();
        self.problem.optimize_with(solver, options)
    }

    fn run_batch_with_covariance<O: CovarianceOptimizer<S, F, K>>(
        &mut self,
        solver: &mut O,
        options: &OptimizeOptions<S::Scalar>,
        blocks: &[BlockId],
        covariance_options: &CovarianceOptions<S::Scalar>,
    ) -> (outcome: Result<(OptimizeReport<S::Scalar>, &Vec<S::Scalar>), SolverError>) {
        self.invalidate_all();
        self.problem.optimize_with_covariance(solver, options, blocks, covariance_options)
    }
}

impl<B: LeastSquaresBackend> GaussNewton<B> {
    /// Optimize a plain or watched graph, keeping this method's storage.
    pub fn solve_batch<
        S: StateSchema<Scalar = B::Scalar>,
        F: FactorSchema<S, Scalar = B::Scalar>,
        Q: PivotedQr<B::Scalar>,
        K: Triangular<B::Scalar>,
        P: BatchProblem<S, F, Q, K>,
    >(&mut self, problem: &mut P, options: &OptimizeOptions<B::Scalar>) -> (outcome: Result<
        OptimizeReport<B::Scalar>,
        SolverError,
    >)
        requires
            old(self).work.wf(),
            old(problem).ready(),
        ensures
            final(self).work.wf(),
            final(problem).ready(),
            final(problem).reset(),
            final(problem).graph().same_graph(&old(problem).graph()),
            final(problem).graph().covariance == old(problem).graph().covariance,
            <GaussNewton<B> as Optimizer<S, F>>::optimized(
                *old(self),
                *final(self),
                old(problem).graph().states,
                old(problem).graph().factors,
                old(problem).graph().priors,
                *options,
                outcome,
                final(problem).graph().states.accepted(),
            ),
    {
        problem.run_batch(self, options)
    }

    /// Optimize a plain or watched graph, then extract the joint covariance of some variables.
    pub fn solve_batch_with_covariance<
        'a,
        S: StateSchema<Scalar = B::Scalar>,
        F: FactorSchema<S, Scalar = B::Scalar>,
        Q: PivotedQr<B::Scalar>,
        K: Triangular<B::Scalar>,
        P: BatchProblem<S, F, Q, K>,
    >(
        &mut self,
        problem: &'a mut P,
        options: &OptimizeOptions<B::Scalar>,
        blocks: &[BlockId],
        covariance_options: &CovarianceOptions<B::Scalar>,
    ) -> (outcome: Result<
        (OptimizeReport<B::Scalar>, &'a Vec<B::Scalar>),
        SolverError,
    >) where B: CovarianceBackend<K>
        requires
            old(self).work.wf(),
            old(problem).ready(),
        ensures
            final(self).work.wf(),
            final(problem).ready(),
            final(problem).reset(),
            final(problem).graph().same_graph(&old(problem).graph()),
            if !covariance_options.valid() {
                &&& outcome == Err::<(OptimizeReport<B::Scalar>, &Vec<B::Scalar>), SolverError>(
                    SolverError::InvalidRankTolerance,
                )
                &&& final(problem).graph() == old(problem).graph()
                &&& *final(self) == *old(self)
            } else {
                exists|
                    middle: Self,
                    p: Priors<B::Scalar>,
                    run: Result<OptimizeReport<B::Scalar>, SolverError>,
                | #[trigger]
                    optimized_and_queried(
                        old(problem).graph(),
                        *old(self),
                        *options,
                        middle,
                        p,
                        run,
                        *final(self),
                        final(problem).graph(),
                        blocks@,
                        *covariance_options,
                        outcome,
                    )
            },
    {
        problem.run_batch_with_covariance(self, options, blocks, covariance_options)
    }
}

impl<B: DampedLeastSquaresBackend> LevenbergMarquardt<B> {
    /// Optimize a plain or watched graph, keeping this method's storage.
    pub fn solve_batch<
        S: StateSchema<Scalar = B::Scalar>,
        F: FactorSchema<S, Scalar = B::Scalar>,
        Q: PivotedQr<B::Scalar>,
        K: Triangular<B::Scalar>,
        P: BatchProblem<S, F, Q, K>,
    >(&mut self, problem: &mut P, options: &OptimizeOptions<B::Scalar>) -> (outcome: Result<
        OptimizeReport<B::Scalar>,
        SolverError,
    >)
        requires
            old(self).work.wf(),
            old(problem).ready(),
        ensures
            final(self).work.wf(),
            final(problem).ready(),
            final(problem).reset(),
            final(problem).graph().same_graph(&old(problem).graph()),
            final(problem).graph().covariance == old(problem).graph().covariance,
            <LevenbergMarquardt<B> as Optimizer<S, F>>::optimized(
                *old(self),
                *final(self),
                old(problem).graph().states,
                old(problem).graph().factors,
                old(problem).graph().priors,
                *options,
                outcome,
                final(problem).graph().states.accepted(),
            ),
    {
        problem.run_batch(self, options)
    }

    /// Optimize a plain or watched graph, then extract the joint covariance of some variables.
    pub fn solve_batch_with_covariance<
        'a,
        S: StateSchema<Scalar = B::Scalar>,
        F: FactorSchema<S, Scalar = B::Scalar>,
        Q: PivotedQr<B::Scalar>,
        K: Triangular<B::Scalar>,
        P: BatchProblem<S, F, Q, K>,
    >(
        &mut self,
        problem: &'a mut P,
        options: &OptimizeOptions<B::Scalar>,
        blocks: &[BlockId],
        covariance_options: &CovarianceOptions<B::Scalar>,
    ) -> (outcome: Result<
        (OptimizeReport<B::Scalar>, &'a Vec<B::Scalar>),
        SolverError,
    >) where B: CovarianceBackend<K>
        requires
            old(self).work.wf(),
            old(problem).ready(),
        ensures
            final(self).work.wf(),
            final(problem).ready(),
            final(problem).reset(),
            final(problem).graph().same_graph(&old(problem).graph()),
            if !covariance_options.valid() {
                &&& outcome == Err::<(OptimizeReport<B::Scalar>, &Vec<B::Scalar>), SolverError>(
                    SolverError::InvalidRankTolerance,
                )
                &&& final(problem).graph() == old(problem).graph()
                &&& *final(self) == *old(self)
            } else {
                exists|
                    middle: Self,
                    p: Priors<B::Scalar>,
                    run: Result<OptimizeReport<B::Scalar>, SolverError>,
                | #[trigger]
                    optimized_and_queried(
                        old(problem).graph(),
                        *old(self),
                        *options,
                        middle,
                        p,
                        run,
                        *final(self),
                        final(problem).graph(),
                        blocks@,
                        *covariance_options,
                        outcome,
                    )
            },
    {
        problem.run_batch_with_covariance(self, options, blocks, covariance_options)
    }
}

} // verus!
