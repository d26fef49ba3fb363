//! Factors of several types, stored family by family.
use crate::backend::LeastSquaresBackend;
use crate::error::{EvaluationError, KeyError, SolverError};
use crate::factors::{
    batch_emission, emission, identified, Factor, FactorBatch, FactorSelection,
};
use crate::gather::{chosen, join, lemma_marked_filter, marked, part};
use crate::index::KeySet;
use crate::key::{BlockId, FactorId, LocalKey, PoolId, RawKey};
use crate::layout::{all_known, distinct_positions, FactorPlan, Layout};
use crate::linearization::{EventView, LinearizationSink};
use crate::optimization::Workspace;
use crate::pair::{Nothing, Pair};
use crate::reading::Readable;
use crate::scalar::Real;
use crate::sink::{covered, event_step, unit_run, units_run, Progress, Unit};
use crate::storage::{checked_cost, checked_cost_spec, BatchPool, FactorPool};
use vstd::prelude::*;

verus! {

/// A factor and the variables it declares.
pub struct Incidence {
    pub id: FactorId,
    pub variables: Seq<BlockId>,
}

/// The factors planned so far.
#[verifier::ext_equal]
pub struct Planned {
    pub factors: Seq<FactorPlan>,
    pub dependencies: Seq<usize>,
    pub index: Map<RawKey, usize>,
}

impl Layout {
    /// The factors planned so far.
    pub open spec fn planned(&self) -> Planned {
        Planned {
            factors: self.factors@,
            dependencies: self.dependencies@,
            index: self.factor_index@,
        }
    }
}

/// The plan after the first `n` factors; none if one of them cannot be planned.
pub open spec fn plan_run(
    blocks: Map<RawKey, usize>,
    planned: Planned,
    incidence: Seq<Incidence>,
    n: int,
) -> Option<Planned>
    decreases n,
{
    if n <= 0 {
        Some(planned)
    } else {
        match plan_run(blocks, planned, incidence, n - 1) {
            None => None,
            Some(before) => plan_step(blocks, before, incidence[n - 1]),
        }
    }
}

/// The plan after one more factor: its variables must have coordinates, and it must be
/// new.
pub open spec fn plan_step(
    blocks: Map<RawKey, usize>,
    planned: Planned,
    factor: Incidence,
) -> Option<Planned> {
    let added = distinct_positions(blocks, factor.variables, factor.variables.len() as int);
    if !all_known(blocks, factor.variables) || planned.index.contains_key(factor.id.raw) {
        None
    } else {
        Some(
            Planned {
                factors: planned.factors.push(
                    FactorPlan {
                        id: factor.id,
                        start: planned.dependencies.len() as usize,
                        end: (planned.dependencies.len() + added.len()) as usize,
                    },
                ),
                dependencies: planned.dependencies + added,
                index: planned.index.insert(factor.id.raw, planned.factors.len() as usize),
            },
        )
    }
}

pub proof fn lemma_plan_refused(
    blocks: Map<RawKey, usize>,
    planned: Planned,
    incidence: Seq<Incidence>,
    n: int,
    m: int,
)
    requires
        0 <= n <= m,
        plan_run(blocks, planned, incidence, n) is None,
    ensures
        plan_run(blocks, planned, incidence, m) is None,
    decreases m,
{
    if n < m {
        lemma_plan_refused(blocks, planned, incidence, n, m - 1);
    }
}

pub proof fn lemma_plan_add(
    blocks: Map<RawKey, usize>,
    planned: Planned,
    a: Seq<Incidence>,
    b: Seq<Incidence>,
    n: int,
)
    requires
        0 <= n <= b.len(),
    ensures
        plan_run(blocks, planned, a + b, a.len() + n) == match plan_run(
            blocks,
            planned,
            a,
            a.len() as int,
        ) {
            None => None::<Planned>,
            Some(middle) => plan_run(blocks, middle, b, n),
        },
    decreases n,
{
    if n == 0 {
        lemma_plan_prefix(blocks, planned, a, b, a.len() as int);
    } else {
        lemma_plan_add(blocks, planned, a, b, n - 1);
        assert((a + b)[a.len() + n - 1] == b[n - 1]);
    }
}

proof fn lemma_plan_prefix(
    blocks: Map<RawKey, usize>,
    planned: Planned,
    a: Seq<Incidence>,
    b: Seq<Incidence>,
    n: int,
)
    requires
        0 <= n <= a.len(),
    ensures
        plan_run(blocks, planned, a + b, n) == plan_run(blocks, planned, a, n),
    decreases n,
{
    if n > 0 {
        lemma_plan_prefix(blocks, planned, a, b, n - 1);
        assert((a + b)[n - 1] == a[n - 1]);
    }
}

/// A running total after the first `n` objective contributions; an invalid one stops it.
pub open spec fn cost_run<R: Real>(
    total: R,
    terms: Seq<Result<R, EvaluationError>>,
    n: int,
) -> Result<R, SolverError>
    decreases n,
{
    if n <= 0 {
        Ok(total)
    } else {
        match cost_run(total, terms, n - 1) {
            Err(error) => Err(error),
            Ok(before) => match checked_cost_spec(terms[n - 1]) {
                Err(error) => Err(error),
                Ok(cost) => Ok(before.plus_spec(cost)),
            },
        }
    }
}

pub proof fn lemma_cost_refused<R: Real>(
    total: R,
    terms: Seq<Result<R, EvaluationError>>,
    n: int,
    m: int,
)
    requires
        0 <= n <= m,
        cost_run(total, terms, n) is Err,
    ensures
        cost_run(total, terms, m) == cost_run(total, terms, n),
    decreases m,
{
    if n < m {
        lemma_cost_refused(total, terms, n, m - 1);
    }
}

pub proof fn lemma_cost_add<R: Real>(
    total: R,
    a: Seq<Result<R, EvaluationError>>,
    b: Seq<Result<R, EvaluationError>>,
    n: int,
)
    requires
        0 <= n <= b.len(),
    ensures
        cost_run(total, a + b, a.len() + n) == match cost_run(total, a, a.len() as int) {
            Err(error) => Err::<R, SolverError>(error),
            Ok(middle) => cost_run(middle, b, n),
        },
    decreases n,
{
    if n == 0 {
        lemma_cost_prefix(total, a, b, a.len() as int);
    } else {
        lemma_cost_add(total, a, b, n - 1);
        assert((a + b)[a.len() + n - 1] == b[n - 1]);
    }
}

proof fn lemma_cost_prefix<R: Real>(
    total: R,
    a: Seq<Result<R, EvaluationError>>,
    b: Seq<Result<R, EvaluationError>>,
    n: int,
)
    requires
        0 <= n <= a.len(),
    ensures
        cost_run(total, a + b, n) == cost_run(total, a, n),
    decreases n,
{
    if n > 0 {
        lemma_cost_prefix(total, a, b, n - 1);
        assert((a + b)[n - 1] == a[n - 1]);
    }
}

pub proof fn lemma_units_refused<B: LeastSquaresBackend>(
    layout: &Layout,
    position: int,
    progress: Progress<B::Model>,
    units: Seq<Unit<B::Scalar>>,
    n: int,
    m: int,
)
    requires
        0 <= n <= m,
        units_run::<B>(layout, position, progress, units, n) is Err,
    ensures
        units_run::<B>(layout, position, progress, units, m) == units_run::<B>(
            layout,
            position,
            progress,
            units,
            n,
        ),
    decreases m,
{
    if n < m {
        lemma_units_refused::<B>(layout, position, progress, units, n, m - 1);
    }
}

pub proof fn lemma_covered_add<R>(a: Seq<Unit<R>>, b: Seq<Unit<R>>, n: int)
    requires
        0 <= n <= b.len(),
    ensures
        covered(a + b, a.len() + n) == covered(a, a.len() as int) + covered(b, n),
    decreases n,
{
    if n == 0 {
        lemma_covered_prefix(a, b, a.len() as int);
    } else {
        lemma_covered_add(a, b, n - 1);
        assert((a + b)[a.len() + n - 1] == b[n - 1]);
    }
}

proof fn lemma_covered_prefix<R>(a: Seq<Unit<R>>, b: Seq<Unit<R>>, n: int)
    requires
        0 <= n <= a.len(),
    ensures
        covered(a + b, n) == covered(a, n),
    decreases n,
{
    if n > 0 {
        lemma_covered_prefix(a, b, n - 1);
        assert((a + b)[n - 1] == a[n - 1]);
    }
}

pub proof fn lemma_units_add<B: LeastSquaresBackend>(
    layout: &Layout,
    position: int,
    progress: Progress<B::Model>,
    a: Seq<Unit<B::Scalar>>,
    b: Seq<Unit<B::Scalar>>,
    n: int,
)
    requires
        0 <= n <= b.len(),
    ensures
        units_run::<B>(layout, position, progress, a + b, a.len() + n) == match units_run::<B>(
            layout,
            position,
            progress,
            a,
            a.len() as int,
        ) {
            Err(error) => Err::<Progress<B::Model>, EvaluationError>(error),
            Ok(middle) => units_run::<B>(
                layout,
                position + covered(a, a.len() as int),
                middle,
                b,
                n,
            ),
        },
    decreases n,
{
    if n == 0 {
        lemma_units_prefix::<B>(layout, position, progress, a, b, a.len() as int);
    } else {
        lemma_units_add::<B>(layout, position, progress, a, b, n - 1);
        lemma_covered_add(a, b, n - 1);
        assert((a + b)[a.len() + n - 1] == b[n - 1]);
    }
}

proof fn lemma_units_prefix<B: LeastSquaresBackend>(
    layout: &Layout,
    position: int,
    progress: Progress<B::Model>,
    a: Seq<Unit<B::Scalar>>,
    b: Seq<Unit<B::Scalar>>,
    n: int,
)
    requires
        0 <= n <= a.len(),
    ensures
        units_run::<B>(layout, position, progress, a + b, n) == units_run::<B>(
            layout,
            position,
            progress,
            a,
            n,
        ),
    decreases n,
{
    if n > 0 {
        lemma_units_prefix::<B>(layout, position, progress, a, b, n - 1);
        lemma_covered_prefix(a, b, n - 1);
        assert((a + b)[n - 1] == a[n - 1]);
    }
}

/// Factors picked from a family: their first planned position, their cost, and what they
/// emit.
#[verifier::reject_recursive_types(R)]
pub struct Collected<R> {
    pub position: int,
    pub cost: Result<R, EvaluationError>,
    pub unit: Unit<R>,
}

/// The effect of emitting the first `n` picks, each checked for a valid cost first and
/// emitted at its planned position.
pub open spec fn collected_run<B: LeastSquaresBackend>(
    layout: &Layout,
    progress: Progress<B::Model>,
    collected: Seq<Collected<B::Scalar>>,
    n: int,
) -> Result<Progress<B::Model>, SolverError>
    decreases n,
{
    if n <= 0 {
        Ok(progress)
    } else {
        match collected_run::<B>(layout, progress, collected, n - 1) {
            Err(error) => Err(error),
            Ok(before) => collected_step::<B>(layout, before, collected[n - 1]),
        }
    }
}

/// The effect of emitting one pick.
pub open spec fn collected_step<B: LeastSquaresBackend>(
    layout: &Layout,
    progress: Progress<B::Model>,
    picked: Collected<B::Scalar>,
) -> Result<Progress<B::Model>, SolverError> {
    match checked_cost_spec(picked.cost) {
        Err(error) => Err(error),
        Ok(_) => match unit_run::<B>(
            layout,
            picked.position,
            progress,
            picked.unit,
        ) {
            Err(error) => Err(SolverError::Evaluation(error)),
            Ok(reached) => Ok(reached),
        },
    }
}

pub proof fn lemma_collected_refused<B: LeastSquaresBackend>(
    layout: &Layout,
    progress: Progress<B::Model>,
    collected: Seq<Collected<B::Scalar>>,
    n: int,
    m: int,
)
    requires
        0 <= n <= m,
        collected_run::<B>(layout, progress, collected, n) is Err,
    ensures
        collected_run::<B>(layout, progress, collected, m) == collected_run::<B>(
            layout,
            progress,
            collected,
            n,
        ),
    decreases m,
{
    if n < m {
        lemma_collected_refused::<B>(layout, progress, collected, n, m - 1);
    }
}

pub proof fn lemma_collected_add<B: LeastSquaresBackend>(
    layout: &Layout,
    progress: Progress<B::Model>,
    a: Seq<Collected<B::Scalar>>,
    b: Seq<Collected<B::Scalar>>,
    n: int,
)
    requires
        0 <= n <= b.len(),
    ensures
        collected_run::<B>(layout, progress, a + b, a.len() + n) == match collected_run::<B>(
            layout,
            progress,
            a,
            a.len() as int,
        ) {
            Err(error) => Err::<Progress<B::Model>, SolverError>(error),
            Ok(middle) => collected_run::<B>(layout, middle, b, n),
        },
    decreases n,
{
    if n == 0 {
        lemma_collected_prefix::<B>(layout, progress, a, b, a.len() as int);
    } else {
        lemma_collected_add::<B>(layout, progress, a, b, n - 1);
        assert((a + b)[a.len() + n - 1] == b[n - 1]);
    }
}

proof fn lemma_collected_prefix<B: LeastSquaresBackend>(
    layout: &Layout,
    progress: Progress<B::Model>,
    a: Seq<Collected<B::Scalar>>,
    b: Seq<Collected<B::Scalar>>,
    n: int,
)
    requires
        0 <= n <= a.len(),
    ensures
        collected_run::<B>(layout, progress, a + b, n) == collected_run::<B>(
            layout,
            progress,
            a,
            n,
        ),
    decreases n,
{
    if n > 0 {
        lemma_collected_prefix::<B>(layout, progress, a, b, n - 1);
        assert((a + b)[n - 1] == a[n - 1]);
    }
}

/// Families of factors over the state storage `S`.
///
/// Traversals visit the families in one fixed order and the factors of each in dense
/// order, batch by batch. Empty batches contribute nothing.
pub trait FactorSchema<S: Readable>: Sized {
    /// Scalar shared by all families.
    type Scalar: Real;

    spec fn wf(&self) -> bool;

    spec fn pools(&self) -> Set<PoolId>;

    /// Stored factors and their variables in traversal order.
    spec fn incidence(&self) -> Seq<Incidence>;

    /// Objective contributions in traversal order.
    spec fn cost_terms(&self, states: S::Reading) -> Seq<Result<Self::Scalar, EvaluationError>>;

    /// Evaluator calls of a full linearization in traversal order.
    spec fn units(&self, states: S::Reading) -> Seq<Unit<Self::Scalar>>;

    /// Stored factors that have a planned position, picked one by one in traversal order.
    spec fn picked(&self, states: S::Reading, index: Map<RawKey, usize>) -> Seq<Collected<Self::Scalar>>;

    spec fn resolve_spec(&self, id: FactorId) -> Option<Result<(), KeyError>>;

    /// The same factors are stored in the same order under the same identities.
    spec fn same_factors(&self, other: &Self) -> bool;

    /// Every factor stored here was stored before under the same identity, with the same
    /// payload, and in the same batch if it lies in one. Places and batches may differ.
    spec fn keeps(&self, before: &Self) -> bool;

    /// The same batches are open, under the same handles and with the same models.
    spec fn same_batches(&self, before: &Self) -> bool;

    /// Every family stores the same factors as itself.
    proof fn lemma_same_reflexive(&self)
        ensures
            self.same_factors(self),
            self.keeps(self),
            self.same_batches(self),
    ;

    /// What was kept of what was kept.
    proof fn lemma_keeps_through(&self, during: &Self, before: &Self)
        requires
            self.keeps(during),
            during.keeps(before),
        ensures
            self.keeps(before),
            self.same_batches(during) && during.same_batches(before) ==> self.same_batches(before),
    ;

    /// The same factors plan, cost and emit the same.
    proof fn lemma_same_factors(&self, other: &Self)
        requires
            self.same_factors(other),
            other.wf(),
        ensures
            self.wf(),
            self.pools() == other.pools(),
            self.incidence() == other.incidence(),
            forall|states: S::Reading| #[trigger] self.cost_terms(states) == other.cost_terms(states),
            forall|states: S::Reading| #[trigger] self.units(states) == other.units(states),
            forall|id: FactorId| #[trigger] self.resolve_spec(id) == other.resolve_spec(id),
            self.keeps(other),
            other.keeps(self),
            self.same_batches(other),
    ;

    /// Stored factors resolve, and every family knows its own identities.
    proof fn lemma_incidence(&self)
        requires
            self.wf(),
        ensures
            forall|i: int|
                0 <= i < self.incidence().len() ==> self.resolve_spec(
                    (#[trigger] self.incidence()[i]).id,
                ) == Some(Ok::<(), KeyError>(())),
            forall|id: FactorId| #[trigger]
                self.resolve_spec(id) is Some <==> self.pools().contains(id.raw.pool),
    ;

    /// A full linearization covers each stored factor once.
    proof fn lemma_covers(&self, states: S::Reading)
        requires
            self.wf(),
        ensures
            covered(self.units(states), self.units(states).len() as int) == self.incidence().len(),
    ;

    /// Plan every stored factor.
    fn plan(&self, layout: &mut Layout) -> (planned: Result<(), SolverError>)
        requires
            self.wf(),
            old(layout).wf(),
        ensures
            final(layout).wf(),
            final(layout).dimension == old(layout).dimension,
            final(layout).blocks@ == old(layout).blocks@,
            final(layout).block_index@ == old(layout).block_index@,
            match plan_run(
                old(layout).block_index@,
                old(layout).planned(),
                self.incidence(),
                self.incidence().len() as int,
            ) {
                None => planned == Err::<(), SolverError>(
                    SolverError::Evaluation(EvaluationError::InvalidEmission),
                ),
                Some(after) => planned is Ok && final(layout).planned() == after,
            },
    ;

    /// Add the cost of every stored factor to a total.
    fn cost(&self, states: &S, total: Self::Scalar) -> (cost: Result<Self::Scalar, SolverError>)
        requires
            self.wf(),
            states.wf(),
        ensures
            cost == cost_run(
                total,
                self.cost_terms(states.reading()),
                self.cost_terms(states.reading()).len() as int,
            ),
    ;

    /// Emit every stored factor, the first at the given planned position.
    fn linearize<B: LeastSquaresBackend<Scalar = Self::Scalar>>(
        &self,
        states: &S,
        work: &mut Workspace<B>,
        position: usize,
    ) -> (emitted: Result<usize, SolverError>)
        requires
            self.wf(),
            states.wf(),
            old(work).ready(),
            old(work).checks.active is None,
            position + self.incidence().len() <= old(work).layout.factors@.len(),
        ensures
            final(work).ready(),
            final(work).continues(old(work)),
            match units_run::<B>(
                &old(work).layout,
                position as int,
                old(work).progress(),
                self.units(states.reading()),
                self.units(states.reading()).len() as int,
            ) {
                Err(error) => emitted == Err::<usize, SolverError>(SolverError::Evaluation(error)),
                Ok(reached) => {
                    &&& emitted == Ok::<usize, SolverError>(
                        (position + self.incidence().len()) as usize,
                    )
                    &&& final(work).progress() == reached
                    &&& final(work).checks.active is None
                },
            },
    ;

    /// Check and emit the stored factors that have a planned position, those of a batch
    /// together.
    fn collect<B: LeastSquaresBackend<Scalar = Self::Scalar>>(
        &mut self,
        states: &S,
        work: &mut Workspace<B>,
    ) -> (emitted: Result<(), SolverError>)
        requires
            old(self).wf(),
            states.wf(),
            old(work).ready(),
            old(work).checks.active is None,
        ensures
            final(self).wf(),
            final(self).same_factors(old(self)),
            final(work).ready(),
            final(work).continues(old(work)),
            match collected_run::<B>(
                &old(work).layout,
                old(work).progress(),
                old(self).picked(states.reading(), old(work).layout.factor_index@),
                old(self).picked(states.reading(), old(work).layout.factor_index@).len() as int,
            ) {
                Err(error) => emitted == Err::<(), SolverError>(error),
                Ok(reached) => {
                    &&& emitted is Ok
                    &&& final(work).progress() == reached
                    &&& final(work).checks.active is None
                },
            },
    ;

    /// Remove the given factors; their handles become stale for good, and all others stay as
    /// they are.
    fn remove_selected(&mut self, selected: &KeySet)
        requires
            old(self).wf(),
            selected.wf(),
        ensures
            final(self).wf(),
            final(self).pools() == old(self).pools(),
            final(self).keeps(old(self)),
            final(self).same_batches(old(self)),
            forall|id: FactorId| #[trigger]
                final(self).resolve_spec(id) == if old(self).resolve_spec(id) == Some(
                    Ok::<(), KeyError>(()),
                ) && selected@.contains(id.raw) {
                    Some(Err::<(), KeyError>(KeyError::Stale))
                } else {
                    old(self).resolve_spec(id)
                },
            forall|i: int|
                0 <= i < final(self).incidence().len() ==> old(self).incidence().contains(
                    #[trigger] final(self).incidence()[i],
                ),
            forall|i: int|
                0 <= i < old(self).incidence().len() && !selected@.contains(
                    (#[trigger] old(self).incidence()[i]).id.raw,
                ) ==> final(self).incidence().contains(old(self).incidence()[i]),
    ;
}

/// Emit one ordinary factor at its planned position.
fn emit_single<S: Readable, T: Factor<S>, B: LeastSquaresBackend<Scalar = T::Scalar>>(
    work: &mut Workspace<B>,
    id: FactorId,
    factor: &T,
    states: &S,
    position: usize,
) -> (emitted: Result<(), EvaluationError>)
    requires
        states.wf(),
        old(work).ready(),
        position < old(work).layout.factors@.len(),
    ensures
        final(work).ready(),
        final(work).continues(old(work)),
        match unit_run::<B>(
            &old(work).layout,
            position as int,
            old(work).progress(),
            Unit::Single(id, emission::<S, T>(*factor, states.reading())),
        ) {
            Err(error) => emitted == Err::<(), EvaluationError>(error),
            Ok(reached) => {
                &&& emitted is Ok
                &&& final(work).progress() == reached
                &&& final(work).checks.active is None
            },
        },
{
    assert(work.layout.factors@.len() == work.layout.factors.len());
    work.checks.allow(&work.layout, position, position + 1, true);
    let ghost window = work.checks.window();
    let reply = work.checks.open(&work.layout, id);
    assert((work.progress(), reply) == event_step::<B>(
        &old(work).layout,
        window,
        true,
        old(work).progress(),
        EventView::Open(id),
    )) by {
        assert(work.progress() =~= event_step::<B>(
            &old(work).layout,
            window,
            true,
            old(work).progress(),
            EventView::Open(id),
        ).0);
    }
    match reply {
        Ok(_) => {},
        Err(error) => {
            return Err(error);
        },
    }
    match factor.linearize(states, work) {
        Ok(_) => {},
        Err(error) => {
            return Err(error);
        },
    }
    work.checks.active = None;
    Ok(())
}

/// The least planned position of the first `n` factors of a group.
pub open spec fn least<P>(index: Map<RawKey, usize>, group: Seq<(FactorId, P)>, n: int) -> int
    decreases n,
{
    let last = index[group[n - 1].0.raw] as int;
    if n <= 1 || last < least(index, group, n - 1) {
        last
    } else {
        least(index, group, n - 1)
    }
}

/// The greatest planned position of the first `n` factors of a group.
pub open spec fn greatest<P>(index: Map<RawKey, usize>, group: Seq<(FactorId, P)>, n: int) -> int
    decreases n,
{
    let last = index[group[n - 1].0.raw] as int;
    if n <= 1 || last > greatest(index, group, n - 1) {
        last
    } else {
        greatest(index, group, n - 1)
    }
}

/// Marking identities and payloads alike keeps them paired.
proof fn lemma_marked_pairs<P>(
    pool: PoolId,
    keys: Seq<LocalKey>,
    values: Seq<P>,
    marks: Seq<bool>,
    from: int,
)
    requires
        keys.len() == values.len(),
        marks.len() == values.len(),
        0 <= from <= values.len(),
    ensures
        marked(keys, marks, true, from).len() == marked(values, marks, true, from).len(),
        identified(pool, marked(keys, marks, true, from), marked(values, marks, true, from))
            == marked(identified(pool, keys, values), marks, true, from),
    decreases values.len() - from,
{
    if from < values.len() {
        lemma_marked_pairs(pool, keys, values, marks, from + 1);
        let k = marked(keys, marks, true, from + 1);
        let v = marked(values, marks, true, from + 1);
        assert(identified(pool, seq![keys[from]] + k, seq![values[from]] + v) =~= seq![
            identified(pool, keys, values)[from],
        ] + identified(pool, k, v));
    } else {
        assert(identified(pool, Seq::empty(), Seq::<P>::empty()) =~= Seq::empty());
    }
}

/// Emit a selection of one batch into a run of planned positions.
fn emit_batch<S: Readable, M: FactorBatch<S>, B: LeastSquaresBackend<Scalar = M::Scalar>>(
    work: &mut Workspace<B>,
    model: &M,
    factors: FactorSelection<'_, M::Factor>,
    states: &S,
    position: usize,
    width: usize,
) -> (emitted: Result<(), EvaluationError>)
    requires
        states.wf(),
        old(work).ready(),
        factors.wf(),
        position + width <= old(work).layout.factors@.len(),
    ensures
        final(work).ready(),
        final(work).continues(old(work)),
        match unit_run::<B>(
            &old(work).layout,
            position as int,
            old(work).progress(),
            Unit::Many(
                width as nat,
                batch_emission::<S, M>(*model, states.reading(), factors.remaining()),
            ),
        ) {
            Err(error) => emitted == Err::<(), EvaluationError>(error),
            Ok(reached) => {
                &&& emitted is Ok
                &&& final(work).progress() == reached
                &&& final(work).checks.active is None
            },
        },
{
    assert(work.layout.factors@.len() == work.layout.factors.len());
    work.checks.allow(&work.layout, position, position + width, false);
    assert(work.progress() =~= old(work).progress());
    match model.linearize(states, factors, work) {
        Ok(_) => {},
        Err(error) => {
            return Err(error);
        },
    }
    if work.checks.active.is_some() {
        return Err(EvaluationError::InvalidEmission);
    }
    Ok(())
}

impl<T> FactorPool<T> {
    /// What this pool knows of an identity: nothing if another pool issued it.
    pub open spec fn validate_spec(&self, id: FactorId) -> Option<Result<(), KeyError>> {
        if id.raw.pool != self.entries.id {
            None
        } else {
            match self.entries.lookup(id.raw) {
                Ok(_) => Some(Ok(())),
                Err(error) => Some(Err(error)),
            }
        }
    }

    /// Evaluator calls on every stored factor.
    pub open spec fn single_units<S: Readable>(&self, states: S::Reading) -> Seq<Unit<T::Scalar>> where T: Factor<S> {
        Seq::new(
            self.entries.values@.len(),
            |i: int|
                Unit::Single(
                    self.factors()[i].0,
                    emission::<S, T>(self.entries.values@[i], states),
                ),
        )
    }

    /// Those of the first `n` stored factors that have a planned position.
    pub open spec fn picked_upto<S: Readable>(&self, states: S::Reading, index: Map<RawKey, usize>, n: int) -> Seq<
        Collected<T::Scalar>,
    > where T: Factor<S>
        decreases n,
    {
        if n <= 0 {
            Seq::empty()
        } else {
            let before = self.picked_upto::<S>(states, index, n - 1);
            let id = self.factors()[n - 1].0;
            if index.contains_key(id.raw) {
                before.push(
                    Collected {
                        position: index[id.raw] as int,
                        cost: self.entries.values@[n - 1].cost_spec(states),
                        unit: Unit::Single(
                            id,
                            emission::<S, T>(self.entries.values@[n - 1], states),
                        ),
                    },
                )
            } else {
                before
            }
        }
    }

    proof fn lemma_picked_extends<S: Readable>(
        &self,
        states: S::Reading,
        index: Map<RawKey, usize>,
        n: int,
        m: int,
    ) where T: Factor<S>
        requires
            0 <= n <= m,
        ensures
            self.picked_upto::<S>(states, index, n).len() <= self.picked_upto::<S>(states, index, m).len(),
            self.picked_upto::<S>(states, index, m).take(
                self.picked_upto::<S>(states, index, n).len() as int,
            ) == self.picked_upto::<S>(states, index, n),
        decreases m,
    {
        let short = self.picked_upto::<S>(states, index, n);
        if n < m {
            self.lemma_picked_extends::<S>(states, index, n, m - 1);
            assert(self.picked_upto::<S>(states, index, m).take(short.len() as int) =~= short);
        } else {
            assert(short.take(short.len() as int) =~= short);
        }
    }

    proof fn lemma_single_cover<S: Readable>(&self, states: S::Reading, n: int) where T: Factor<S>
        requires
            0 <= n <= self.entries.values@.len(),
        ensures
            covered(self.single_units::<S>(states), n) == n,
        decreases n,
    {
        if n > 0 {
            self.lemma_single_cover::<S>(states, n - 1);
        }
    }
}

impl<S: Readable, T: Factor<S>> FactorSchema<S> for FactorPool<T> {
    type Scalar = T::Scalar;

    open spec fn wf(&self) -> bool {
        FactorPool::wf(self)
    }

    open spec fn pools(&self) -> Set<PoolId> {
        set![self.entries.id]
    }

    open spec fn incidence(&self) -> Seq<Incidence> {
        Seq::new(
            self.entries.values@.len(),
            |i: int|
                Incidence {
                    id: self.factors()[i].0,
                    variables: self.entries.values@[i].variables_spec(),
                },
        )
    }

    open spec fn cost_terms(&self, states: S::Reading) -> Seq<Result<T::Scalar, EvaluationError>> {
        Seq::new(self.entries.values@.len(), |i: int| self.entries.values@[i].cost_spec(states))
    }

    open spec fn units(&self, states: S::Reading) -> Seq<Unit<T::Scalar>> {
        self.single_units::<S>(states)
    }

    open spec fn picked(&self, states: S::Reading, index: Map<RawKey, usize>) -> Seq<Collected<T::Scalar>> {
        self.picked_upto::<S>(states, index, self.entries.values@.len() as int)
    }

    open spec fn resolve_spec(&self, id: FactorId) -> Option<Result<(), KeyError>> {
        self.validate_spec(id)
    }

    open spec fn same_factors(&self, other: &Self) -> bool {
        &&& self.entries.id == other.entries.id
        &&& self.entries.values@ == other.entries.values@
        &&& self.entries.keys@ == other.entries.keys@
        &&& self.entries.slots@ == other.entries.slots@
        &&& self.entries.free_slots@ == other.entries.free_slots@
    }

    open spec fn keeps(&self, before: &Self) -> bool {
        self.entries.id == before.entries.id && self.keeps_factors(before)
    }

    open spec fn same_batches(&self, before: &Self) -> bool {
        true
    }

    proof fn lemma_keeps_through(&self, during: &Self, before: &Self) {
    }

    proof fn lemma_same_reflexive(&self) {
    }

    proof fn lemma_same_factors(&self, other: &Self) {
        assert(self.factors() =~= other.factors());
        assert(FactorSchema::<S>::incidence(self) =~= FactorSchema::<S>::incidence(other));
        assert forall|states: S::Reading| #[trigger]
            FactorSchema::<S>::cost_terms(self, states) == FactorSchema::<S>::cost_terms(
                other,
                states,
            ) by {
            assert(FactorSchema::<S>::cost_terms(self, states) =~= FactorSchema::<S>::cost_terms(
                other,
                states,
            ));
        }
        assert forall|states: S::Reading| #[trigger]
            FactorSchema::<S>::units(self, states) == FactorSchema::<S>::units(other, states) by {
            assert(self.single_units::<S>(states) =~= other.single_units::<S>(states));
        }
    }

    proof fn lemma_incidence(&self) {
        assert forall|i: int|
            0 <= i < FactorSchema::<S>::incidence(self).len() implies self.validate_spec(
            (#[trigger] FactorSchema::<S>::incidence(self)[i]).id,
        ) == Some(Ok::<(), KeyError>(())) by {
            self.entries.lemma_live_position(self.entries.keys@[i], i);
        }
    }

    proof fn lemma_covers(&self, states: S::Reading) {
        self.lemma_single_cover::<S>(states, self.entries.values@.len() as int);
    }

    fn plan(&self, layout: &mut Layout) -> (planned: Result<(), SolverError>) {
        let ghost incidence = FactorSchema::<S>::incidence(self);
        let ghost start = *layout;
        let mut variables: Vec<BlockId> = Vec::new();
        let mut i: usize = 0;
        while i < self.entries.values.len()
            invariant
                self.wf(),
                incidence == FactorSchema::<S>::incidence(self),
                start == *old(layout),
                i <= self.entries.values@.len(),
                layout.wf(),
                layout.dimension == start.dimension,
                layout.blocks@ == start.blocks@,
                layout.block_index@ == start.block_index@,
                plan_run(start.block_index@, start.planned(), incidence, i as int) == Some(
                    layout.planned(),
                ),
            decreases self.entries.values@.len() - i,
        {
            let id = FactorId {
                raw: RawKey { pool: self.entries.id, local: self.entries.keys[i] },
            };
            variables.clear();
            self.entries.values[i].visit_variables(&mut variables);
            proof {
                assert(variables@ =~= incidence[i as int].variables);
                assert(incidence[i as int].id == id);
            }
            let ghost before = layout.planned();
            match layout.factor(id, variables.as_slice()) {
                Ok(_) => {
                    assert(plan_step(start.block_index@, before, incidence[i as int]) == Some(
                        layout.planned(),
                    ));
                },
                Err(error) => {
                    proof {
                        lemma_plan_refused(
                            start.block_index@,
                            start.planned(),
                            incidence,
                            i + 1,
                            incidence.len() as int,
                        );
                    }
                    return Err(error);
                },
            }
            i += 1;
        }
        Ok(())
    }

    fn cost(&self, states: &S, total: T::Scalar) -> (cost: Result<T::Scalar, SolverError>) {
        let ghost terms = FactorSchema::<S>::cost_terms(self, states.reading());
        let mut sum = total;
        let mut i: usize = 0;
        while i < self.entries.values.len()
            invariant
                self.wf(),
                states.wf(),
                terms == FactorSchema::<S>::cost_terms(self, states.reading()),
                i <= self.entries.values@.len(),
                cost_run(total, terms, i as int) == Ok::<T::Scalar, SolverError>(sum),
            decreases self.entries.values@.len() - i,
        {
            match checked_cost(self.entries.values[i].cost(states)) {
                Ok(cost) => {
                    sum = sum.plus(cost);
                },
                Err(error) => {
                    proof {
                        lemma_cost_refused(total, terms, i + 1, terms.len() as int);
                    }
                    return Err(error);
                },
            }
            i += 1;
        }
        Ok(sum)
    }

    fn linearize<B: LeastSquaresBackend<Scalar = T::Scalar>>(
        &self,
        states: &S,
        work: &mut Workspace<B>,
        position: usize,
    ) -> (emitted: Result<usize, SolverError>) {
        let ghost units = self.single_units::<S>(states.reading());
        let ghost begun = work.progress();
        let ghost layout = work.layout;
        assert(work.layout.factors@.len() == work.layout.factors.len());
        let mut i: usize = 0;
        while i < self.entries.values.len()
            invariant
                self.wf(),
                states.wf(),
                units == self.single_units::<S>(states.reading()),
                begun == old(work).progress(),
                layout == old(work).layout,
                layout.factors@.len() <= usize::MAX,
                position + self.entries.values@.len() <= layout.factors@.len(),
                i <= self.entries.values@.len(),
                work.ready(),
                work.checks.active is None,
                work.continues(old(work)),
                units_run::<B>(&layout, position as int, begun, units, i as int) == Ok::<
                    Progress<B::Model>,
                    EvaluationError,
                >(work.progress()),
            decreases self.entries.values@.len() - i,
        {
            let id = FactorId {
                raw: RawKey { pool: self.entries.id, local: self.entries.keys[i] },
            };
            proof {
                self.lemma_single_cover::<S>(states.reading(), i as int);
                assert(units[i as int] == Unit::Single(
                    id,
                    emission::<S, T>(self.entries.values@[i as int], states.reading()),
                ));
            }
            match emit_single(
                work,
                id,
                &self.entries.values[i],
                states,
                position + i,
            ) {
                Ok(_) => {},
                Err(error) => {
                    proof {
                        lemma_units_refused::<B>(
                            &layout,
                            position as int,
                            begun,
                            units,
                            i + 1,
                            units.len() as int,
                        );
                    }
                    return Err(SolverError::Evaluation(error));
                },
            }
            i += 1;
        }
        Ok(position + i)
    }

    fn collect<B: LeastSquaresBackend<Scalar = T::Scalar>>(
        &mut self,
        states: &S,
        work: &mut Workspace<B>,
    ) -> (emitted: Result<(), SolverError>) {
        let ghost begun = work.progress();
        let ghost layout = work.layout;
        let ghost index = layout.factor_index@;
        let ghost count = self.entries.values@.len() as int;
        let ghost all = self.picked_upto::<S>(states.reading(), index, count);
        let mut i: usize = 0;
        while i < self.entries.values.len()
            invariant
                self.wf(),
                states.wf(),
                layout.wf(),
                index == layout.factor_index@,
                count == self.entries.values@.len(),
                all == self.picked_upto::<S>(states.reading(), index, count),
                begun == old(work).progress(),
                layout == old(work).layout,
                i <= self.entries.values@.len(),
                work.ready(),
                work.checks.active is None,
                work.continues(old(work)),
                collected_run::<B>(
                    &layout,
                    begun,
                    all,
                    self.picked_upto::<S>(states.reading(), index, i as int).len() as int,
                ) == Ok::<Progress<B::Model>, SolverError>(work.progress()),
            decreases self.entries.values@.len() - i,
        {
            let id = FactorId {
                raw: RawKey { pool: self.entries.id, local: self.entries.keys[i] },
            };
            let ghost n = self.picked_upto::<S>(states.reading(), index, i as int).len() as int;
            assert(self.factors()[i as int].0 == id);
            match work.layout.factor_index.get(id.raw) {
                None => {},
                Some(position) => {
                    let factor = &self.entries.values[i];
                    let ghost now = self.picked_upto::<S>(states.reading(), index, i + 1);
                    proof {
                        self.lemma_picked_extends::<S>(states.reading(), index, i + 1, count);
                        assert(now.len() == n + 1);
                        assert(all.take(n + 1)[n] == now[n]);
                        assert(all[n].position == position);
                        assert(all[n].cost == factor.cost_spec(states.reading()));
                        assert(all[n].unit == Unit::Single(
                            id,
                            emission::<S, T>(*factor, states.reading()),
                        ));
                    }
                    let emitted = match checked_cost(factor.cost(states)) {
                        Err(error) => Err(error),
                        Ok(_) => match emit_single(
                            work,
                            id,
                            factor,
                            states,
                            position,
                        ) {
                            Err(error) => Err(SolverError::Evaluation(error)),
                            Ok(_) => Ok(()),
                        },
                    };
                    match emitted {
                        Ok(_) => {},
                        Err(error) => {
                            proof {
                                lemma_collected_refused::<B>(
                                    &layout,
                                    begun,
                                    all,
                                    n + 1,
                                    all.len() as int,
                                );
                            }
                            return Err(error);
                        },
                    }
                },
            }
            i += 1;
        }
        Ok(())
    }

    fn remove_selected(&mut self, selected: &KeySet) {
        FactorPool::remove_selected(self, selected);
        proof {
            let before = old(self).entries;
            let after = self.entries;
            assert forall|id: FactorId| #[trigger] self.validate_spec(id) == if old(
                self,
            ).validate_spec(id) == Some(Ok::<(), KeyError>(())) && selected@.contains(id.raw) {
                Some(Err::<(), KeyError>(KeyError::Stale))
            } else {
                old(self).validate_spec(id)
            } by {
                after.lemma_survivors(&before, selected@, id.raw.local);
            }
            let was = FactorSchema::<S>::incidence(old(self));
            let now = FactorSchema::<S>::incidence(self);
            assert forall|i: int| 0 <= i < now.len() implies was.contains(#[trigger] now[i]) by {
                let local = after.keys@[i];
                after.lemma_live_position(local, i);
                after.lemma_survivors(&before, selected@, local);
                before.lemma_resident(local);
                let j = before.place(local);
                assert(was[j] == now[i]);
            }
            assert forall|i: int|
                0 <= i < was.len() && !selected@.contains((#[trigger] was[i]).id.raw) implies
                now.contains(was[i]) by {
                let local = before.keys@[i];
                before.lemma_live_position(local, i);
                after.lemma_survivors(&before, selected@, local);
                after.lemma_resident(local);
                let j = after.place(local);
                assert(now[j] == was[i]);
            }
        }
    }
}

impl<M, P> BatchPool<M, P> {
    /// What this family knows of a payload's identity: nothing if another pool issued it.
    pub open spec fn validate_spec(&self, id: FactorId) -> Option<Result<(), KeyError>> {
        if id.raw.pool != self.locations.id {
            None
        } else {
            match self.locations.lookup(id.raw) {
                Ok(_) => Some(Ok(())),
                Err(error) => Some(Err(error)),
            }
        }
    }

    /// The payloads of one batch and their variables.
    pub open spec fn payload_incidence<S: Readable>(&self, b: int) -> Seq<Incidence> where
        M: FactorBatch<S, Factor = P>,
     {
        Seq::new(
            self.selection(b).len(),
            |i: int|
                Incidence {
                    id: self.selection(b)[i].0,
                    variables: self.batches.values@[b].model.variables_spec(
                        self.selection(b)[i].1,
                    ),
                },
        )
    }

    /// The payloads of the first `n` batches and their variables.
    pub open spec fn batch_incidence<S: Readable>(&self, n: int) -> Seq<Incidence> where
        M: FactorBatch<S, Factor = P>,

        decreases n,
    {
        if n <= 0 {
            Seq::empty()
        } else {
            self.batch_incidence::<S>(n - 1) + self.payload_incidence::<S>(n - 1)
        }
    }

    /// The objective contribution of one batch, if it holds payloads.
    pub open spec fn batch_term<S: Readable>(&self, states: S::Reading, b: int) -> Seq<
        Result<M::Scalar, EvaluationError>,
    > where M: FactorBatch<S, Factor = P> {
        if self.selection(b).len() == 0 {
            Seq::empty()
        } else {
            seq![self.batches.values@[b].model.cost_spec(states, self.selection(b))]
        }
    }

    /// The objective contributions of the first `n` batches.
    pub open spec fn batch_terms<S: Readable>(&self, states: S::Reading, n: int) -> Seq<
        Result<M::Scalar, EvaluationError>,
    > where M: FactorBatch<S, Factor = P>
        decreases n,
    {
        if n <= 0 {
            Seq::empty()
        } else {
            self.batch_terms::<S>(states, n - 1) + self.batch_term::<S>(states, n - 1)
        }
    }

    /// The evaluator call on one batch, if it holds payloads.
    pub open spec fn batch_unit<S: Readable>(&self, states: S::Reading, b: int) -> Seq<Unit<M::Scalar>> where
        M: FactorBatch<S, Factor = P>,
     {
        if self.selection(b).len() == 0 {
            Seq::empty()
        } else {
            seq![
                Unit::Many(
                    self.selection(b).len(),
                    batch_emission::<S, M>(
                        self.batches.values@[b].model,
                        states,
                        self.selection(b),
                    ),
                ),
            ]
        }
    }

    /// The evaluator calls on the first `n` batches.
    pub open spec fn batch_units<S: Readable>(&self, states: S::Reading, n: int) -> Seq<Unit<M::Scalar>> where
        M: FactorBatch<S, Factor = P>,

        decreases n,
    {
        if n <= 0 {
            Seq::empty()
        } else {
            self.batch_units::<S>(states, n - 1) + self.batch_unit::<S>(states, n - 1)
        }
    }

    /// The payloads of a batch that have a planned position.
    pub open spec fn group(&self, index: Map<RawKey, usize>, b: int) -> Seq<(FactorId, P)> {
        self.selection(b).filter(|factor: (FactorId, P)| index.contains_key(factor.0.raw))
    }

    /// The payloads of a batch that have a planned position, evaluated together.
    pub open spec fn group_picked<S: Readable>(
        &self,
        states: S::Reading,
        index: Map<RawKey, usize>,
        b: int,
    ) -> Seq<Collected<M::Scalar>> where M: FactorBatch<S, Factor = P> {
        let group = self.group(index, b);
        let model = self.batches.values@[b].model;
        let n = group.len() as int;
        if n == 0 {
            Seq::empty()
        } else {
            seq![
                Collected {
                    position: least(index, group, n),
                    cost: model.cost_spec(states, group),
                    unit: Unit::Many(
                        (greatest(index, group, n) + 1 - least(index, group, n)) as nat,
                        batch_emission::<S, M>(model, states, group),
                    ),
                },
            ]
        }
    }

    /// Those payloads of the first `n` batches that have a planned position, batch by batch.
    pub open spec fn batch_picked<S: Readable>(&self, states: S::Reading, index: Map<RawKey, usize>, n: int) -> Seq<
        Collected<M::Scalar>,
    > where M: FactorBatch<S, Factor = P>
        decreases n,
    {
        if n <= 0 {
            Seq::empty()
        } else {
            self.batch_picked::<S>(states, index, n - 1) + self.group_picked::<S>(
                states,
                index,
                n - 1,
            )
        }
    }

    proof fn lemma_batch_plan_refused<S: Readable>(
        &self,
        blocks: Map<RawKey, usize>,
        planned: Planned,
        n: int,
        m: int,
    ) where M: FactorBatch<S, Factor = P>
        requires
            0 <= n <= m,
            plan_run(
                blocks,
                planned,
                self.batch_incidence::<S>(n),
                self.batch_incidence::<S>(n).len() as int,
            ) is None,
        ensures
            plan_run(
                blocks,
                planned,
                self.batch_incidence::<S>(m),
                self.batch_incidence::<S>(m).len() as int,
            ) is None,
        decreases m,
    {
        if n < m {
            self.lemma_batch_plan_refused::<S>(blocks, planned, n, m - 1);
            lemma_plan_add(
                blocks,
                planned,
                self.batch_incidence::<S>(m - 1),
                self.payload_incidence::<S>(m - 1),
                self.payload_incidence::<S>(m - 1).len() as int,
            );
        }
    }

    proof fn lemma_batch_cost_refused<S: Readable>(&self, states: S::Reading, total: M::Scalar, n: int, m: int) where
        M: FactorBatch<S, Factor = P>,

        requires
            0 <= n <= m,
            cost_run(
                total,
                self.batch_terms::<S>(states, n),
                self.batch_terms::<S>(states, n).len() as int,
            ) is Err,
        ensures
            cost_run(
                total,
                self.batch_terms::<S>(states, m),
                self.batch_terms::<S>(states, m).len() as int,
            ) == cost_run(
                total,
                self.batch_terms::<S>(states, n),
                self.batch_terms::<S>(states, n).len() as int,
            ),
        decreases m,
    {
        if n < m {
            self.lemma_batch_cost_refused::<S>(states, total, n, m - 1);
            lemma_cost_add(
                total,
                self.batch_terms::<S>(states, m - 1),
                self.batch_term::<S>(states, m - 1),
                self.batch_term::<S>(states, m - 1).len() as int,
            );
        }
    }

    proof fn lemma_batch_units_refused<S: Readable, B: LeastSquaresBackend<Scalar = M::Scalar>>(
        &self,
        states: S::Reading,
        layout: &Layout,
        position: int,
        progress: Progress<B::Model>,
        n: int,
        m: int,
    ) where M: FactorBatch<S, Factor = P>
        requires
            0 <= n <= m,
            units_run::<B>(
                layout,
                position,
                progress,
                self.batch_units::<S>(states, n),
                self.batch_units::<S>(states, n).len() as int,
            ) is Err,
        ensures
            units_run::<B>(
                layout,
                position,
                progress,
                self.batch_units::<S>(states, m),
                self.batch_units::<S>(states, m).len() as int,
            ) == units_run::<B>(
                layout,
                position,
                progress,
                self.batch_units::<S>(states, n),
                self.batch_units::<S>(states, n).len() as int,
            ),
        decreases m,
    {
        if n < m {
            self.lemma_batch_units_refused::<S, B>(states, layout, position, progress, n, m - 1);
            lemma_units_add::<B>(
                layout,
                position,
                progress,
                self.batch_units::<S>(states, m - 1),
                self.batch_unit::<S>(states, m - 1),
                self.batch_unit::<S>(states, m - 1).len() as int,
            );
        }
    }

    proof fn lemma_batch_picked_refused<S: Readable, B: LeastSquaresBackend<Scalar = M::Scalar>>(
        &self,
        states: S::Reading,
        layout: &Layout,
        progress: Progress<B::Model>,
        n: int,
        m: int,
    ) where M: FactorBatch<S, Factor = P>
        requires
            0 <= n <= m,
            collected_run::<B>(
                layout,
                progress,
                self.batch_picked::<S>(states, layout.factor_index@, n),
                self.batch_picked::<S>(states, layout.factor_index@, n).len() as int,
            ) is Err,
        ensures
            collected_run::<B>(
                layout,
                progress,
                self.batch_picked::<S>(states, layout.factor_index@, m),
                self.batch_picked::<S>(states, layout.factor_index@, m).len() as int,
            ) == collected_run::<B>(
                layout,
                progress,
                self.batch_picked::<S>(states, layout.factor_index@, n),
                self.batch_picked::<S>(states, layout.factor_index@, n).len() as int,
            ),
        decreases m,
    {
        if n < m {
            let index = layout.factor_index@;
            self.lemma_batch_picked_refused::<S, B>(states, layout, progress, n, m - 1);
            let more = self.group_picked::<S>(states, index, m - 1);
            lemma_collected_add::<B>(
                layout,
                progress,
                self.batch_picked::<S>(states, index, m - 1),
                more,
                more.len() as int,
            );
        }
    }

    proof fn lemma_batch_cover<S: Readable>(&self, states: S::Reading, n: int) where M: FactorBatch<S, Factor = P>
        requires
            0 <= n,
        ensures
            covered(self.batch_units::<S>(states, n), self.batch_units::<S>(states, n).len() as int)
                == self.batch_incidence::<S>(n).len(),
        decreases n,
    {
        if n > 0 {
            self.lemma_batch_cover::<S>(states, n - 1);
            let last = self.batch_unit::<S>(states, n - 1);
            lemma_covered_add(self.batch_units::<S>(states, n - 1), last, last.len() as int);
            reveal_with_fuel(covered, 2);
        }
    }

    proof fn lemma_incidence_grows<S: Readable>(&self, n: int, m: int) where M: FactorBatch<S, Factor = P>
        requires
            0 <= n <= m,
        ensures
            self.batch_incidence::<S>(n).len() <= self.batch_incidence::<S>(m).len(),
        decreases m,
    {
        if n < m {
            self.lemma_incidence_grows::<S>(n, m - 1);
        }
    }

    /// The factor stored under a live identity, with its variables.
    pub open spec fn incidence_of<S: Readable>(&self, local: LocalKey) -> Incidence where
        M: FactorBatch<S, Factor = P>,
     {
        Incidence {
            id: FactorId { raw: RawKey { pool: self.locations.id, local } },
            variables: self.model_of(local).variables_spec(self.payload(local)),
        }
    }

    proof fn lemma_payload_incidence<S: Readable>(&self, b: int, i: int) where M: FactorBatch<S, Factor = P>
        requires
            self.wf(),
            0 <= b < self.batches.values@.len(),
            0 <= i < self.batches.values@[b].keys@.len(),
        ensures
            self.locations.live(self.batches.values@[b].keys@[i]),
            i < self.payload_incidence::<S>(b).len(),
            self.payload_incidence::<S>(b)[i] == self.incidence_of::<S>(
                self.batches.values@[b].keys@[i],
            ),
    {
        let local = self.batches.values@[b].keys@[i];
        assert(self.batches.values@[b].values@.len() == self.batches.values@[b].keys@.len());
        assert(self.points_at(b, i));
        self.locations.lemma_resident(local);
        let slot = self.batches.keys@[b].slot;
        assert(self.batches.slots@[slot as int].dense_index == b);
    }

    /// Every planned payload is stored, and planned as it is stored.
    pub proof fn lemma_incidence_is_live<S: Readable>(&self, n: int, k: int) where M: FactorBatch<S, Factor = P>
        requires
            self.wf(),
            0 <= n <= self.batches.values@.len(),
            0 <= k < self.batch_incidence::<S>(n).len(),
        ensures
            self.locations.live(self.batch_incidence::<S>(n)[k].id.raw.local),
            self.batch_incidence::<S>(n)[k] == self.incidence_of::<S>(
                self.batch_incidence::<S>(n)[k].id.raw.local,
            ),
        decreases n,
    {
        let before = self.batch_incidence::<S>(n - 1);
        if k < before.len() {
            self.lemma_incidence_is_live::<S>(n - 1, k);
        } else {
            assert(self.batches.values@[n - 1].values@.len() == self.batches.values@[n
                - 1].keys@.len());
            self.lemma_payload_incidence::<S>(n - 1, k - before.len());
        }
    }

    proof fn lemma_incidence_contains<S: Readable>(&self, n: int, b: int, i: int) where
        M: FactorBatch<S, Factor = P>,

        requires
            0 <= b < n,
            0 <= i < self.payload_incidence::<S>(b).len(),
        ensures
            self.batch_incidence::<S>(n).contains(self.payload_incidence::<S>(b)[i]),
        decreases n,
    {
        let before = self.batch_incidence::<S>(n - 1);
        let all = self.batch_incidence::<S>(n);
        let wanted = self.payload_incidence::<S>(b)[i];
        if b == n - 1 {
            assert(all[before.len() + i] == wanted);
        } else {
            self.lemma_incidence_contains::<S>(n - 1, b, i);
            let j = before.index_of(wanted);
            assert(all[j] == wanted);
        }
    }

    /// Every stored payload is planned.
    pub proof fn lemma_live_has_incidence<S: Readable>(&self, local: LocalKey) where
        M: FactorBatch<S, Factor = P>,

        requires
            self.wf(),
            self.locations.live(local),
        ensures
            self.batch_incidence::<S>(self.batches.values@.len() as int).contains(
                self.incidence_of::<S>(local),
            ),
    {
        self.locations.lemma_resident(local);
        let l = self.locations.place(local);
        assert(self.locations.keys@[l] == local);
        assert(self.located(l));
        let b = self.batch_of(l);
        let i = self.locations.values@[l].dense_index as int;
        assert(self.batches.keys@[b].slot == self.locations.values@[l].batch_slot);
        self.lemma_payload_incidence::<S>(b, i);
        self.lemma_incidence_contains::<S>(self.batches.values@.len() as int, b, i);
    }

    /// Plan the payloads of one batch.
    fn plan_batch<S: Readable>(&self, layout: &mut Layout, b: usize) -> (planned: Result<
        (),
        SolverError,
    >) where M: FactorBatch<S, Factor = P>
        requires
            self.wf(),
            b < self.batches.values@.len(),
            old(layout).wf(),
        ensures
            final(layout).wf(),
            final(layout).dimension == old(layout).dimension,
            final(layout).blocks@ == old(layout).blocks@,
            final(layout).block_index@ == old(layout).block_index@,
            match plan_run(
                old(layout).block_index@,
                old(layout).planned(),
                self.payload_incidence::<S>(b as int),
                self.payload_incidence::<S>(b as int).len() as int,
            ) {
                None => planned == Err::<(), SolverError>(
                    SolverError::Evaluation(EvaluationError::InvalidEmission),
                ),
                Some(after) => planned is Ok && final(layout).planned() == after,
            },
    {
        let ghost incidence = self.payload_incidence::<S>(b as int);
        let ghost start = *layout;
        let batch = &self.batches.values[b];
        let mut variables: Vec<BlockId> = Vec::new();
        let mut i: usize = 0;
        while i < batch.values.len()
            invariant
                self.wf(),
                b < self.batches.values@.len(),
                *batch == self.batches.values@[b as int],
                incidence == self.payload_incidence::<S>(b as int),
                start == *old(layout),
                i <= batch.values@.len(),
                layout.wf(),
                layout.dimension == start.dimension,
                layout.blocks@ == start.blocks@,
                layout.block_index@ == start.block_index@,
                plan_run(start.block_index@, start.planned(), incidence, i as int) == Some(
                    layout.planned(),
                ),
            decreases batch.values@.len() - i,
        {
            let id = FactorId {
                raw: RawKey { pool: self.locations.id, local: batch.keys[i] },
            };
            variables.clear();
            batch.model.visit_variables(&batch.values[i], &mut variables);
            proof {
                assert(variables@ =~= incidence[i as int].variables);
                assert(incidence[i as int].id == id);
            }
            let ghost before = layout.planned();
            match layout.factor(id, variables.as_slice()) {
                Ok(_) => {
                    assert(plan_step(start.block_index@, before, incidence[i as int]) == Some(
                        layout.planned(),
                    ));
                },
                Err(error) => {
                    proof {
                        lemma_plan_refused(
                            start.block_index@,
                            start.planned(),
                            incidence,
                            i + 1,
                            incidence.len() as int,
                        );
                    }
                    return Err(error);
                },
            }
            i += 1;
        }
        Ok(())
    }

    proof fn lemma_same_incidence<S: Readable>(&self, other: &Self, n: int) where
        M: FactorBatch<S, Factor = P>,

        requires
            self.same_contents(other),
            n <= self.batches.values@.len(),
        ensures
            self.batch_incidence::<S>(n) == other.batch_incidence::<S>(n),
        decreases n,
    {
        if n > 0 {
            self.lemma_same_incidence::<S>(other, n - 1);
            assert(self.batches.values@[n - 1].model == other.batches.values@[n - 1].model);
            assert(self.payload_incidence::<S>(n - 1) =~= other.payload_incidence::<S>(n - 1));
        }
    }

    proof fn lemma_same_evaluation<S: Readable>(&self, other: &Self, states: S::Reading, n: int) where
        M: FactorBatch<S, Factor = P>,

        requires
            self.same_contents(other),
            n <= self.batches.values@.len(),
        ensures
            self.batch_terms::<S>(states, n) == other.batch_terms::<S>(states, n),
            self.batch_units::<S>(states, n) == other.batch_units::<S>(states, n),
        decreases n,
    {
        if n > 0 {
            self.lemma_same_evaluation::<S>(other, states, n - 1);
            assert(self.batches.values@[n - 1].model == other.batches.values@[n - 1].model);
            assert(self.selection(n - 1) == other.selection(n - 1));
        }
    }

    /// Check and emit, all together, the payloads of one batch that have a position.
    fn collect_batch<S: Readable, B: LeastSquaresBackend<Scalar = M::Scalar>>(
        &mut self,
        states: &S,
        work: &mut Workspace<B>,
        b: usize,
    ) -> (emitted: Result<(), SolverError>) where M: FactorBatch<S, Factor = P>
        requires
            old(self).wf(),
            states.wf(),
            b < old(self).batches.values@.len(),
            old(work).ready(),
            old(work).checks.active is None,
        ensures
            final(self).wf(),
            final(self).same_contents(old(self)),
            final(work).ready(),
            final(work).continues(old(work)),
            match collected_run::<B>(
                &old(work).layout,
                old(work).progress(),
                old(self).group_picked::<S>(
                    states.reading(),
                    old(work).layout.factor_index@,
                    b as int,
                ),
                old(self).group_picked::<S>(
                    states.reading(),
                    old(work).layout.factor_index@,
                    b as int,
                ).len() as int,
            ) {
                Err(error) => emitted == Err::<(), SolverError>(error),
                Ok(reached) => {
                    &&& emitted is Ok
                    &&& final(work).progress() == reached
                    &&& final(work).checks.active is None
                },
            },
    {
        let ghost layout = work.layout;
        let ghost index = layout.factor_index@;
        let ghost keys = self.batches.values@[b as int].keys@;
        let ghost all = self.batches.values@[b as int].values@;
        let ghost entries = self.selection(b as int);
        let ghost pred = |factor: (FactorId, P)| index.contains_key(factor.0.raw);
        let pool = self.locations.id;
        let count: usize = self.batches.values[b].keys.len();
        let mut marks: Vec<bool> = Vec::new();
        let mut i: usize = 0;
        while i < count
            invariant
                *self == *old(self),
                b < self.batches.values@.len(),
                work.layout == layout,
                index == layout.factor_index@,
                keys == self.batches.values@[b as int].keys@,
                count == keys.len(),
                i <= count,
                marks@.len() == i,
                forall|j: int|
                    0 <= j < i ==> #[trigger] marks@[j] == index.contains_key(
                        RawKey { pool, local: keys[j] },
                    ),
            decreases count - i,
        {
            let raw = RawKey { pool, local: self.batches.values[b].keys[i] };
            marks.push(work.layout.factor_index.get(raw).is_some());
            i += 1;
        }
        let picked = chosen(self.batches.values[b].keys.as_slice(), marks.as_slice());
        let ghost group = self.group(index, b as int);
        proof {
            lemma_marked_pairs(pool, keys, all, marks@, 0);
            lemma_marked_filter(entries, marks@, 0, pred);
            assert(entries.skip(0) =~= entries);
            assert(group == identified(pool, picked@, marked(all, marks@, true, 0)));
        }
        if picked.len() == 0 {
            proof {
                self.lemma_same_contents_reflexive();
            }
            return Ok(());
        }
        let mut start: usize = 0;
        let mut end: usize = 0;
        let mut k: usize = 0;
        while k < picked.len()
            invariant
                work.layout == layout,
                layout.wf(),
                index == layout.factor_index@,
                k <= picked@.len(),
                group == identified(pool, picked@, marked(all, marks@, true, 0)),
                group.len() == picked@.len(),
                forall|f: int|
                    0 <= f < group.len() ==> index.contains_key((#[trigger] group[f]).0.raw),
                start <= end <= layout.factors@.len(),
                k > 0 ==> start == least(index, group, k as int),
                k > 0 ==> end == greatest(index, group, k as int) + 1,
            decreases picked@.len() - k,
        {
            let raw = RawKey { pool, local: picked[k] };
            assert(group[k as int].0.raw == raw);
            match work.layout.factor_index.get(raw) {
                Some(position) => {
                    assert(work.layout.factors@.len() == work.layout.factors.len());
                    if k == 0 || position < start {
                        start = position;
                    }
                    if k == 0 || position >= end {
                        end = position + 1;
                    }
                },
                None => {},
            }
            k += 1;
        }
        let mut payloads: Vec<P> = Vec::new();
        std::mem::swap(&mut payloads, &mut self.batches.values[b].values);
        let (selected, rest) = part(payloads, marks.as_slice());
        proof {
            reveal_with_fuel(collected_run, 2);
        }
        let selection = FactorSelection::contiguous(
            pool,
            picked.as_slice(),
            selected.as_slice(),
        );
        let model = &self.batches.values[b].model;
        let emitted = match checked_cost(model.cost(states, selection.duplicate())) {
            Err(error) => Err(error),
            Ok(_) => match emit_batch(
                work,
                model,
                selection,
                states,
                start,
                end - start,
            ) {
                Err(error) => Err(SolverError::Evaluation(error)),
                Ok(_) => Ok(()),
            },
        };
        let mut restored = join(selected, rest, marks.as_slice(), Ghost(all));
        std::mem::swap(&mut restored, &mut self.batches.values[b].values);
        proof {
            assert(self.same_contents(old(self)));
            self.lemma_same_contents_wf(old(self));
        }
        emitted
    }
}

impl<S: Readable, M: FactorBatch<S>> FactorSchema<S> for BatchPool<M, M::Factor> {
    type Scalar = M::Scalar;

    open spec fn wf(&self) -> bool {
        BatchPool::wf(self)
    }

    open spec fn pools(&self) -> Set<PoolId> {
        set![self.locations.id]
    }

    open spec fn incidence(&self) -> Seq<Incidence> {
        self.batch_incidence::<S>(self.batches.values@.len() as int)
    }

    open spec fn cost_terms(&self, states: S::Reading) -> Seq<Result<M::Scalar, EvaluationError>> {
        self.batch_terms::<S>(states, self.batches.values@.len() as int)
    }

    open spec fn units(&self, states: S::Reading) -> Seq<Unit<M::Scalar>> {
        self.batch_units::<S>(states, self.batches.values@.len() as int)
    }

    open spec fn picked(&self, states: S::Reading, index: Map<RawKey, usize>) -> Seq<Collected<M::Scalar>> {
        self.batch_picked::<S>(states, index, self.batches.values@.len() as int)
    }

    open spec fn resolve_spec(&self, id: FactorId) -> Option<Result<(), KeyError>> {
        self.validate_spec(id)
    }

    open spec fn same_factors(&self, other: &Self) -> bool {
        self.same_contents(other)
    }

    open spec fn keeps(&self, before: &Self) -> bool {
        self.locations.id == before.locations.id && self.keeps_payloads(before)
    }

    open spec fn same_batches(&self, before: &Self) -> bool {
        BatchPool::same_batches(self, before)
    }

    proof fn lemma_keeps_through(&self, during: &Self, before: &Self) {
    }

    proof fn lemma_same_reflexive(&self) {
    }

    proof fn lemma_same_factors(&self, other: &Self) {
        self.lemma_same_contents_wf(other);
        let n = self.batches.values@.len() as int;
        self.lemma_same_incidence::<S>(other, n);
        assert forall|states: S::Reading| #[trigger]
            FactorSchema::<S>::cost_terms(self, states) == FactorSchema::<S>::cost_terms(
                other,
                states,
            ) by {
            self.lemma_same_evaluation::<S>(other, states, n);
        }
        assert forall|states: S::Reading| #[trigger]
            FactorSchema::<S>::units(self, states) == FactorSchema::<S>::units(other, states) by {
            self.lemma_same_evaluation::<S>(other, states, n);
        }
    }

    proof fn lemma_incidence(&self) {
        let n = self.batches.values@.len() as int;
        assert forall|i: int|
            0 <= i < FactorSchema::<S>::incidence(self).len() implies self.validate_spec(
            (#[trigger] FactorSchema::<S>::incidence(self)[i]).id,
        ) == Some(Ok::<(), KeyError>(())) by {
            self.lemma_incidence_is_live::<S>(n, i);
            self.locations.lemma_resident(self.batch_incidence::<S>(n)[i].id.raw.local);
        }
    }

    proof fn lemma_covers(&self, states: S::Reading) {
        self.lemma_batch_cover::<S>(states, self.batches.values@.len() as int);
    }

    fn plan(&self, layout: &mut Layout) -> (planned: Result<(), SolverError>) {
        let ghost start = *layout;
        let mut b: usize = 0;
        while b < self.batches.values.len()
            invariant
                self.wf(),
                start == *old(layout),
                b <= self.batches.values@.len(),
                layout.wf(),
                layout.dimension == start.dimension,
                layout.blocks@ == start.blocks@,
                layout.block_index@ == start.block_index@,
                plan_run(
                    start.block_index@,
                    start.planned(),
                    self.batch_incidence::<S>(b as int),
                    self.batch_incidence::<S>(b as int).len() as int,
                ) == Some(layout.planned()),
            decreases self.batches.values@.len() - b,
        {
            proof {
                lemma_plan_add(
                    start.block_index@,
                    start.planned(),
                    self.batch_incidence::<S>(b as int),
                    self.payload_incidence::<S>(b as int),
                    self.payload_incidence::<S>(b as int).len() as int,
                );
            }
            match self.plan_batch::<S>(layout, b) {
                Ok(_) => {},
                Err(error) => {
                    proof {
                        self.lemma_batch_plan_refused::<S>(
                            start.block_index@,
                            start.planned(),
                            b + 1,
                            self.batches.values@.len() as int,
                        );
                    }
                    return Err(error);
                },
            }
            b += 1;
        }
        Ok(())
    }

    fn cost(&self, states: &S, total: M::Scalar) -> (cost: Result<M::Scalar, SolverError>) {
        let mut sum = total;
        let mut b: usize = 0;
        while b < self.batches.values.len()
            invariant
                self.wf(),
                states.wf(),
                b <= self.batches.values@.len(),
                cost_run(
                    total,
                    self.batch_terms::<S>(states.reading(), b as int),
                    self.batch_terms::<S>(states.reading(), b as int).len() as int,
                ) == Ok::<M::Scalar, SolverError>(sum),
            decreases self.batches.values@.len() - b,
        {
            let batch = &self.batches.values[b];
            assert(batch.values@.len() == batch.keys@.len());
            let ghost before = self.batch_terms::<S>(states.reading(), b as int);
            let ghost term = self.batch_term::<S>(states.reading(), b as int);
            proof {
                lemma_cost_add(total, before, term, term.len() as int);
                reveal_with_fuel(cost_run, 2);
            }
            if batch.values.len() > 0 {
                let selection = FactorSelection::contiguous(
                    self.locations.id,
                    batch.keys.as_slice(),
                    batch.values.as_slice(),
                );
                match checked_cost(batch.model.cost(states, selection)) {
                    Ok(cost) => {
                        sum = sum.plus(cost);
                    },
                    Err(error) => {
                        proof {
                            self.lemma_batch_cost_refused::<S>(
                                states.reading(),
                                total,
                                b + 1,
                                self.batches.values@.len() as int,
                            );
                        }
                        return Err(error);
                    },
                }
            } else {
                assert(self.batch_terms::<S>(states.reading(), b + 1) =~= before);
            }
            b += 1;
        }
        Ok(sum)
    }

    #[verifier::rlimit(40)]
    fn linearize<B: LeastSquaresBackend<Scalar = M::Scalar>>(
        &self,
        states: &S,
        work: &mut Workspace<B>,
        position: usize,
    ) -> (emitted: Result<usize, SolverError>) {
        let ghost begun = work.progress();
        let ghost layout = work.layout;
        assert(work.layout.factors@.len() == work.layout.factors.len());
        let mut reached: usize = position;
        let mut b: usize = 0;
        while b < self.batches.values.len()
            invariant
                self.wf(),
                states.wf(),
                begun == old(work).progress(),
                layout == old(work).layout,
                layout.factors@.len() <= usize::MAX,
                position + self.batch_incidence::<S>(self.batches.values@.len() as int).len()
                    <= layout.factors@.len(),
                b <= self.batches.values@.len(),
                reached == position + self.batch_incidence::<S>(b as int).len(),
                work.ready(),
                work.checks.active is None,
                work.continues(old(work)),
                units_run::<B>(
                    &layout,
                    position as int,
                    begun,
                    self.batch_units::<S>(states.reading(), b as int),
                    self.batch_units::<S>(states.reading(), b as int).len() as int,
                ) == Ok::<Progress<B::Model>, EvaluationError>(work.progress()),
            decreases self.batches.values@.len() - b,
        {
            let batch = &self.batches.values[b];
            assert(batch.values@.len() == batch.keys@.len());
            let ghost before = self.batch_units::<S>(states.reading(), b as int);
            let ghost unit = self.batch_unit::<S>(states.reading(), b as int);
            proof {
                self.lemma_batch_cover::<S>(states.reading(), b as int);
                self.lemma_incidence_grows::<S>(b + 1, self.batches.values@.len() as int);
                lemma_units_add::<B>(
                    &layout,
                    position as int,
                    begun,
                    before,
                    unit,
                    unit.len() as int,
                );
                reveal_with_fuel(units_run, 2);
                reveal_with_fuel(covered, 2);
            }
            if batch.values.len() > 0 {
                let count: usize = batch.values.len();
                let selection = FactorSelection::contiguous(
                    self.locations.id,
                    batch.keys.as_slice(),
                    batch.values.as_slice(),
                );
                match emit_batch(
                    work,
                    &batch.model,
                    selection,
                    states,
                    reached,
                    count,
                ) {
                    Ok(_) => {},
                    Err(error) => {
                        proof {
                            self.lemma_batch_units_refused::<S, B>(
                                states.reading(),
                                &layout,
                                position as int,
                                begun,
                                b + 1,
                                self.batches.values@.len() as int,
                            );
                        }
                        return Err(SolverError::Evaluation(error));
                    },
                }
                reached = reached + count;
            } else {
                assert(self.batch_units::<S>(states.reading(), b + 1) =~= before);
            }
            b += 1;
        }
        Ok(reached)
    }

    fn collect<B: LeastSquaresBackend<Scalar = M::Scalar>>(
        &mut self,
        states: &S,
        work: &mut Workspace<B>,
    ) -> (emitted: Result<(), SolverError>) {
        let ghost begun = work.progress();
        let ghost layout = work.layout;
        let ghost index = layout.factor_index@;
        let ghost first = *self;
        proof {
            self.lemma_same_contents_reflexive();
        }
        let count: usize = self.batches.values.len();
        let mut b: usize = 0;
        while b < count
            invariant
                first == *old(self),
                first.wf(),
                self.wf(),
                self.same_contents(&first),
                states.wf(),
                index == layout.factor_index@,
                begun == old(work).progress(),
                layout == old(work).layout,
                count == first.batches.values@.len(),
                b <= count,
                work.ready(),
                work.checks.active is None,
                work.continues(old(work)),
                collected_run::<B>(
                    &layout,
                    begun,
                    first.batch_picked::<S>(states.reading(), index, b as int),
                    first.batch_picked::<S>(states.reading(), index, b as int).len() as int,
                ) == Ok::<Progress<B::Model>, SolverError>(work.progress()),
            decreases count - b,
        {
            let ghost before = *self;
            proof {
                let more = first.group_picked::<S>(states.reading(), index, b as int);
                lemma_collected_add::<B>(
                    &layout,
                    begun,
                    first.batch_picked::<S>(states.reading(), index, b as int),
                    more,
                    more.len() as int,
                );
                assert(self.batches.values@[b as int].model
                    == first.batches.values@[b as int].model);
                assert(self.selection(b as int) == first.selection(b as int));
                assert(self.group_picked::<S>(states.reading(), index, b as int) == more);
            }
            let emitted = self.collect_batch(states, work, b);
            proof {
                Self::lemma_same_contents_transitive(self, &before, &first);
            }
            match emitted {
                Ok(_) => {},
                Err(error) => {
                    proof {
                        first.lemma_batch_picked_refused::<S, B>(
                            states.reading(),
                            &layout,
                            begun,
                            b + 1,
                            count as int,
                        );
                    }
                    return Err(error);
                },
            }
            b += 1;
        }
        Ok(())
    }

    fn remove_selected(&mut self, selected: &KeySet) {
        BatchPool::remove_selected(self, selected);
        proof {
            let before = old(self).locations;
            let after = self.locations;
            let n = old(self).batches.values@.len() as int;
            let m = self.batches.values@.len() as int;
            let was = old(self).batch_incidence::<S>(n);
            let now = self.batch_incidence::<S>(m);
            assert forall|id: FactorId| #[trigger] self.validate_spec(id) == if old(
                self,
            ).validate_spec(id) == Some(Ok::<(), KeyError>(())) && selected@.contains(id.raw) {
                Some(Err::<(), KeyError>(KeyError::Stale))
            } else {
                old(self).validate_spec(id)
            } by {
                assert(after.live(id.raw.local) <==> before.live(id.raw.local)
                    && !selected@.contains(RawKey { pool: before.id, local: id.raw.local }));
            }
            assert forall|i: int| 0 <= i < now.len() implies was.contains(#[trigger] now[i]) by {
                self.lemma_incidence_is_live::<S>(m, i);
                let local = now[i].id.raw.local;
                assert(after.live(local));
                old(self).lemma_live_has_incidence::<S>(local);
            }
            assert forall|i: int|
                0 <= i < was.len() && !selected@.contains((#[trigger] was[i]).id.raw) implies
                now.contains(was[i]) by {
                old(self).lemma_incidence_is_live::<S>(n, i);
                let local = was[i].id.raw.local;
                assert(before.live(local));
                assert(after.live(local));
                self.lemma_live_has_incidence::<S>(local);
            }
        }
    }
}

impl<S: Readable, X, Y> FactorSchema<S> for Pair<X, Y> where
    X: FactorSchema<S>,
    Y: FactorSchema<S, Scalar = <X as FactorSchema<S>>::Scalar>,
 {
    type Scalar = <X as FactorSchema<S>>::Scalar;

    open spec fn wf(&self) -> bool {
        &&& self.first.wf()
        &&& self.second.wf()
        &&& self.first.pools().disjoint(self.second.pools())
    }

    open spec fn pools(&self) -> Set<PoolId> {
        self.first.pools().union(self.second.pools())
    }

    open spec fn incidence(&self) -> Seq<Incidence> {
        self.first.incidence() + self.second.incidence()
    }

    open spec fn cost_terms(&self, states: S::Reading) -> Seq<
        Result<<X as FactorSchema<S>>::Scalar, EvaluationError>,
    > {
        self.first.cost_terms(states) + self.second.cost_terms(states)
    }

    open spec fn units(&self, states: S::Reading) -> Seq<Unit<<X as FactorSchema<S>>::Scalar>> {
        self.first.units(states) + self.second.units(states)
    }

    open spec fn picked(&self, states: S::Reading, index: Map<RawKey, usize>) -> Seq<
        Collected<<X as FactorSchema<S>>::Scalar>,
    > {
        self.first.picked(states, index) + self.second.picked(states, index)
    }

    open spec fn resolve_spec(&self, id: FactorId) -> Option<Result<(), KeyError>> {
        match self.first.resolve_spec(id) {
            Some(known) => Some(known),
            None => self.second.resolve_spec(id),
        }
    }

    open spec fn same_factors(&self, other: &Self) -> bool {
        self.first.same_factors(&other.first) && self.second.same_factors(&other.second)
    }

    open spec fn keeps(&self, before: &Self) -> bool {
        self.first.keeps(&before.first) && self.second.keeps(&before.second)
    }

    open spec fn same_batches(&self, before: &Self) -> bool {
        self.first.same_batches(&before.first) && self.second.same_batches(&before.second)
    }

    proof fn lemma_keeps_through(&self, during: &Self, before: &Self) {
        self.first.lemma_keeps_through(&during.first, &before.first);
        self.second.lemma_keeps_through(&during.second, &before.second);
    }

    proof fn lemma_same_reflexive(&self) {
        self.first.lemma_same_reflexive();
        self.second.lemma_same_reflexive();
    }

    proof fn lemma_same_factors(&self, other: &Self) {
        self.first.lemma_same_factors(&other.first);
        self.second.lemma_same_factors(&other.second);
    }

    proof fn lemma_incidence(&self) {
        self.first.lemma_incidence();
        self.second.lemma_incidence();
        let a = self.first.incidence();
        let b = self.second.incidence();
        assert forall|i: int| 0 <= i < (a + b).len() implies self.resolve_spec(
            (#[trigger] (a + b)[i]).id,
        ) == Some(Ok::<(), KeyError>(())) by {
            if i < a.len() {
                assert((a + b)[i] == a[i]);
            } else {
                assert((a + b)[i] == b[i - a.len()]);
                let id = b[i - a.len()].id;
                assert(self.second.resolve_spec(id) is Some);
                assert(self.first.resolve_spec(id) is None);
            }
        }
    }

    proof fn lemma_covers(&self, states: S::Reading) {
        self.first.lemma_covers(states);
        self.second.lemma_covers(states);
        let b = self.second.units(states);
        lemma_covered_add(self.first.units(states), b, b.len() as int);
    }

    fn plan(&self, layout: &mut Layout) -> (planned: Result<(), SolverError>) {
        proof {
            lemma_plan_add(
                layout.block_index@,
                layout.planned(),
                self.first.incidence(),
                self.second.incidence(),
                self.second.incidence().len() as int,
            );
        }
        match self.first.plan(layout) {
            Ok(_) => {},
            Err(error) => {
                return Err(error);
            },
        }
        self.second.plan(layout)
    }

    fn cost(&self, states: &S, total: <X as FactorSchema<S>>::Scalar) -> (cost: Result<
        <X as FactorSchema<S>>::Scalar,
        SolverError,
    >) {
        proof {
            let b = self.second.cost_terms(states.reading());
            lemma_cost_add(total, self.first.cost_terms(states.reading()), b, b.len() as int);
        }
        match self.first.cost(states, total) {
            Ok(sum) => self.second.cost(states, sum),
            Err(error) => Err(error),
        }
    }

    fn linearize<B: LeastSquaresBackend<Scalar = <X as FactorSchema<S>>::Scalar>>(
        &self,
        states: &S,
        work: &mut Workspace<B>,
        position: usize,
    ) -> (emitted: Result<usize, SolverError>) {
        proof {
            let b = self.second.units(states.reading());
            lemma_units_add::<B>(
                &work.layout,
                position as int,
                work.progress(),
                self.first.units(states.reading()),
                b,
                b.len() as int,
            );
            self.first.lemma_covers(states.reading());
        }
        assert(work.layout.factors@.len() == work.layout.factors.len());
        match self.first.linearize(states, work, position) {
            Ok(middle) => self.second.linearize(states, work, middle),
            Err(error) => Err(error),
        }
    }

    fn collect<B: LeastSquaresBackend<Scalar = <X as FactorSchema<S>>::Scalar>>(
        &mut self,
        states: &S,
        work: &mut Workspace<B>,
    ) -> (emitted: Result<(), SolverError>) {
        proof {
            let b = self.second.picked(states.reading(), work.layout.factor_index@);
            lemma_collected_add::<B>(
                &work.layout,
                work.progress(),
                self.first.picked(states.reading(), work.layout.factor_index@),
                b,
                b.len() as int,
            );
        }
        proof {
            self.second.lemma_same_reflexive();
        }
        let emitted = match self.first.collect(states, work) {
            Ok(_) => self.second.collect(states, work),
            Err(error) => Err(error),
        };
        proof {
            self.first.lemma_same_factors(&old(self).first);
            self.second.lemma_same_factors(&old(self).second);
        }
        emitted
    }

    fn remove_selected(&mut self, selected: &KeySet) {
        self.first.remove_selected(selected);
        self.second.remove_selected(selected);
        proof {
            let a = old(self).first.incidence();
            let b = old(self).second.incidence();
            let was = a + b;
            let now = self.first.incidence() + self.second.incidence();
            assert forall|i: int| 0 <= i < now.len() implies was.contains(#[trigger] now[i]) by {
                if i < self.first.incidence().len() {
                    assert(a.contains(self.first.incidence()[i]));
                    let j = a.index_of(now[i]);
                    assert(was[j] == now[i]);
                } else {
                    assert(b.contains(self.second.incidence()[i - self.first.incidence().len()]));
                    let j = b.index_of(now[i]);
                    assert(was[a.len() + j] == now[i]);
                }
            }
            assert forall|i: int|
                0 <= i < was.len() && !selected@.contains((#[trigger] was[i]).id.raw) implies
                now.contains(was[i]) by {
                if i < a.len() {
                    assert(was[i] == a[i]);
                    let j = self.first.incidence().index_of(was[i]);
                    assert(now[j] == was[i]);
                } else {
                    assert(was[i] == b[i - a.len()]);
                    let j = self.second.incidence().index_of(was[i]);
                    assert(now[self.first.incidence().len() + j] == was[i]);
                }
            }
        }
    }
}

impl<S: Readable, R: Real> FactorSchema<S> for Nothing<R> {
    type Scalar = R;

    open spec fn wf(&self) -> bool {
        true
    }

    open spec fn pools(&self) -> Set<PoolId> {
        Set::empty()
    }

    open spec fn incidence(&self) -> Seq<Incidence> {
        Seq::empty()
    }

    open spec fn cost_terms(&self, states: S::Reading) -> Seq<Result<R, EvaluationError>> {
        Seq::empty()
    }

    open spec fn units(&self, states: S::Reading) -> Seq<Unit<R>> {
        Seq::empty()
    }

    open spec fn picked(&self, states: S::Reading, index: Map<RawKey, usize>) -> Seq<Collected<R>> {
        Seq::empty()
    }

    open spec fn resolve_spec(&self, id: FactorId) -> Option<Result<(), KeyError>> {
        None
    }

    open spec fn same_factors(&self, other: &Self) -> bool {
        true
    }

    open spec fn keeps(&self, before: &Self) -> bool {
        true
    }

    open spec fn same_batches(&self, before: &Self) -> bool {
        true
    }

    proof fn lemma_keeps_through(&self, during: &Self, before: &Self) {
    }

    proof fn lemma_same_reflexive(&self) {
    }

    proof fn lemma_same_factors(&self, other: &Self) {
    }

    proof fn lemma_incidence(&self) {
    }

    proof fn lemma_covers(&self, states: S::Reading) {
    }

    fn plan(&self, layout: &mut Layout) -> (planned: Result<(), SolverError>) {
        Ok(())
    }

    fn cost(&self, states: &S, total: R) -> (cost: Result<R, SolverError>) {
        Ok(total)
    }

    fn linearize<B: LeastSquaresBackend<Scalar = R>>(
        &self,
        states: &S,
        work: &mut Workspace<B>,
        position: usize,
    ) -> (emitted: Result<usize, SolverError>) {
        Ok(position)
    }

    fn collect<B: LeastSquaresBackend<Scalar = R>>(
        &mut self,
        states: &S,
        work: &mut Workspace<B>,
    ) -> (emitted: Result<(), SolverError>) {
        Ok(())
    }

    fn remove_selected(&mut self, selected: &KeySet) {
    }
}

} // verus!
