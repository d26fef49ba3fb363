//! A graph of variables and factors with its marginal priors.
use crate::access::{around, exchanged, FactorAccess, PoolAccess, StateAccess, StateStore};
use crate::covariance::{
    covariance_spec, CovarianceOptimizer, CovarianceOptions, CovarianceWorkspace,
};
use crate::elimination::PivotedQr;
use crate::error::{KeyError, SolverError};
use crate::factor_store::{without, FactorStore};
use crate::factors::{Factor, FactorBatch};
use crate::families::{FactorSchema, Incidence};
use crate::front::{all_incidence, listed, touches, Front};
use crate::kernels::Triangular;
use crate::key::{BatchKey, BlockId, FactorId, FactorKey, LocalKey, PoolId, RawKey, StateKey};
use crate::marginalization::{
    grounded, marginalized, ran, unchanged, MarginalizationOptions, MarginalizationReport,
    Marginalizer,
};
use crate::optimization::{
    cost_spec, laid_out, prepared_spec, OptimizeOptions, OptimizeReport, Optimizer,
};
use crate::priors::Priors;
use crate::reading::Readable;
use crate::scalar::Real;
use crate::states::{lemma_filter_all, AnchorTag, StateSchema};
use crate::storage::{BatchPool, FactorPool, StatePool};
use crate::variable::Variable;
use vstd::prelude::*;

verus! {

/// A variable that is stored.
pub open spec fn live<S: StateSchema>(states: S, id: BlockId) -> bool {
    states.resolve_spec(id) == Some(Ok::<(), KeyError>(()))
}

/// A factor all of whose variables are stored.
pub open spec fn settled<S: StateSchema>(states: S, factor: Incidence) -> bool {
    forall|v: int|
        0 <= v < factor.variables.len() ==> live(states, #[trigger] factor.variables[v])
}

/// A graph in which every factor's variables are stored.
pub open spec fn closed<S: StateSchema, F: FactorSchema<S>>(states: S, factors: F) -> bool {
    forall|i: int|
        0 <= i < factors.incidence().len() ==> settled(states, #[trigger] factors.incidence()[i])
}

/// Whether the first `n` of some variables are all stored, or what is wrong with the first
/// that is not.
pub open spec fn dependencies_spec<S: StateSchema>(states: S, variables: Seq<BlockId>, n: int) -> Result<
    (),
    KeyError,
>
    decreases n,
{
    if n <= 0 {
        Ok(())
    } else {
        match dependencies_spec(states, variables, n - 1) {
            Err(error) => Err(error),
            Ok(_) => match states.resolve_spec(variables[n - 1]) {
                Some(known) => known,
                None => Err(KeyError::ForeignSolver),
            },
        }
    }
}

proof fn lemma_dependencies<S: StateSchema>(states: S, variables: Seq<BlockId>, n: int)
    requires
        0 <= n <= variables.len(),
        dependencies_spec(states, variables, n) is Ok,
    ensures
        forall|v: int| 0 <= v < n ==> live(states, #[trigger] variables[v]),
    decreases n,
{
    if n > 0 {
        lemma_dependencies(states, variables, n - 1);
        let unit = dependencies_spec(states, variables, n)->Ok_0;
        assert(unit == ());
    }
}

/// Checks variables one by one; the first failure stays.
pub struct Dependencies<'a, S> {
    pub states: &'a S,
    pub result: Result<(), KeyError>,
}

impl<'a, S: StateSchema> Dependencies<'a, S> {
    /// Check one more variable, unless an earlier one failed. An identity that no family
    /// issued is foreign.
    pub fn check(&mut self, id: BlockId)
        requires
            old(self).states.wf(),
        ensures
            final(self).states == old(self).states,
            final(self).result == match old(self).result {
                Err(error) => Err::<(), KeyError>(error),
                Ok(_) => match old(self).states.resolve_spec(id) {
                    Some(known) => known,
                    None => Err(KeyError::ForeignSolver),
                },
            },
    {
        if self.result.is_err() {
            return;
        }
        self.result = match self.states.resolve(id) {
            Some(known) => known,
            None => Err(KeyError::ForeignSolver),
        };
    }
}

/// Check that all variables are stored.
fn validate<S: StateSchema>(states: &S, variables: &[BlockId]) -> (valid: Result<(), KeyError>)
    requires
        states.wf(),
    ensures
        valid == dependencies_spec(*states, variables@, variables@.len() as int),
{
    let mut dependencies = Dependencies { states, result: Ok(()) };
    let mut v: usize = 0;
    while v < variables.len()
        invariant
            states.wf(),
            dependencies.states == states,
            v <= variables@.len(),
            dependencies.result == dependencies_spec(*states, variables@, v as int),
        decreases variables@.len() - v,
    {
        dependencies.check(variables[v]);
        v += 1;
    }
    dependencies.result
}

/// A graph over families of variables and factors, with what marginalization has left and
/// the storage that queries reuse.
pub struct Problem<S: StateSchema, F, Q, K> {
    pub states: S,
    pub factors: F,
    pub priors: Priors<S::Scalar>,
    pub marginalizer: Marginalizer<Q>,
    pub covariance: CovarianceWorkspace<S::Scalar, K>,
}

impl<
    S: StateSchema,
    F: FactorSchema<S, Scalar = S::Scalar>,
    Q: PivotedQr<S::Scalar>,
    K: Triangular<S::Scalar>,
> Problem<S, F, Q, K> {
    /// Sound storage without a staged trial, in which every factor's variables and every
    /// reference's prior are stored.
    pub open spec fn wf(&self) -> bool {
        &&& self.states.wf()
        &&& self.states.idle()
        &&& self.factors.wf()
        &&& self.priors.wf()
        &&& grounded(self.states, self.priors)
        &&& closed::<S, F>(self.states, self.factors)
        &&& !self.factors.pools().contains(self.priors.entries.id)
        &&& self.covariance.wf()
    }

    /// The kernels and the storage of queries stay.
    pub open spec fn same_tools(&self, other: &Self) -> bool {
        self.marginalizer == other.marginalizer && self.covariance == other.covariance
    }

    /// A graph over empty families; the last identity is that of its priors.
    pub fn new(states: S, factors: F, priors: PoolId, qr: Q, kernel: K) -> (problem: Self)
        requires
            states.wf(),
            states.idle(),
            states.anchored().len() == 0,
            factors.wf(),
            factors.incidence().len() == 0,
            !factors.pools().contains(priors),
        ensures
            problem.wf(),
            problem.states == states,
            problem.factors == factors,
            problem.priors.entries.id == priors,
            problem.priors.entries.values@.len() == 0,
            problem.priors.constant == <S::Scalar as Real>::zero_spec(),
            problem.marginalizer.kernel == qr,
            problem.covariance.work.backend.kernel == kernel,
    {
        Problem {
            states,
            factors,
            priors: Priors::new(priors),
            marginalizer: Marginalizer::new(qr),
            covariance: CovarianceWorkspace::new(kernel),
        }
    }
}

/// A family of variables with one more under a fresh handle.
pub open spec fn inserted<T: Variable>(
    before: StatePool<T>,
    after: StatePool<T>,
    value: T,
    key: StateKey<T>,
) -> bool {
    &&& after.entries.id == before.entries.id
    &&& after.entries.values@ == before.entries.values@.push(value)
    &&& after.entries.keys@ == before.entries.keys@.push(key.raw.local)
    &&& after.anchors@ == before.anchors@
    &&& key.raw == (RawKey { pool: before.entries.id, local: before.entries.next_local() })
    &&& !before.entries.live(key.raw.local)
    &&& !before.entries.retired(key.raw.local)
    &&& after.entries.slots_taken(&before.entries)
    &&& forall|local: LocalKey|
        before.entries.retired(local) ==> after.entries.retired(local)
}

/// A graph with one more variable, under a fresh handle.
pub open spec fn state_added<
    S: StateSchema,
    F: FactorSchema<S, Scalar = S::Scalar>,
    Q: PivotedQr<S::Scalar>,
    K: Triangular<S::Scalar>,
    T: Variable,
    I,
>(
    before: Problem<S, F, Q, K>,
    after: Problem<S, F, Q, K>,
    value: T,
    key: StateKey<T>,
) -> bool where S: StateAccess<T, I>
{
    let was = PoolAccess::<StatePool<T>, I>::pool_spec(&before.states);
    let now = PoolAccess::<StatePool<T>, I>::pool_spec(&after.states);
    &&& after.factors == before.factors
    &&& after.priors == before.priors
    &&& after.same_tools(&before)
    &&& inserted(was, now, value, key)
    &&& after.states == PoolAccess::<StatePool<T>, I>::with_pool(before.states, now)
    &&& !live(before.states, BlockId { raw: key.raw })
    &&& live(after.states, BlockId { raw: key.raw })
    &&& forall|id: BlockId|
        id.raw != key.raw ==> (live(before.states, id) <==> #[trigger] live(after.states, id))
    &&& before.states.keeps_estimates(&after.states)
}

/// A graph in which the estimate behind a handle was replaced, or nothing if that failed.
pub open spec fn state_set<
    S: StateSchema,
    F: FactorSchema<S, Scalar = S::Scalar>,
    Q: PivotedQr<S::Scalar>,
    K: Triangular<S::Scalar>,
    T: Variable,
    I,
>(
    before: Problem<S, F, Q, K>,
    after: Problem<S, F, Q, K>,
    key: StateKey<T>,
    value: T,
    set: Result<(), KeyError>,
) -> bool where S: StateAccess<T, I>
{
    let was = PoolAccess::<StatePool<T>, I>::pool_spec(&before.states);
    let now = PoolAccess::<StatePool<T>, I>::pool_spec(&after.states);
    &&& after.factors == before.factors
    &&& after.priors == before.priors
    &&& after.same_tools(&before)
    &&& after.states.same_graph(&before.states)
    &&& now.same_identities(&was)
    &&& after.states == PoolAccess::<StatePool<T>, I>::with_pool(before.states, now)
    &&& match was.entries.lookup(key.raw) {
        Ok(index) => {
            &&& set is Ok
            &&& now.entries.values@ == was.entries.values@.update(index, value)
        },
        Err(error) => {
            &&& set == Err::<(), KeyError>(error)
            &&& now.entries.values@ == was.entries.values@
        },
    }
}

/// A graph with one more ordinary factor, or nothing if one of its variables is not stored.
pub open spec fn factor_added<
    S: StateSchema,
    F: FactorSchema<S, Scalar = S::Scalar>,
    Q: PivotedQr<S::Scalar>,
    K: Triangular<S::Scalar>,
    T: Factor<S, Scalar = S::Scalar>,
    I,
>(
    before: Problem<S, F, Q, K>,
    after: Problem<S, F, Q, K>,
    factor: T,
    added: Result<FactorKey<T>, SolverError>,
) -> bool where F: FactorAccess<S, FactorPool<T>, I>
{
    let was = PoolAccess::<FactorPool<T>, I>::pool_spec(&before.factors);
    let now = PoolAccess::<FactorPool<T>, I>::pool_spec(&after.factors);
    &&& after.states == before.states
    &&& after.priors == before.priors
    &&& after.same_tools(&before)
    &&& match dependencies_spec(
        before.states,
        factor.variables_spec(),
        factor.variables_spec().len() as int,
    ) {
        Err(error) => {
            &&& added == Err::<FactorKey<T>, SolverError>(SolverError::Key(error))
            &&& after.factors == before.factors
        },
        Ok(_) => {
            &&& added is Ok
            &&& added->Ok_0.raw == (RawKey {
                pool: was.entries.id,
                local: was.entries.next_local(),
            })
            &&& !was.entries.live(added->Ok_0.raw.local)
            &&& !was.entries.retired(added->Ok_0.raw.local)
            &&& now.entries.slots_taken(&was.entries)
            &&& now.factors() == was.factors().push((FactorId { raw: added->Ok_0.raw }, factor))
            &&& forall|local: LocalKey| was.entries.retired(local) ==> now.entries.retired(local)
            &&& after.factors == PoolAccess::<FactorPool<T>, I>::with_pool(before.factors, now)
            &&& before.factors.keeps(&after.factors)
            &&& exchanged::<S, F, FactorPool<T>>(before.factors, was, after.factors, now)
        },
    }
}

/// A graph with one more empty batch, under a fresh handle.
pub open spec fn batch_added<
    S: StateSchema,
    F: FactorSchema<S, Scalar = S::Scalar>,
    Q: PivotedQr<S::Scalar>,
    K: Triangular<S::Scalar>,
    M: FactorBatch<S, Scalar = S::Scalar>,
    I,
>(
    before: Problem<S, F, Q, K>,
    after: Problem<S, F, Q, K>,
    model: M,
    key: BatchKey<M>,
) -> bool where F: FactorAccess<S, BatchPool<M, M::Factor>, I>
{
    let was = PoolAccess::<BatchPool<M, M::Factor>, I>::pool_spec(&before.factors);
    let now = PoolAccess::<BatchPool<M, M::Factor>, I>::pool_spec(&after.factors);
    &&& after.states == before.states
    &&& after.priors == before.priors
    &&& after.same_tools(&before)
    &&& key.raw == (RawKey { pool: was.batches.id, local: was.batches.next_local() })
    &&& !was.batches.live(key.raw.local)
    &&& !was.batches.retired(key.raw.local)
    &&& now.batches.slots_taken(&was.batches)
    &&& now.locations == was.locations
    &&& now.batches.keys@ == was.batches.keys@.push(key.raw.local)
    &&& now.batches.values@.drop_last() == was.batches.values@
    &&& now.batches.values@.last().model == model
    &&& now.selection(was.batches.values@.len() as int).len() == 0
    &&& after.factors == PoolAccess::<BatchPool<M, M::Factor>, I>::with_pool(before.factors, now)
    &&& before.factors.keeps(&after.factors)
    &&& after.factors.keeps(&before.factors)
    &&& exchanged::<S, F, BatchPool<M, M::Factor>>(before.factors, was, after.factors, now)
}

/// A graph with one more payload in a batch, or nothing if the batch or one of the variables is
/// not stored.
pub open spec fn payload_added<
    S: StateSchema,
    F: FactorSchema<S, Scalar = S::Scalar>,
    Q: PivotedQr<S::Scalar>,
    K: Triangular<S::Scalar>,
    M: FactorBatch<S, Scalar = S::Scalar>,
    I,
>(
    before: Problem<S, F, Q, K>,
    after: Problem<S, F, Q, K>,
    batch: BatchKey<M>,
    factor: M::Factor,
    added: Result<FactorKey<M::Factor>, SolverError>,
) -> bool where F: FactorAccess<S, BatchPool<M, M::Factor>, I>
{
    let was = PoolAccess::<BatchPool<M, M::Factor>, I>::pool_spec(&before.factors);
    let now = PoolAccess::<BatchPool<M, M::Factor>, I>::pool_spec(&after.factors);
    &&& after.states == before.states
    &&& after.priors == before.priors
    &&& after.same_tools(&before)
    &&& match was.batches.lookup(batch.raw) {
        Err(error) => {
            &&& added == Err::<FactorKey<M::Factor>, SolverError>(SolverError::Key(error))
            &&& after.factors == before.factors
        },
        Ok(b) => {
            let variables = was.batches.values@[b].model.variables_spec(factor);
            match dependencies_spec(before.states, variables, variables.len() as int) {
                Err(error) => {
                    &&& added == Err::<FactorKey<M::Factor>, SolverError>(SolverError::Key(error))
                    &&& after.factors == before.factors
                },
                Ok(_) => {
                    &&& added is Ok
                    &&& added->Ok_0.raw == (RawKey {
                        pool: was.locations.id,
                        local: was.locations.next_local(),
                    })
                    &&& !was.locations.live(added->Ok_0.raw.local)
                    &&& !was.locations.retired(added->Ok_0.raw.local)
                    &&& now.locations.slots_taken(&was.locations)
                    &&& now.selection(b) == was.selection(b).push(
                        (FactorId { raw: added->Ok_0.raw }, factor),
                    )
                    &&& forall|other: int|
                        0 <= other < was.batches.values@.len() && other != b
                            ==> #[trigger] now.selection(other) == was.selection(other)
                    &&& now.batches.keys@ == was.batches.keys@
                    &&& forall|other: int|
                        0 <= other < was.batches.values@.len() ==> (
                        #[trigger] now.batches.values@[other]).model
                            == was.batches.values@[other].model
                    &&& after.factors == PoolAccess::<BatchPool<M, M::Factor>, I>::with_pool(
                        before.factors,
                        now,
                    )
                    &&& before.factors.keeps(&after.factors)
                    &&& exchanged::<S, F, BatchPool<M, M::Factor>>(
                        before.factors,
                        was,
                        after.factors,
                        now,
                    )
                },
            }
        },
    }
}

/// A graph from which an empty batch was retired, or nothing if it is not stored or not empty.
pub open spec fn batch_removed<
    S: StateSchema,
    F: FactorSchema<S, Scalar = S::Scalar>,
    Q: PivotedQr<S::Scalar>,
    K: Triangular<S::Scalar>,
    M: FactorBatch<S, Scalar = S::Scalar>,
    I,
>(
    before: Problem<S, F, Q, K>,
    after: Problem<S, F, Q, K>,
    batch: BatchKey<M>,
    removed: Result<(), SolverError>,
) -> bool where F: FactorAccess<S, BatchPool<M, M::Factor>, I>
{
    let was = PoolAccess::<BatchPool<M, M::Factor>, I>::pool_spec(&before.factors);
    let now = PoolAccess::<BatchPool<M, M::Factor>, I>::pool_spec(&after.factors);
    &&& after.states == before.states
    &&& after.priors == before.priors
    &&& after.same_tools(&before)
    &&& match was.batches.lookup(batch.raw) {
        Err(error) => {
            &&& removed == Err::<(), SolverError>(SolverError::Key(error))
            &&& after.factors == before.factors
        },
        Ok(b) => if was.selection(b).len() > 0 {
            &&& removed == Err::<(), SolverError>(SolverError::BatchNotEmpty)
            &&& after.factors == before.factors
        } else {
            &&& removed is Ok
            &&& now.locations == was.locations
            &&& now.batches.retired(batch.raw.local)
            &&& now.other_batches(&was, batch.raw.local)
            &&& now.keeps_payloads(&was)
            &&& was.keeps_payloads(&now)
            &&& after.factors == PoolAccess::<BatchPool<M, M::Factor>, I>::with_pool(
                before.factors,
                now,
            )
            &&& before.factors.keeps(&after.factors)
            &&& after.factors.keeps(&before.factors)
            &&& exchanged::<S, F, BatchPool<M, M::Factor>>(
                before.factors,
                was,
                after.factors,
                now,
            )
        },
    }
}

/// A graph from which one factor was removed for good, or nothing if it is not stored.
pub open spec fn factor_removed<
    S: StateSchema,
    F: FactorSchema<S, Scalar = S::Scalar>,
    Q: PivotedQr<S::Scalar>,
    K: Triangular<S::Scalar>,
    P,
    I,
>(
    before: Problem<S, F, Q, K>,
    after: Problem<S, F, Q, K>,
    factor: FactorKey<P>,
    removed: Result<(), SolverError>,
) -> bool where F: FactorStore<S, P, I>
{
    &&& after.states == before.states
    &&& after.priors == before.priors
    &&& after.same_tools(&before)
    &&& match FactorStore::<S, P, I>::stores(&before.factors, factor) {
        Err(error) => {
            &&& removed == Err::<(), SolverError>(SolverError::Key(error))
            &&& after.factors == before.factors
        },
        Ok(_) => {
            &&& removed is Ok
            &&& without::<S, F>(before.factors, after.factors, FactorId { raw: factor.raw })
        },
    }
}

/// A graph in which every stored variable stays so is still closed.
proof fn lemma_closed_grown<S: StateSchema, F: FactorSchema<S>>(before: S, after: S, factors: F)
    requires
        closed::<S, F>(before, factors),
        forall|id: BlockId| live(before, id) ==> #[trigger] live(after, id),
    ensures
        closed::<S, F>(after, factors),
{
    assert forall|i: int| 0 <= i < factors.incidence().len() implies settled(
        after,
        #[trigger] factors.incidence()[i],
    ) by {
        let factor = factors.incidence()[i];
        assert(settled(before, factor));
        assert forall|v: int| 0 <= v < factor.variables.len() implies live(
            after,
            #[trigger] factor.variables[v],
        ) by {
            assert(live(before, factor.variables[v]));
        }
    }
}

impl<
    S: StateSchema,
    F: FactorSchema<S, Scalar = S::Scalar>,
    Q: PivotedQr<S::Scalar>,
    K: Triangular<S::Scalar>,
> Problem<S, F, Q, K> {
    /// Store a variable in its family.
    pub fn add<T: Variable, I>(&mut self, value: T) -> (key: StateKey<T>) where
        S: StateAccess<T, I>,

        requires
            old(self).wf(),
            PoolAccess::<StatePool<T>, I>::pool_spec(&old(self).states).entries.room(1),
        ensures
            final(self).wf(),
            state_added::<S, F, Q, K, T, I>(*old(self), *final(self), value, key),
    {
        let ghost before = self.states;
        let ghost was = PoolAccess::<StatePool<T>, I>::pool_spec(&before);
        proof {
            StateAccess::<T, I>::lemma_family(&before);
        }
        let key = PoolAccess::<StatePool<T>, I>::pool_mut(&mut self.states).insert(value);
        proof {
            let now = PoolAccess::<StatePool<T>, I>::pool_spec(&self.states);
            StateAccess::<T, I>::lemma_replaced(before, now);
            assert forall|local: LocalKey| #[trigger] now.entries.live(local) <==> was.entries.live(
                local,
            ) || local == key.raw.local by {
                now.entries.lemma_inserted(&was.entries, value, local);
            }
            assert(StateSchema::keeps_estimates(&was, &now)) by {
                assert forall|local: LocalKey| #[trigger] was.entries.live(local) implies {
                    &&& now.entries.live(local)
                    &&& was.entries.values@[was.entries.place(local)]
                        == now.entries.values@[now.entries.place(local)]
                } by {
                    now.entries.lemma_inserted(&was.entries, value, local);
                }
            }
            assert forall|id: BlockId| id.raw != key.raw implies (live(before, id)
                <==> #[trigger] live(self.states, id)) by {
                if id.raw.pool == now.entries.id {
                    lemma_known(was, id);
                    lemma_known(now, id);
                }
            }
            let id = BlockId { raw: key.raw };
            lemma_known(was, id);
            lemma_known(now, id);
            assert forall|id: BlockId| live(before, id) implies #[trigger] live(self.states, id) by {
                if id.raw == key.raw {
                    lemma_known(was, id);
                }
            }
            lemma_closed_grown::<S, F>(before, self.states, self.factors);
        }
        key
    }
}

/// A family knows a variable of its own exactly while that is live.
proof fn lemma_known<T: Variable>(pool: StatePool<T>, id: BlockId)
    requires
        pool.wf(),
        id.raw.pool == pool.entries.id,
    ensures
        pool.validate_spec(id) == Some(Ok::<(), KeyError>(())) <==> pool.entries.live(
            id.raw.local,
        ),
{
    pool.entries.lemma_resident(id.raw.local);
}

/// A graph stays closed where a group of factors is replaced by some of its own and settled
/// ones.
proof fn lemma_closed_edited<S: StateSchema, F: FactorSchema<S>, P: FactorSchema<S>>(
    states: S,
    before: F,
    was: P,
    after: F,
    now: P,
)
    requires
        closed::<S, F>(states, before),
        exchanged::<S, F, P>(before, was, after, now),
        forall|i: int|
            0 <= i < now.incidence().len() ==> was.incidence().contains(
                #[trigger] now.incidence()[i],
            ) || settled(states, now.incidence()[i]),
    ensures
        closed::<S, F>(states, after),
{
    let (head, tail) = choose|head: Seq<Incidence>, tail: Seq<Incidence>|
        around(
            before.incidence(),
            was.incidence(),
            after.incidence(),
            now.incidence(),
            head,
            tail,
        );
    let old_part = was.incidence();
    let new_part = now.incidence();
    assert forall|i: int| 0 <= i < after.incidence().len() implies settled(
        states,
        #[trigger] after.incidence()[i],
    ) by {
        let h = head.len() as int;
        let n = new_part.len() as int;
        if i < h {
            assert(after.incidence()[i] == head[i]);
            assert(before.incidence()[i] == head[i]);
        } else if i < h + n {
            let factor = new_part[i - h];
            assert(after.incidence()[i] == factor);
            if old_part.contains(factor) {
                let k = old_part.index_of(factor);
                assert(before.incidence()[h + k] == factor);
            }
        } else {
            let k = i - h - n;
            assert(after.incidence()[i] == tail[k]);
            assert(before.incidence()[h + old_part.len() + k] == tail[k]);
        }
    }
}

impl<
    S: StateSchema,
    F: FactorSchema<S, Scalar = S::Scalar>,
    Q: PivotedQr<S::Scalar>,
    K: Triangular<S::Scalar>,
> Problem<S, F, Q, K> {
    /// Borrow the current estimate behind a handle.
    pub fn get<T: Variable, I>(&self, key: StateKey<T>) -> (found: Result<&T, KeyError>) where
        S: StateAccess<T, I>,

        requires
            self.wf(),
        ensures
            match found {
                Ok(value) => StateStore::<T, I>::get_spec(&self.states, key) == Ok::<T, KeyError>(
                    *value,
                ),
                Err(error) => StateStore::<T, I>::get_spec(&self.states, key) == Err::<
                    T,
                    KeyError,
                >(error),
            },
    {
        proof {
            StateAccess::<T, I>::lemma_family(&self.states);
        }
        StateStore::<T, I>::get(&self.states, key)
    }

    /// Replace the accepted estimate behind a handle; what marginalization has left stays
    /// where it was.
    pub fn set<T: Variable, I>(&mut self, key: StateKey<T>, value: T) -> (set: Result<
        (),
        KeyError,
    >) where S: StateAccess<T, I>
        requires
            old(self).wf(),
        ensures
            final(self).wf(),
            state_set::<S, F, Q, K, T, I>(*old(self), *final(self), key, value, set),
    {
        let ghost before = self.states;
        proof {
            StateAccess::<T, I>::lemma_family(&before);
        }
        let set = PoolAccess::<StatePool<T>, I>::pool_mut(&mut self.states).set(key, value);
        proof {
            let now = PoolAccess::<StatePool<T>, I>::pool_spec(&self.states);
            StateAccess::<T, I>::lemma_replaced(before, now);
            self.states.lemma_graph_agrees(&before, Set::empty());
            self.states.lemma_agrees(&before, Set::empty());
            assert forall|id: BlockId| live(before, id) implies #[trigger] live(self.states, id) by {
                assert(self.states.resolve_spec(id) == before.resolve_spec(id));
            }
            lemma_closed_grown::<S, F>(before, self.states, self.factors);
        }
        set
    }

    /// Store an ordinary factor once all its variables are known to be stored.
    pub fn add_factor<T: Factor<S, Scalar = S::Scalar>, I>(&mut self, factor: T) -> (added: Result<
        FactorKey<T>,
        SolverError,
    >) where F: FactorAccess<S, FactorPool<T>, I>
        requires
            old(self).wf(),
            PoolAccess::<FactorPool<T>, I>::pool_spec(&old(self).factors).entries.room(1),
        ensures
            final(self).wf(),
            factor_added::<S, F, Q, K, T, I>(*old(self), *final(self), factor, added),
    {
        let ghost before = self.factors;
        let ghost was = PoolAccess::<FactorPool<T>, I>::pool_spec(&before);
        let mut variables: Vec<BlockId> = Vec::new();
        factor.visit_variables(&mut variables);
        assert(variables@ =~= factor.variables_spec());
        match validate(&self.states, variables.as_slice()) {
            Ok(_) => {},
            Err(error) => {
                return Err(SolverError::Key(error));
            },
        }
        proof {
            FactorAccess::<S, FactorPool<T>, I>::lemma_part(&before);
            lemma_dependencies(
                self.states,
                factor.variables_spec(),
                factor.variables_spec().len() as int,
            );
        }
        let ghost stored = factor;
        let key = PoolAccess::<FactorPool<T>, I>::pool_mut(&mut self.factors).insert(factor);
        proof {
            let now = PoolAccess::<FactorPool<T>, I>::pool_spec(&self.factors);
            FactorAccess::<S, FactorPool<T>, I>::lemma_exchanged(before, now);
            assert forall|i: int| 0 <= i < was.factors().len() implies now.factors().contains(
                #[trigger] was.factors()[i],
            ) by {
                assert(now.factors()[i] == was.factors()[i]);
            }
            was.lemma_kept(&now);
            let a = FactorSchema::<S>::incidence(&was);
            let b = FactorSchema::<S>::incidence(&now);
            assert forall|i: int| 0 <= i < b.len() implies a.contains(#[trigger] b[i]) || settled(
                self.states,
                b[i],
            ) by {
                assert(now.factors()[i] == if i < was.factors().len() {
                    was.factors()[i]
                } else {
                    (FactorId { raw: key.raw }, stored)
                });
                if i < a.len() {
                    assert(a[i] == b[i]);
                }
            }
            lemma_closed_edited::<S, F, FactorPool<T>>(
                self.states,
                before,
                was,
                self.factors,
                now,
            );
        }
        Ok(key)
    }
}

/// A family of batches that keeps all payloads has the same factors, and one more if there is
/// a fresh payload.
proof fn lemma_batch_factors<S: Readable, M: FactorBatch<S>>(
    before: BatchPool<M, M::Factor>,
    after: BatchPool<M, M::Factor>,
    fresh: Option<LocalKey>,
)
    requires
        before.wf(),
        after.wf(),
        after.locations.id == before.locations.id,
        before.keeps_payloads(&after),
        forall|local: LocalKey| #[trigger]
            after.locations.live(local) ==> before.locations.live(local) || fresh == Some(local),
    ensures
        forall|i: int|
            0 <= i < FactorSchema::<S>::incidence(&after).len() ==> FactorSchema::<S>::incidence(
                &before,
            ).contains(#[trigger] FactorSchema::<S>::incidence(&after)[i]) || (fresh matches Some(
                local,
            ) && FactorSchema::<S>::incidence(&after)[i] == after.incidence_of::<S>(local)),
        forall|i: int|
            0 <= i < FactorSchema::<S>::incidence(&before).len() ==> FactorSchema::<S>::incidence(
                &after,
            ).contains(#[trigger] FactorSchema::<S>::incidence(&before)[i]),
{
    let n = before.batches.values@.len() as int;
    let m = after.batches.values@.len() as int;
    let was = before.batch_incidence::<S>(n);
    let now = after.batch_incidence::<S>(m);
    assert forall|i: int| 0 <= i < now.len() implies was.contains(#[trigger] now[i]) || (
    fresh matches Some(local) && now[i] == after.incidence_of::<S>(local)) by {
        after.lemma_incidence_is_live::<S>(m, i);
        let local = now[i].id.raw.local;
        assert(after.locations.live(local));
        if before.locations.live(local) {
            before.lemma_live_has_incidence::<S>(local);
        }
    }
    assert forall|i: int| 0 <= i < was.len() implies now.contains(#[trigger] was[i]) by {
        before.lemma_incidence_is_live::<S>(n, i);
        let local = was[i].id.raw.local;
        assert(before.locations.live(local));
        after.lemma_live_has_incidence::<S>(local);
    }
}

impl<
    S: StateSchema,
    F: FactorSchema<S, Scalar = S::Scalar>,
    Q: PivotedQr<S::Scalar>,
    K: Triangular<S::Scalar>,
> Problem<S, F, Q, K> {
    /// Start an empty batch. Variables are checked as payloads are added.
    pub fn add_batch<M: FactorBatch<S, Scalar = S::Scalar>, I>(&mut self, model: M) -> (key:
        BatchKey<M>) where F: FactorAccess<S, BatchPool<M, M::Factor>, I>
        requires
            old(self).wf(),
            PoolAccess::<BatchPool<M, M::Factor>, I>::pool_spec(&old(self).factors).batches.room(1),
        ensures
            final(self).wf(),
            batch_added::<S, F, Q, K, M, I>(*old(self), *final(self), model, key),
    {
        let ghost before = self.factors;
        let ghost was = PoolAccess::<BatchPool<M, M::Factor>, I>::pool_spec(&before);
        proof {
            FactorAccess::<S, BatchPool<M, M::Factor>, I>::lemma_part(&before);
        }
        let key = PoolAccess::<BatchPool<M, M::Factor>, I>::pool_mut(
            &mut self.factors,
        ).insert_batch(model);
        proof {
            let now = PoolAccess::<BatchPool<M, M::Factor>, I>::pool_spec(&self.factors);
            FactorAccess::<S, BatchPool<M, M::Factor>, I>::lemma_exchanged(before, now);
            now.lemma_batch_added(&was, key.raw.local);
            lemma_batch_factors::<S, M>(was, now, None);
            lemma_closed_edited::<S, F, BatchPool<M, M::Factor>>(
                self.states,
                before,
                was,
                self.factors,
                now,
            );
        }
        key
    }

    /// Add a payload to a batch once the batch and all variables are known to be stored.
    pub fn add_factor_to<M: FactorBatch<S, Scalar = S::Scalar>, I>(
        &mut self,
        batch: BatchKey<M>,
        factor: M::Factor,
    ) -> (added: Result<FactorKey<M::Factor>, SolverError>) where
        F: FactorAccess<S, BatchPool<M, M::Factor>, I>,

        requires
            old(self).wf(),
            PoolAccess::<BatchPool<M, M::Factor>, I>::pool_spec(
                &old(self).factors,
            ).locations.room(1),
        ensures
            final(self).wf(),
            payload_added::<S, F, Q, K, M, I>(*old(self), *final(self), batch, factor, added),
    {
        let ghost before = self.factors;
        let ghost was = PoolAccess::<BatchPool<M, M::Factor>, I>::pool_spec(&before);
        let mut variables: Vec<BlockId> = Vec::new();
        proof {
            FactorAccess::<S, BatchPool<M, M::Factor>, I>::lemma_part(&before);
        }
        match PoolAccess::<BatchPool<M, M::Factor>, I>::pool(&self.factors).model(batch) {
            Ok(model) => {
                model.visit_variables(&factor, &mut variables);
            },
            Err(error) => {
                return Err(SolverError::Key(error));
            },
        }
        let ghost b = was.batches.lookup(batch.raw)->Ok_0;
        let ghost model = was.batches.values@[b].model;
        let ghost wanted = model.variables_spec(factor);
        assert(variables@ =~= wanted);
        match validate(&self.states, variables.as_slice()) {
            Ok(_) => {},
            Err(error) => {
                return Err(SolverError::Key(error));
            },
        }
        proof {
            lemma_dependencies(self.states, wanted, wanted.len() as int);
        }
        let ghost stored = factor;
        let inserted = PoolAccess::<BatchPool<M, M::Factor>, I>::pool_mut(
            &mut self.factors,
        ).insert_into(batch, factor);
        let key = match inserted {
            Ok(key) => key,
            Err(error) => {
                return Err(SolverError::Key(error));
            },
        };
        proof {
            let now = PoolAccess::<BatchPool<M, M::Factor>, I>::pool_spec(&self.factors);
            let id = FactorId { raw: key.raw };
            FactorAccess::<S, BatchPool<M, M::Factor>, I>::lemma_exchanged(before, now);
            was.batches.lemma_live_position(batch.raw.local, b);
            now.lemma_payload_added(&was, b, id, stored);
            lemma_batch_factors::<S, M>(was, now, Some(key.raw.local));
            assert(now.incidence_of::<S>(key.raw.local).variables == wanted);
            lemma_closed_edited::<S, F, BatchPool<M, M::Factor>>(
                self.states,
                before,
                was,
                self.factors,
                now,
            );
        }
        Ok(key)
    }

    /// Retire a batch that holds no payloads.
    pub fn remove_batch<M: FactorBatch<S, Scalar = S::Scalar>, I>(&mut self, batch: BatchKey<M>) -> (
        removed: Result<(), SolverError>) where F: FactorAccess<S, BatchPool<M, M::Factor>, I>
        requires
            old(self).wf(),
        ensures
            final(self).wf(),
            batch_removed::<S, F, Q, K, M, I>(*old(self), *final(self), batch, removed),
    {
        let ghost before = self.factors;
        let ghost was = PoolAccess::<BatchPool<M, M::Factor>, I>::pool_spec(&before);
        proof {
            FactorAccess::<S, BatchPool<M, M::Factor>, I>::lemma_part(&before);
        }
        let removed = PoolAccess::<BatchPool<M, M::Factor>, I>::pool_mut(
            &mut self.factors,
        ).remove_batch(batch);
        proof {
            let now = PoolAccess::<BatchPool<M, M::Factor>, I>::pool_spec(&self.factors);
            FactorAccess::<S, BatchPool<M, M::Factor>, I>::lemma_exchanged(before, now);
            if removed is Ok {
                let b = was.batches.lookup(batch.raw)->Ok_0;
                let at = was.batches.keys@.index_of(batch.raw.local);
                assert(was.batches.keys@[at] == batch.raw.local);
                was.batches.lemma_live_position(batch.raw.local, at);
                now.lemma_batch_retired(&was, b);
                lemma_batch_factors::<S, M>(was, now, None);
            } else {
                PoolAccess::<BatchPool<M, M::Factor>, I>::lemma_same(before);
            }
            lemma_closed_edited::<S, F, BatchPool<M, M::Factor>>(
                self.states,
                before,
                was,
                self.factors,
                now,
            );
        }
        removed
    }

    /// Evaluate the cost of one ordinary or batched factor.
    pub fn factor_cost<P, I>(&self, factor: FactorKey<P>) -> (cost: Result<
        S::Scalar,
        SolverError,
    >) where F: FactorStore<S, P, I>
        requires
            self.wf(),
        ensures
            cost == FactorStore::<S, P, I>::factor_cost_spec(
                &self.factors,
                self.states.reading(),
                factor,
            ),
    {
        FactorStore::<S, P, I>::factor_cost(&self.factors, &self.states, factor)
    }

    /// Remove one ordinary or batched factor; all others keep their handles.
    pub fn remove_factor<P, I>(&mut self, factor: FactorKey<P>) -> (removed: Result<
        (),
        SolverError,
    >) where F: FactorStore<S, P, I>
        requires
            old(self).wf(),
        ensures
            final(self).wf(),
            factor_removed::<S, F, Q, K, P, I>(*old(self), *final(self), factor, removed),
    {
        let ghost before = self.factors;
        match FactorStore::<S, P, I>::remove_factor(&mut self.factors, factor) {
            Ok(_) => {
                proof {
                    let now = self.factors.incidence();
                    assert forall|i: int| 0 <= i < now.len() implies settled(
                        self.states,
                        #[trigger] now[i],
                    ) by {
                        assert(before.incidence().contains(now[i]));
                        let k = before.incidence().index_of(now[i]);
                        assert(before.incidence()[k] == now[i]);
                    }
                }
                Ok(())
            },
            Err(error) => Err(SolverError::Key(error)),
        }
    }
}

/// Marginalization takes every factor over a removed variable along, so what it leaves is
/// closed again.
pub proof fn lemma_closed_ran<
    S: StateSchema,
    F: FactorSchema<S, Scalar = S::Scalar>,
    Q: PivotedQr<S::Scalar>,
>(
    kernel: Q,
    states: S,
    factors: F,
    priors: Priors<S::Scalar>,
    ids: Seq<BlockId>,
    options: MarginalizationOptions<S::Scalar>,
    outcome: Result<MarginalizationReport, SolverError>,
    after_states: S,
    after_factors: F,
    after_priors: Priors<S::Scalar>,
)
    requires
        factors.wf(),
        after_factors.wf(),
        closed::<S, F>(states, factors),
        ran(
            kernel,
            states,
            factors,
            priors,
            ids,
            options,
            outcome,
            after_states,
            after_factors,
            after_priors,
        ),
    ensures
        closed::<S, F>(after_states, after_factors),
{
    if unchanged(states, factors, priors, after_states, after_factors, after_priors) {
        after_states.lemma_graph_agrees(&states, Set::empty());
        after_states.lemma_agrees(&states, Set::empty());
        after_factors.lemma_same_factors(&factors);
        assert forall|id: BlockId| live(states, id) implies #[trigger] live(after_states, id) by {
            assert(after_states.resolve_spec(id) == states.resolve_spec(id));
        }
        lemma_closed_grown::<S, F>(states, after_states, factors);
        assert(closed::<S, F>(after_states, after_factors)) by {
            assert forall|i: int| 0 <= i < after_factors.incidence().len() implies settled(
                after_states,
                #[trigger] after_factors.incidence()[i],
            ) by {
                assert(settled(after_states, factors.incidence()[i]));
            }
        }
    } else {
        let front = choose|front: Front| #[trigger]
            marginalized(
                kernel,
                states,
                factors,
                priors,
                ids,
                options.relative_rank_tolerance,
                front,
                outcome,
                after_states,
                after_factors,
                after_priors,
            );
        let remove = listed(ids);
        let all = all_incidence::<S, F>(factors, priors);
        after_factors.lemma_incidence();
        assert forall|i: int| 0 <= i < after_factors.incidence().len() implies settled(
            after_states,
            #[trigger] after_factors.incidence()[i],
        ) by {
            let factor = after_factors.incidence()[i];
            assert(factors.incidence().contains(factor));
            let k = factors.incidence().index_of(factor);
            assert(factors.incidence()[k] == factor);
            assert(all[k] == factor);
            assert(settled(states, factor));
            assert(after_factors.resolve_spec(factor.id) == Some(Ok::<(), KeyError>(())));
            assert(!front.affected@.contains(factor.id.raw));
            assert(!touches(factor, remove));
            assert forall|v: int| 0 <= v < factor.variables.len() implies live(
                after_states,
                #[trigger] factor.variables[v],
            ) by {
                assert(live(states, factor.variables[v]));
                assert(!remove.contains(factor.variables[v].raw));
            }
        }
    }
}

impl<
    S: StateSchema,
    F: FactorSchema<S, Scalar = S::Scalar>,
    Q: PivotedQr<S::Scalar>,
    K: Triangular<S::Scalar>,
> Problem<S, F, Q, K> {
    /// Eliminate variables, and replace the factors and priors over them by one prior over
    /// the variables that those share. A failed call changes nothing.
    pub fn marginalize_with(
        &mut self,
        blocks: &[BlockId],
        options: &MarginalizationOptions<S::Scalar>,
    ) -> (outcome: Result<MarginalizationReport, SolverError>)
        requires
            old(self).wf(),
            old(self).priors.entries.room(1),
        ensures
            final(self).wf(),
            final(self).covariance == old(self).covariance,
            final(self).marginalizer.kernel == old(self).marginalizer.kernel,
            final(self).states.pools() == old(self).states.pools(),
            final(self).factors.pools() == old(self).factors.pools(),
            ran(
                old(self).marginalizer.kernel,
                old(self).states,
                old(self).factors,
                old(self).priors,
                blocks@,
                *options,
                outcome,
                final(self).states,
                final(self).factors,
                final(self).priors,
            ),
    {
        let outcome = self.marginalizer.run(
            &mut self.states,
            &mut self.factors,
            &mut self.priors,
            blocks,
            options,
        );
        proof {
            lemma_closed_ran(
                old(self).marginalizer.kernel,
                old(self).states,
                old(self).factors,
                old(self).priors,
                blocks@,
                *options,
                outcome,
                self.states,
                self.factors,
                self.priors,
            );
        }
        outcome
    }

    /// Eliminate variables with default rank controls.
    pub fn marginalize(&mut self, blocks: &[BlockId]) -> (outcome: Result<
        MarginalizationReport,
        SolverError,
    >)
        requires
            old(self).wf(),
            old(self).priors.entries.room(1),
        ensures
            final(self).wf(),
            final(self).covariance == old(self).covariance,
            final(self).marginalizer.kernel == old(self).marginalizer.kernel,
            final(self).states.pools() == old(self).states.pools(),
            final(self).factors.pools() == old(self).factors.pools(),
            ran(
                old(self).marginalizer.kernel,
                old(self).states,
                old(self).factors,
                old(self).priors,
                blocks@,
                (MarginalizationOptions { relative_rank_tolerance: None }),
                outcome,
                final(self).states,
                final(self).factors,
                final(self).priors,
            ),
    {
        let options = MarginalizationOptions::<S::Scalar>::defaults();
        self.marginalize_with(blocks, &options)
    }

    /// The same graph with the same estimates, apart from cached evaluations.
    pub open spec fn same_graph(&self, other: &Self) -> bool {
        &&& self.states.same_graph(&other.states)
        &&& self.factors == other.factors
        &&& self.priors.same_priors(&other.priors)
        &&& self.marginalizer == other.marginalizer
    }

    proof fn lemma_same_graph(&self, other: &Self)
        requires
            other.wf(),
            self.same_graph(other),
            self.states.wf(),
            self.states.idle(),
            self.priors.wf(),
            self.covariance.wf(),
        ensures
            self.wf(),
    {
        self.states.lemma_graph_agrees(&other.states, Set::empty());
        self.states.lemma_agrees(&other.states, Set::empty());
        assert forall|id: BlockId| live(other.states, id) implies #[trigger] live(
            self.states,
            id,
        ) by {
            assert(self.states.resolve_spec(id) == other.states.resolve_spec(id));
        }
        lemma_closed_grown::<S, F>(other.states, self.states, self.factors);
        let every = |tag: AnchorTag| !Set::<RawKey>::empty().contains(tag.prior);
        lemma_filter_all(self.states.anchored(), every);
        lemma_filter_all(other.states.anchored(), every);
        assert forall|i: int| 0 <= i < self.states.anchored().len() implies self.priors.entries.lookup(
            (#[trigger] self.states.anchored()[i]).prior,
        ) is Ok by {
            assert(other.states.anchored()[i] == self.states.anchored()[i]);
            assert(other.priors.entries.lookup(other.states.anchored()[i].prior) is Ok);
        }
    }

    /// Optimize with a reusable method and explicit stopping controls.
    pub fn optimize_with<O: Optimizer<S, F>>(
        &mut self,
        method: &mut O,
        options: &OptimizeOptions<S::Scalar>,
    ) -> (outcome: Result<OptimizeReport<S::Scalar>, SolverError>)
        requires
            old(self).wf(),
            old(method).ready(),
        ensures
            final(self).wf(),
            final(method).ready(),
            final(self).same_graph(old(self)),
            final(self).covariance == old(self).covariance,
            !options.valid() ==> outcome == Err::<OptimizeReport<S::Scalar>, SolverError>(
                SolverError::InvalidOptions,
            ) && final(self).states.accepted() == old(self).states.accepted(),
            outcome matches Ok(report) ==> {
                &&& report.iterations <= options.max_iterations
                &&& cost_spec(final(self).states, final(self).factors, final(self).priors)
                    matches Ok(cost) && report.final_cost == cost.plus_spec(
                    old(self).priors.constant,
                )
            },
            O::optimized(
                *old(method),
                *final(method),
                old(self).states,
                old(self).factors,
                old(self).priors,
                *options,
                outcome,
                final(self).states.accepted(),
            ),
    {
        proof {
            self.states.lemma_idle();
        }
        let outcome = method.optimize(
            &mut self.states,
            &self.factors,
            &mut self.priors,
            options,
        );
        proof {
            self.lemma_same_graph(old(self));
        }
        outcome
    }

    /// The joint covariance of some variables, or why there is none, given the state of the
    /// query storage afterwards.
    pub open spec fn queried(
        &self,
        after: &Self,
        blocks: Seq<BlockId>,
        options: CovarianceOptions<S::Scalar>,
    ) -> Result<Seq<S::Scalar>, SolverError> {
        if !options.valid() {
            Err(SolverError::InvalidRankTolerance)
        } else {
            match prepared_spec(self.covariance.work.backend, self.states, self.factors) {
                Err(error) => Err(error),
                Ok(_) => covariance_spec(
                    self.covariance.work.backend.kernel,
                    &after.covariance.work.layout,
                    after.states,
                    after.factors,
                    self.priors,
                    blocks,
                    options,
                ),
            }
        }
    }

    /// Once the graph can be laid out, the query storage holds its layout afterwards.
    pub open spec fn query_laid_out(
        &self,
        after: &Self,
        options: CovarianceOptions<S::Scalar>,
    ) -> bool {
        options.valid() && prepared_spec(
            self.covariance.work.backend,
            self.states,
            self.factors,
        ) is Ok ==> laid_out(&after.covariance.work.layout, &after.states, &after.factors)
    }

    /// Evaluate the joint covariance of some variables into the query storage.
    fn query(&mut self, blocks: &[BlockId], options: &CovarianceOptions<S::Scalar>) -> (evaluated:
        Result<(), SolverError>)
        requires
            old(self).wf(),
        ensures
            final(self).wf(),
            final(self).same_graph(old(self)),
            final(self).states.accepted() == old(self).states.accepted(),
            final(self).covariance.work.backend.kernel == old(
                self,
            ).covariance.work.backend.kernel,
            old(self).query_laid_out(final(self), *options),
            match old(self).queried(final(self), blocks@, *options) {
                Err(error) => evaluated == Err::<(), SolverError>(error),
                Ok(values) => evaluated is Ok && final(self).covariance.selected.result@ == values,
            },
    {
        proof {
            self.states.lemma_reflexive(Set::empty());
        }
        match options.validate() {
            Ok(_) => {},
            Err(error) => {
                return Err(error);
            },
        }
        self.covariance.selected.options = *options;
        let evaluated = self.covariance.evaluate(
            &mut self.states,
            &self.factors,
            &mut self.priors,
            blocks,
        );
        proof {
            self.lemma_same_graph(old(self));
        }
        evaluated
    }

    /// Evaluate the joint covariance of some variables at the accepted estimates: a square
    /// matrix by columns, in the order in which the variables are listed.
    pub fn joint_covariance_with(
        &mut self,
        blocks: &[BlockId],
        options: &CovarianceOptions<S::Scalar>,
    ) -> (evaluated: Result<&Vec<S::Scalar>, SolverError>)
        requires
            old(self).wf(),
        ensures
            final(self).wf(),
            final(self).same_graph(old(self)),
            final(self).states.accepted() == old(self).states.accepted(),
            final(self).covariance.work.backend.kernel == old(
                self,
            ).covariance.work.backend.kernel,
            old(self).query_laid_out(final(self), *options),
            ({
                let result = old(self).queried(final(self), blocks@, *options);
                match evaluated {
                    Err(error) => result == Err::<Seq<S::Scalar>, SolverError>(error),
                    Ok(values) => result == Ok::<Seq<S::Scalar>, SolverError>(values@),
                }
            }),
    {
        match self.query(blocks, options) {
            Ok(_) => Ok(&self.covariance.selected.result),
            Err(error) => Err(error),
        }
    }

    /// Evaluate the joint covariance of some variables with default rank controls.
    pub fn joint_covariance(&mut self, blocks: &[BlockId]) -> (evaluated: Result<
        &Vec<S::Scalar>,
        SolverError,
    >)
        requires
            old(self).wf(),
        ensures
            final(self).wf(),
            final(self).same_graph(old(self)),
            final(self).states.accepted() == old(self).states.accepted(),
            final(self).covariance.work.backend.kernel == old(
                self,
            ).covariance.work.backend.kernel,
            old(self).query_laid_out(final(self), CovarianceOptions::defaults_spec()),
            ({
                let result = old(self).queried(
                    final(self),
                    blocks@,
                    CovarianceOptions::defaults_spec(),
                );
                match evaluated {
                    Err(error) => result == Err::<Seq<S::Scalar>, SolverError>(error),
                    Ok(values) => result == Ok::<Seq<S::Scalar>, SolverError>(values@),
                }
            }),
    {
        let options = CovarianceOptions::<S::Scalar>::defaults();
        self.joint_covariance_with(blocks, &options)
    }

    /// Optimize, then extract the joint covariance of some variables from the linear model at
    /// the estimates reached. Unusable covariance options are refused before anything changes;
    /// accepted estimates survive all other errors.
    pub fn optimize_with_covariance<O: CovarianceOptimizer<S, F, K>>(
        &mut self,
        method: &mut O,
        options: &OptimizeOptions<S::Scalar>,
        blocks: &[BlockId],
        covariance_options: &CovarianceOptions<S::Scalar>,
    ) -> (outcome: Result<(OptimizeReport<S::Scalar>, &Vec<S::Scalar>), SolverError>)
        requires
            old(self).wf(),
            old(method).ready(),
        ensures
            final(self).wf(),
            final(method).ready(),
            final(self).same_graph(old(self)),
            final(self).covariance.work.backend.kernel == old(
                self,
            ).covariance.work.backend.kernel,
            if !covariance_options.valid() {
                &&& outcome == Err::<(OptimizeReport<S::Scalar>, &Vec<S::Scalar>), SolverError>(
                    SolverError::InvalidRankTolerance,
                )
                &&& *final(self) == *old(self)
                &&& *final(method) == *old(method)
            } else {
                exists|
                    middle: O,
                    p: Priors<S::Scalar>,
                    run: Result<OptimizeReport<S::Scalar>, SolverError>,
                | #[trigger]
                    optimized_and_queried(
                        *old(self),
                        *old(method),
                        *options,
                        middle,
                        p,
                        run,
                        *final(method),
                        *final(self),
                        blocks@,
                        *covariance_options,
                        outcome,
                    )
            },
    {
        match covariance_options.validate() {
            Ok(_) => {},
            Err(error) => {
                proof {
                    self.states.lemma_reflexive(Set::empty());
                }
                return Err(error);
            },
        }
        proof {
            self.states.lemma_idle();
        }
        self.covariance.selected.options = *covariance_options;
        let ghost kernel = self.covariance.work.backend.kernel;
        let reached = method.optimize_covariance(
            &mut self.states,
            &self.factors,
            &mut self.priors,
            options,
            blocks,
            &mut self.covariance,
        );
        let ghost after = *self;
        let ghost (middle, run, p) = choose|
            middle: O,
            run: Result<OptimizeReport<S::Scalar>, SolverError>,
            p: Priors<S::Scalar>,
        |
            {
                &&& #[trigger] O::optimized(
                    *old(method),
                    middle,
                    old(self).states,
                    after.factors,
                    old(self).priors,
                    *options,
                    run,
                    after.states.accepted(),
                )
                &&& p.same_priors(&old(self).priors)
                &&& O::reports_alike(*method, middle)
                &&& match run {
                    Err(error) => reached == Err::<OptimizeReport<S::Scalar>, SolverError>(error),
                    Ok(report) => match #[trigger] O::extracted(
                        middle,
                        kernel,
                        after.states,
                        after.factors,
                        p,
                        blocks@,
                        covariance_options.relative_pivot_tolerance,
                    ) {
                        Err(error) => reached == Err::<OptimizeReport<S::Scalar>, SolverError>(
                            error,
                        ),
                        Ok(values) => {
                            &&& reached == Ok::<OptimizeReport<S::Scalar>, SolverError>(report)
                            &&& after.covariance.selected.result@ == values
                        },
                    },
                }
            };
        proof {
            self.lemma_same_graph(old(self));
        }
        let outcome = match reached {
            Ok(report) => Ok((report, &self.covariance.selected.result)),
            Err(error) => Err(error),
        };
        assert(optimized_and_queried(
            *old(self),
            *old(method),
            *options,
            middle,
            p,
            run,
            *method,
            after,
            blocks@,
            *covariance_options,
            outcome,
        ));
        outcome
    }
}

/// An optimization, and the covariance extracted at the estimates it reached. The method
/// stands as `middle` in between; `p` are the priors, whatever they had cached by then.
pub open spec fn optimized_and_queried<
    S: StateSchema,
    F: FactorSchema<S, Scalar = S::Scalar>,
    Q: PivotedQr<S::Scalar>,
    K: Triangular<S::Scalar>,
    O: CovarianceOptimizer<S, F, K>,
>(
    before: Problem<S, F, Q, K>,
    method: O,
    options: OptimizeOptions<S::Scalar>,
    middle: O,
    p: Priors<S::Scalar>,
    run: Result<OptimizeReport<S::Scalar>, SolverError>,
    after_method: O,
    after: Problem<S, F, Q, K>,
    blocks: Seq<BlockId>,
    covariance_options: CovarianceOptions<S::Scalar>,
    outcome: Result<(OptimizeReport<S::Scalar>, &Vec<S::Scalar>), SolverError>,
) -> bool {
    &&& O::optimized(
        method,
        middle,
        before.states,
        before.factors,
        before.priors,
        options,
        run,
        after.states.accepted(),
    )
    &&& O::reports_alike(after_method, middle)
    &&& p.same_priors(&before.priors)
    &&& match run {
        Err(error) => outcome == Err::<(OptimizeReport<S::Scalar>, &Vec<S::Scalar>), SolverError>(
            error,
        ),
        Ok(report) => {
            let result = O::extracted(
                middle,
                before.covariance.work.backend.kernel,
                after.states,
                before.factors,
                p,
                blocks,
                covariance_options.relative_pivot_tolerance,
            );
            match outcome {
                Err(error) => result == Err::<Seq<S::Scalar>, SolverError>(error),
                Ok(reached) => {
                    &&& reached.0 == report
                    &&& result == Ok::<Seq<S::Scalar>, SolverError>(reached.1@)
                },
            }
        },
    }
}

} // verus!
