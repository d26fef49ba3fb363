//! What a graph costs, how its estimates move, and how priors meet their variables.
use crate::algebra::{
    lemma_negate, lemma_negate_order, lemma_order, lemma_plus, lemma_sum_same, ordered_at,
    ordered_field, ring, sum,
};
use crate::backend::{max_magnitude, norm_inf_spec, LeastSquaresBackend};
use crate::error::EvaluationError;
use crate::families::{cost_run, Incidence};
use crate::front::Front;
use crate::kernels::{Bidiagonalization, Clock, ConjugateGradient, Triangular};
use crate::key::{BlockId, RawKey};
use crate::layout::Layout;
use crate::linear_model::{hypot_sum, LinearView};
use crate::linearization::{BlockView, EventView};
use crate::lsmr::{largest, smallest, Lsmr};
use crate::marginalization::{lemma_front_order, prior_blocks, staying};
use crate::matrix_laws::{apart, emission_fits, jacobian, lengths, sloped, stored_at};
use crate::normal::{panel_spec, DenseNormalCholesky, NormalView};
use crate::pair::Pair;
use crate::priors::{prior_columns, PriorView};
use crate::scalar::Real;
use crate::schur::{Schur, SchurView};
use crate::sink::{
    block_check, columns_check, emission_check, event_step, names, Progress, Window,
};
use crate::states::{kept_tags, lemma_width_sum_add, placed, width_sum, StateSchema};
use crate::storage::{Anchor, StatePool};
use crate::variable::{plain, Variable};
use vstd::prelude::*;

verus! {

/// An objective contribution that counts.
pub open spec fn counts<R: Real>(term: Result<R, EvaluationError>) -> bool {
    term matches Ok(cost) && cost.finite_spec() && !cost.below_spec(R::zero_spec())
}

/// The total of contributions is their sum, and is owed exactly where each of them is finite and
/// not negative.
pub proof fn lemma_total_is_sum<R: Real>(
    total: R,
    terms: Seq<Result<R, EvaluationError>>,
    n: int,
)
    requires
        ring::<R>(),
        0 <= n <= terms.len(),
    ensures
        cost_run(total, terms, n) is Ok <==> forall|i: int|
            0 <= i < n ==> counts(#[trigger] terms[i]),
        cost_run(total, terms, n) matches Ok(cost) ==> cost == total.plus_spec(
            sum(n, |i: int| terms[i]->Ok_0),
        ),
    decreases n,
{
    if n <= 0 {
        lemma_plus(total, R::zero_spec(), R::zero_spec());
    } else {
        lemma_total_is_sum(total, terms, n - 1);
        let f = |i: int| terms[i]->Ok_0;
        assert(sum(n, f) == sum(n - 1, f).plus_spec(f(n - 1)));
        lemma_plus(total, sum(n - 1, f), f(n - 1));
        if forall|i: int| 0 <= i < n ==> counts(#[trigger] terms[i]) {
            assert(counts(terms[n - 1]));
        }
        if cost_run(total, terms, n) is Ok {
            assert forall|i: int| 0 <= i < n implies counts(#[trigger] terms[i]) by {}
        }
    }
}

/// The infinity norm bounds every magnitude, and is one of them or zero.
pub proof fn lemma_norm_inf<R: Real>(values: Seq<R>, n: int)
    requires
        ordered_field::<R>(),
        0 <= n <= values.len(),
    ensures
        R::zero_spec().at_most_spec(max_magnitude(values, n)),
        forall|i: int|
            0 <= i < n ==> (#[trigger] values[i]).abs_spec().at_most_spec(
                max_magnitude(values, n),
            ),
        max_magnitude(values, n) == R::zero_spec() || exists|i: int|
            0 <= i < n && max_magnitude(values, n) == (#[trigger] values[i]).abs_spec(),
        norm_inf_spec(values) matches Ok(norm) ==> norm == max_magnitude(
            values,
            values.len() as int,
        ),
        norm_inf_spec(values) is Ok <==> forall|i: int|
            0 <= i < values.len() ==> (#[trigger] values[i]).finite_spec(),
    decreases n,
{
    let zero = R::zero_spec();
    lemma_order(zero, zero, zero);
    if n > 0 {
        lemma_norm_inf(values, n - 1);
        let before = max_magnitude(values, n - 1);
        let last = values[n - 1].abs_spec();
        let after = before.max_spec(last);
        assert(max_magnitude(values, n) == after);
        lemma_order(before, last, last);
        lemma_order(last, before, before);
        lemma_order(zero, before, after);
        assert forall|i: int| 0 <= i < n implies (#[trigger] values[i]).abs_spec().at_most_spec(
            after,
        ) by {
            if i < n - 1 {
                lemma_order(values[i].abs_spec(), before, after);
            }
        }
        if before.at_most_spec(last) {
            assert(after == values[n - 1].abs_spec());
        } else {
            assert(after == before);
        }
    }
}

/// The square of a Euclidean length is the sum of the squares.
pub proof fn lemma_length<R: Real>(values: Seq<R>, n: int)
    requires
        ring::<R>(),
        lengths::<R>(),
        0 <= n,
    ensures
        hypot_sum(values, n).times_spec(hypot_sum(values, n)) == sum(
            n,
            |i: int| values[i].times_spec(values[i]),
        ),
    decreases n,
{
    if n <= 0 {
        crate::algebra::lemma_times_zero(R::zero_spec());
    } else {
        lemma_length(values, n - 1);
        let before = hypot_sum(values, n - 1);
        assert(before.hypot_spec(values[n - 1]).times_spec(before.hypot_spec(values[n - 1]))
            == before.times_spec(before).plus_spec(values[n - 1].times_spec(values[n - 1])));
    }
}

/// The smallest and the largest of some values bound all of them, and are among them.
pub proof fn lemma_extremes<R: Real>(values: Seq<R>, n: int)
    requires
        ordered_field::<R>(),
        0 < n <= values.len(),
    ensures
        smallest(values, n) matches Some(least) && (forall|i: int|
            0 <= i < n ==> least.at_most_spec(#[trigger] values[i])) && exists|i: int|
            0 <= i < n && least == #[trigger] values[i],
        largest(values, n) matches Some(most) && (forall|i: int|
            0 <= i < n ==> (#[trigger] values[i]).at_most_spec(most)) && exists|i: int|
            0 <= i < n && most == #[trigger] values[i],
    decreases n,
{
    let last = values[n - 1];
    lemma_order(last, last, last);
    if n == 1 {
        assert(smallest(values, 1) == Some(values[0]));
        assert(largest(values, 1) == Some(values[0]));
    } else {
        lemma_extremes(values, n - 1);
        let least = smallest(values, n - 1)->0;
        let most = largest(values, n - 1)->0;
        lemma_order(least, last, last);
        lemma_order(last, least, least);
        lemma_order(most, last, last);
        lemma_order(last, most, most);
        assert forall|i: int| 0 <= i < n implies least.min_spec(last).at_most_spec(
            #[trigger] values[i],
        ) && values[i].at_most_spec(most.max_spec(last)) by {
            if i < n - 1 {
                lemma_order(least.min_spec(last), least, values[i]);
                lemma_order(values[i], most, most.max_spec(last));
            }
        }
        assert(least.min_spec(last) == least || least.min_spec(last) == values[n - 1]);
        assert(most.max_spec(last) == most || most.max_spec(last) == values[n - 1]);
    }
}

/// Two families of variables side by side take their coordinates one after the other: those of
/// the second follow those of the first.
pub proof fn lemma_second_family_follows(
    first: Seq<(BlockId, nat)>,
    second: Seq<(BlockId, nat)>,
    k: int,
)
    requires
        width_sum(first) + width_sum(second) <= usize::MAX,
        0 <= k < second.len(),
    ensures
        placed(first + second, 0)[first.len() + k].id == second[k].0,
        placed(first + second, 0)[first.len() + k].offset == width_sum(first) + width_sum(
            second.take(k),
        ),
{
    assert((first + second).take(first.len() + k) =~= first + second.take(k));
    lemma_width_sum_add(first, second.take(k));
    crate::states::lemma_width_sum_prefix(second, k);
}

/// Estimates of a pool move by the slices of an increment that a layout gives their variables,
/// each by its own.
pub proof fn lemma_estimate_moves<T: Variable>(pool: StatePool<T>, delta: Seq<T::Scalar>, i: int)
    requires
        plain::<T>(),
        0 <= i < pool.entries.values@.len(),
        pool.entries.keys@.len() == pool.entries.values@.len(),
        delta.len() == pool.entries.values@.len() * T::dof_spec(),
        width_sum(pool.family()) <= usize::MAX,
    ensures
        ({
            let offset = placed(pool.family(), 0)[i].offset as int;
            &&& 0 <= offset
            &&& offset + T::dof_spec() <= delta.len()
            &&& pool.moved(delta)[i] == pool.entries.values@[i].compose_spec(
                T::exp_spec(delta.subrange(offset, offset + T::dof_spec())),
            )
        }),
{
    lemma_even_widths(pool, i);
    let d = T::dof_spec() as int;
    let n = pool.entries.values@.len() as int;
    assert(0 <= i * d && i * d + d <= n * d && (i + 1) * d == i * d + d) by (nonlinear_arith)
        requires
            0 <= i < n,
            0 <= d,
    ;
    crate::states::lemma_width_sum_prefix(pool.family(), i);
    let slice = delta.subrange(i * d, (i + 1) * d);
    assert(T::tangent_spec(slice) == crate::variable::copied_spec::<T>(slice));
    assert(pool.entries.values@[i].retract_spec(slice) == crate::variable::right_retraction_spec(
        pool.entries.values@[i],
        slice,
    ));
}

proof fn lemma_even_widths<T: Variable>(pool: StatePool<T>, i: int)
    requires
        0 <= i <= pool.entries.keys@.len(),
    ensures
        width_sum(pool.family().take(i)) == i * T::dof_spec(),
    decreases i,
{
    reveal(width_sum);
    if i > 0 {
        lemma_even_widths(pool, i - 1);
        assert(pool.family().take(i).drop_last() =~= pool.family().take(i - 1));
        assert(pool.family().take(i).last() == pool.family()[i - 1]);
        assert((i - 1) * T::dof_spec() + T::dof_spec() == i * T::dof_spec()) by (nonlinear_arith);
    } else {
        assert(0 * T::dof_spec() == 0);
    }
}

/// So do estimates of two pools side by side: each by the slice that one layout of all variables
/// gives it.
pub proof fn lemma_paired_estimates_move<T: Variable, U: Variable<Scalar = T::Scalar>>(
    pair: Pair<StatePool<T>, StatePool<U>>,
    delta: Seq<T::Scalar>,
    i: int,
)
    requires
        plain::<T>(),
        plain::<U>(),
        pair.first.entries.keys@.len() == pair.first.entries.values@.len(),
        pair.second.entries.keys@.len() == pair.second.entries.values@.len(),
        width_sum(pair.blocks()) <= usize::MAX,
        delta.len() == width_sum(pair.blocks()),
        0 <= i < pair.blocks().len(),
    ensures
        ({
            let offset = placed(pair.blocks(), 0)[i].offset as int;
            let n = pair.first.entries.values@.len() as int;
            if i < n {
                pair.moved(delta).0[i] == pair.first.entries.values@[i].compose_spec(
                    T::exp_spec(delta.subrange(offset, offset + T::dof_spec())),
                )
            } else {
                pair.moved(delta).1[i - n] == pair.second.entries.values@[i - n].compose_spec(
                    U::exp_spec(delta.subrange(offset, offset + U::dof_spec())),
                )
            }
        }),
{
    let first = pair.first.family();
    let second = pair.second.family();
    let n = first.len() as int;
    let width = width_sum(first) as int;
    lemma_width_sum_add(first, second);
    lemma_even_widths(pair.first, n);
    lemma_even_widths(pair.second, second.len() as int);
    assert(first.take(n) =~= first);
    assert(second.take(second.len() as int) =~= second);
    if i < n {
        lemma_estimate_moves(pair.first, delta.take(width), i);
        assert((first + second).take(i) =~= first.take(i));
        crate::states::lemma_width_sum_prefix(first, i);
        let offset = placed(first, 0)[i].offset as int;
        assert(delta.take(width).subrange(offset, offset + T::dof_spec()) =~= delta.subrange(
            offset,
            offset + T::dof_spec(),
        ));
    } else {
        let k = i - n;
        lemma_estimate_moves(pair.second, delta.skip(width), k);
        lemma_second_family_follows(first, second, k);
        crate::states::lemma_width_sum_prefix(second, k);
        let offset = placed(second, 0)[k].offset as int;
        assert(delta.skip(width).subrange(offset, offset + U::dof_spec()) =~= delta.subrange(
            width + offset,
            width + offset + U::dof_spec(),
        ));
    }
}

/// Whether a prior takes part: every one where none are selected, else the selected ones.
pub open spec fn takes_part(selected: Option<Set<RawKey>>, prior: RawKey) -> bool {
    match selected {
        None => true,
        Some(keys) => keys.contains(prior),
    }
}

/// The movements that priors are given are those of all anchors of the priors that take part, and
/// no others.
pub proof fn lemma_movements_listed<T: Variable>(
    pool: StatePool<T>,
    selected: Option<Set<RawKey>>,
    derivatives: bool,
    n: int,
)
    requires
        0 <= n <= pool.anchors@.len(),
        pool.deltas_upto(selected, derivatives, n) is Ok,
    ensures
        ({
            let deltas = pool.deltas_upto(selected, derivatives, n)->Ok_0;
            &&& forall|a: int|
                0 <= a < n && takes_part(selected, (#[trigger] pool.anchors@[a]).prior)
                    ==> pool.delta_spec(a, derivatives) is Ok && deltas.contains(
                    pool.delta_spec(a, derivatives)->Ok_0,
                )
            &&& deltas.len() == pool.anchors@.take(n).filter(
                |anchor: Anchor<T>| takes_part(selected, anchor.prior),
            ).len()
        }),
    decreases n,
{
    reveal(Seq::filter);
    if n > 0 {
        lemma_movements_listed(pool, selected, derivatives, n - 1);
        let before = pool.deltas_upto(selected, derivatives, n - 1)->Ok_0;
        let deltas = pool.deltas_upto(selected, derivatives, n)->Ok_0;
        let anchors = pool.anchors@;
        assert(anchors.take(n).drop_last() =~= anchors.take(n - 1));
        assert(anchors.take(n).last() == anchors[n - 1]);
        assert forall|a: int|
            0 <= a < n && takes_part(
                selected,
                (#[trigger] anchors[a]).prior,
            ) implies pool.delta_spec(a, derivatives) is Ok && deltas.contains(
            pool.delta_spec(a, derivatives)->Ok_0,
        ) by {
            if a < n - 1 {
                let delta = pool.delta_spec(a, derivatives)->Ok_0;
                assert(before.contains(delta));
                let k = choose|k: int| 0 <= k < before.len() && before[k] == delta;
                assert(deltas[k] == delta);
            } else {
                assert(deltas[deltas.len() - 1] == pool.delta_spec(a, derivatives)->Ok_0);
            }
        }
    }
}

/// The movement of an anchored variable is where its current estimate lies as seen from the
/// reference, and the chart of its movement is the inverse of the right Jacobian there.
pub proof fn lemma_movement_from_reference<T: Variable>(
    pool: StatePool<T>,
    index: int,
    derivatives: bool,
    reference: T,
    i: int,
)
    requires
        plain::<T>(),
        pool.anchors@[index].inverse == reference.inverse_spec(),
        pool.entries.lookup(pool.anchors@[index].state) == Ok::<int, crate::error::KeyError>(i),
        pool.delta_spec(index, derivatives) is Ok,
    ensures
        ({
            let moved = pool.delta_spec(index, derivatives)->Ok_0;
            &&& moved.delta == reference.local_spec(pool.current()[i])
            &&& derivatives ==> moved.chart == T::right_jacobian_inverse_spec(moved.delta)
            &&& moved.prior == pool.anchors@[index].prior
            &&& moved.column == pool.anchors@[index].column
        }),
{
    assert(reference.local_spec(pool.current()[i]) == crate::variable::right_difference_spec(
        reference,
        pool.current()[i],
    ));
}

/// A variable that a prior has just been anchored at is where its reference is: it has not moved.
pub proof fn lemma_fresh_anchor_rests<T: Variable>(
    pool: StatePool<T>,
    prior: RawKey,
    layout: &Layout,
    remove: Set<RawKey>,
    offset: int,
    n: int,
    a: int,
)
    requires
        0 <= a < pool.fresh_anchors(prior, layout, remove, offset, n).len(),
    ensures
        ({
            let anchor = pool.fresh_anchors(prior, layout, remove, offset, n)[a];
            &&& anchor.prior == prior
            &&& exists|i: int|
                0 <= i < n && #[trigger] pool.block(i).raw == anchor.state && anchor.inverse
                    == pool.current()[i].inverse_spec() && layout.block_index@.contains_key(
                    anchor.state,
                ) && !remove.contains(anchor.state) && anchor.column == (
                layout.blocks@[layout.block_index@[anchor.state] as int].offset - offset) as usize
        }),
    decreases n,
{
    if n > 0 {
        let before = pool.fresh_anchors(prior, layout, remove, offset, n - 1);
        if a < before.len() {
            lemma_fresh_anchor_rests(pool, prior, layout, remove, offset, n - 1, a);
            let anchor = before[a];
            let i = choose|i: int|
                0 <= i < n - 1 && #[trigger] pool.block(i).raw == anchor.state && anchor.inverse
                    == pool.current()[i].inverse_spec() && layout.block_index@.contains_key(
                    anchor.state,
                ) && !remove.contains(anchor.state) && anchor.column == (
                layout.blocks@[layout.block_index@[anchor.state] as int].offset - offset) as usize;
            assert(pool.block(i).raw == anchor.state);
        } else {
            assert(pool.block(n - 1).raw == pool.fresh_anchors(
                prior,
                layout,
                remove,
                offset,
                n,
            )[a].state);
        }
    }
}

/// Every variable that has coordinates and stays is anchored at a new prior, and there are no more
/// anchors than variables.
pub proof fn lemma_stayers_anchored<T: Variable>(
    pool: StatePool<T>,
    prior: RawKey,
    layout: &Layout,
    remove: Set<RawKey>,
    offset: int,
    n: int,
    i: int,
)
    requires
        0 <= i < n,
        layout.block_index@.contains_key(pool.block(i).raw),
        !remove.contains(pool.block(i).raw),
    ensures
        exists|a: int|
            0 <= a < pool.fresh_anchors(prior, layout, remove, offset, n).len() && (
            #[trigger] pool.fresh_anchors(prior, layout, remove, offset, n)[a]).state
                == pool.block(i).raw,
        pool.fresh_anchors(prior, layout, remove, offset, n).len() <= n,
    decreases n,
{
    let before = pool.fresh_anchors(prior, layout, remove, offset, n - 1);
    let anchors = pool.fresh_anchors(prior, layout, remove, offset, n);
    lemma_anchor_count(pool, prior, layout, remove, offset, n);
    if i < n - 1 {
        lemma_stayers_anchored(pool, prior, layout, remove, offset, n - 1, i);
        let a = choose|a: int|
            0 <= a < before.len() && (#[trigger] before[a]).state == pool.block(i).raw;
        assert(anchors[a].state == pool.block(i).raw);
    } else {
        assert(anchors[before.len() as int].state == pool.block(i).raw);
    }
}

proof fn lemma_anchor_count<T: Variable>(
    pool: StatePool<T>,
    prior: RawKey,
    layout: &Layout,
    remove: Set<RawKey>,
    offset: int,
    n: int,
)
    requires
        0 <= n,
    ensures
        pool.fresh_anchors(prior, layout, remove, offset, n).len() <= n,
    decreases n,
{
    if n > 0 {
        lemma_anchor_count(pool, prior, layout, remove, offset, n - 1);
    }
}

/// The references that are left after some priors went are those of all other priors.
pub proof fn lemma_references_left<T: Variable>(
    references: Seq<Anchor<T>>,
    priors: Set<RawKey>,
    anchor: Anchor<T>,
)
    ensures
        StatePool::<T>::left(references, priors).contains(anchor) <==> references.contains(anchor)
            && !priors.contains(anchor.prior),
    decreases references.len(),
{
    reveal(Seq::filter);
    if references.len() > 0 {
        let shorter = references.drop_last();
        lemma_references_left(shorter, priors, anchor);
        let last = references.last();
        let left = StatePool::<T>::left(references, priors);
        let before = StatePool::<T>::left(shorter, priors);
        assert(references =~= shorter.push(last));
        assert(references.contains(anchor) <==> shorter.contains(anchor) || anchor == last) by {
            if shorter.contains(anchor) {
                let k = choose|k: int| 0 <= k < shorter.len() && shorter[k] == anchor;
                assert(references[k] == anchor);
            }
            if anchor == last {
                assert(references[references.len() - 1] == anchor);
            }
        }
        if !priors.contains(last.prior) {
            assert(left == before.push(last));
            if before.contains(anchor) {
                let k = choose|k: int| 0 <= k < before.len() && before[k] == anchor;
                assert(left[k] == anchor);
            }
            if anchor == last {
                assert(left[left.len() - 1] == anchor);
            }
            if left.contains(anchor) && anchor != last {
                let k = choose|k: int| 0 <= k < left.len() && left[k] == anchor;
                assert(before[k] == anchor);
            }
        } else {
            assert(left == before);
        }
    }
}

/// A new prior meets each variable that stays at the columns that it keeps for it.
pub proof fn lemma_anchors_meet_columns(
    front: &Front,
    blocks: Seq<(BlockId, nat)>,
    all: Seq<Incidence>,
    ids: Seq<BlockId>,
    prior: RawKey,
    n: int,
    t: int,
)
    requires
        front.describes(blocks, all, ids),
        0 <= t < kept_tags(
            blocks,
            &front.layout,
            front.remove@,
            front.removed_dof as int,
            prior,
            n,
        ).len(),
    ensures
        ({
            let tag = kept_tags(
                blocks,
                &front.layout,
                front.remove@,
                front.removed_dof as int,
                prior,
                n,
            )[t];
            let columns = prior_blocks(staying(blocks, all, ids));
            &&& tag.prior == prior
            &&& exists|k: int|
                0 <= k < columns.len() && (#[trigger] columns[k]).id.raw == tag.state
                    && columns[k].start == tag.column
        }),
    decreases n,
{
    let tags = kept_tags(
        blocks,
        &front.layout,
        front.remove@,
        front.removed_dof as int,
        prior,
        n,
    );
    if n > 0 {
        let before = kept_tags(
            blocks,
            &front.layout,
            front.remove@,
            front.removed_dof as int,
            prior,
            n - 1,
        );
        if t < before.len() {
            lemma_anchors_meet_columns(front, blocks, all, ids, prior, n - 1, t);
        } else {
            let raw = blocks[n - 1].0.raw;
            let stays = staying(blocks, all, ids);
            let columns = prior_blocks(stays);
            lemma_front_order(front, blocks, all, ids);
            let p = front.layout.block_index@[raw] as int;
            let gone = front.layout.blocks@.len() - stays.len();
            assert(front.layout.block_index@.contains_key(raw));
            assert(front.layout.blocks@[p].id.raw == raw);
            assert(p >= gone);
            let k = p - gone;
            crate::states::lemma_width_sum_prefix(stays, k);
            assert(columns[k].id.raw == raw);
            assert(columns[k].start == tags[t].column);
        }
    }
}

/// The rows of a prior place the columns that it keeps for a variable at the coordinates of that
/// variable.
pub proof fn lemma_prior_rows<R: Real>(layout: &Layout, prior: PriorView<R>, n: int, i: int)
    requires
        prior.wf(),
        0 <= i < n <= prior.blocks.len(),
        prior_columns(layout, prior, n) is Ok,
    ensures
        ({
            let columns = prior_columns(layout, prior, n)->Ok_0;
            let block = prior.blocks[i];
            let place = layout.blocks@[layout.block_index@[block.id.raw] as int];
            &&& columns.len() == n
            &&& layout.block_index@.contains_key(block.id.raw)
            &&& columns[i] == place.offset
            &&& place.width == block.len
            &&& prior.shares()[i].variable == block.id
            &&& prior.shares()[i].rows == prior.rows
            &&& prior.shares()[i].cols == block.len
            &&& forall|c: int, row: int|
                0 <= c < block.len && 0 <= row < prior.rows
                    ==> #[trigger] prior.shares()[i].values[c * prior.rows + row]
                    == prior.jacobian[(block.start + c) * prior.rows + row]
        }),
    decreases n,
{
    if i < n - 1 {
        lemma_prior_rows(layout, prior, n - 1, i);
    } else {
        lemma_columns_len(layout, prior, n);
        let block = prior.blocks[i];
        let rows = prior.rows as int;
        assert(prior.blocks[i].start + prior.blocks[i].len <= prior.cols);
        assert forall|c: int, row: int|
            0 <= c < block.len && 0 <= row < rows
                implies #[trigger] prior.shares()[i].values[c * prior.rows + row]
            == prior.jacobian[(block.start + c) * prior.rows + row] by {
            assert(block.start * rows + (c * rows + row) == (block.start + c) * rows + row)
                by (nonlinear_arith);
            assert(0 <= c * rows + row < (block.start + block.len) * rows - block.start * rows)
                by (nonlinear_arith)
                requires
                    0 <= c < block.len,
                    0 <= row < rows,
            ;
            assert((block.start + block.len) * rows <= rows * prior.cols) by (nonlinear_arith)
                requires
                    block.start + block.len <= prior.cols,
                    0 <= rows,
            ;
            assert(0 <= block.start * rows) by (nonlinear_arith)
                requires
                    0 <= rows,
            ;
        }
    }
}

proof fn lemma_columns_len<R: Real>(layout: &Layout, prior: PriorView<R>, n: int)
    requires
        0 <= n,
        prior_columns(layout, prior, n) is Ok,
    ensures
        prior_columns(layout, prior, n)->Ok_0.len() == n,
    decreases n,
{
    if n > 0 {
        lemma_columns_len(layout, prior, n - 1);
    }
}

/// A block that an emission may hold: it differentiates a variable that the factor declared and
/// that no block before it names, with a row for each residual, a column for each coordinate of
/// the variable, and finite coefficients.
pub open spec fn acceptable<R: Real>(
    layout: &Layout,
    f: int,
    residual: Seq<R>,
    blocks: Seq<BlockView<R>>,
    k: int,
) -> bool {
    let block = blocks[k];
    let raw = block.variable.raw;
    let place = layout.blocks@[layout.block_index@[raw] as int];
    &&& layout.block_index@.contains_key(raw)
    &&& layout.deps(f).contains(layout.block_index@[raw])
    &&& forall|j: int| 0 <= j < k ==> (#[trigger] blocks[j]).variable != block.variable
    &&& block.rows == residual.len()
    &&& block.cols == place.width
    &&& block.values.len() == block.rows * block.cols
    &&& forall|i: int| 0 <= i < block.values.len() ==> (#[trigger] block.values[i]).finite_spec()
}

proof fn lemma_columns_checked<R: Real>(
    layout: &Layout,
    f: int,
    residual: Seq<R>,
    blocks: Seq<BlockView<R>>,
    n: int,
)
    requires
        0 <= n <= blocks.len(),
    ensures
        columns_check(layout, f, residual.len(), blocks, n) is Ok <==> forall|k: int|
            0 <= k < n ==> #[trigger] acceptable(layout, f, residual, blocks, k),
        columns_check(layout, f, residual.len(), blocks, n) matches Ok(columns) ==> columns.len()
            == n && forall|k: int|
            0 <= k < n ==> #[trigger] columns[k]
                == layout.blocks@[layout.block_index@[blocks[k].variable.raw] as int].offset,
    decreases n,
{
    if n > 0 {
        lemma_columns_checked(layout, f, residual, blocks, n - 1);
        let last = block_check(layout, f, residual.len(), blocks, n - 1);
        assert(last is Ok <==> acceptable(layout, f, residual, blocks, n - 1)) by {
            if acceptable(layout, f, residual, blocks, n - 1) {
                assert(!names(blocks, n - 1, blocks[n - 1].variable));
            }
            if last is Ok {
                assert forall|j: int| 0 <= j < n - 1 implies (#[trigger] blocks[j]).variable
                    != blocks[n - 1].variable by {
                    assert(!names(blocks, n - 1, blocks[n - 1].variable));
                }
            }
        }
        if columns_check(layout, f, residual.len(), blocks, n) is Ok {
            assert forall|k: int| 0 <= k < n implies #[trigger] acceptable(
                layout,
                f,
                residual,
                blocks,
                k,
            ) by {}
        } else if forall|k: int|
            0 <= k < n ==> #[trigger] acceptable(layout, f, residual, blocks, k) {
            assert(acceptable(layout, f, residual, blocks, n - 1));
        }
    }
}

/// An emission is accepted exactly where its residual is finite and every block is acceptable,
/// with no more blocks than variables; its blocks then go to the coordinates of their variables,
/// and no two of them meet there.
pub proof fn lemma_emission_accepted<R: Real>(
    layout: &Layout,
    f: int,
    residual: Seq<R>,
    blocks: Seq<BlockView<R>>,
)
    requires
        layout.wf(),
    ensures
        emission_check(layout, f, residual, blocks) is Ok <==> {
            &&& blocks.len() <= layout.deps(f).len()
            &&& forall|i: int|
                0 <= i < residual.len() ==> (#[trigger] residual[i]).finite_spec()
            &&& forall|k: int|
                0 <= k < blocks.len() ==> #[trigger] acceptable(layout, f, residual, blocks, k)
        },
        emission_check(layout, f, residual, blocks) matches Ok(columns) ==> {
            &&& emission_fits(layout.dimension as nat, residual, blocks, columns)
            &&& forall|k: int|
                0 <= k < blocks.len() ==> #[trigger] columns[k]
                    == layout.blocks@[layout.block_index@[blocks[k].variable.raw] as int].offset
        },
{
    let n = blocks.len() as int;
    lemma_columns_checked(layout, f, residual, blocks, n);
    if emission_check(layout, f, residual, blocks) is Ok {
        let columns = emission_check(layout, f, residual, blocks)->Ok_0;
        assert forall|k: int| 0 <= k < n implies {
            &&& (#[trigger] blocks[k]).wf()
            &&& blocks[k].rows == residual.len()
            &&& columns[k] + blocks[k].cols <= layout.dimension
        } by {
            assert(acceptable(layout, f, residual, blocks, k));
            assert(columns[k]
                == layout.blocks@[layout.block_index@[blocks[k].variable.raw] as int].offset);
            layout.lemma_within(layout.block_index@[blocks[k].variable.raw] as int);
        }
        assert forall|k: int, l: int| 0 <= k < n && 0 <= l < n && k != l implies #[trigger] apart(
            panel_spec(blocks[k]),
            columns[k] as int,
            panel_spec(blocks[l]),
            columns[l] as int,
        ) by {
            assert(acceptable(layout, f, residual, blocks, k));
            assert(acceptable(layout, f, residual, blocks, l));
            let a = layout.block_index@[blocks[k].variable.raw] as int;
            let b = layout.block_index@[blocks[l].variable.raw] as int;
            assert(columns[k] == layout.blocks@[a].offset);
            assert(columns[l] == layout.blocks@[b].offset);
            assert(a != b) by {
                if a == b {
                    assert(layout.blocks@[a].id.raw == blocks[k].variable.raw);
                    assert(blocks[k].variable == blocks[l].variable);
                }
            }
            if a < b {
                layout.lemma_disjoint(a, b);
            } else {
                layout.lemma_disjoint(b, a);
            }
        }
    }
}

/// The gradient norm of linear models bounds the gradient of what they cost, and is attained
/// unless it is zero.
pub proof fn lemma_gradient_norm<R: Real, K: Triangular<R> + Bidiagonalization<R> + Clock>(
    model: LinearView<R>,
    c: int,
)
    requires
        ordered_field::<R>(),
        crate::matrix_laws::placed(model),
        sloped(model),
        <Lsmr<R, K> as LeastSquaresBackend>::gradient_norm_spec(model) is Ok,
        0 <= c < model.cols,
    ensures
        ({
            let norm = <Lsmr<R, K> as LeastSquaresBackend>::gradient_norm_spec(model)->Ok_0;
            &&& sum(
                model.rows as int,
                |r: int| jacobian(model, r, c).times_spec(model.negative_residual[r].negate_spec()),
            ).abs_spec().at_most_spec(norm)
            &&& norm == R::zero_spec() || exists|k: int|
                0 <= k < model.cols && norm == (#[trigger] model.gradient[k]).abs_spec()
        }),
{
    lemma_norm_inf(model.gradient, model.cols as int);
    let norm = <Lsmr<R, K> as LeastSquaresBackend>::gradient_norm_spec(model)->Ok_0;
    assert(norm == max_magnitude(model.gradient, model.cols as int));
    assert(model.gradient[c].abs_spec().at_most_spec(norm));
    assert(model.gradient[c] == sum(
        model.rows as int,
        |r: int| jacobian(model, r, c).times_spec(model.negative_residual[r].negate_spec()),
    ));
}

/// What events do. A factor can be opened once, within its window and outside any other scope;
/// residuals count only inside a scope, and then extend the model by the coordinates of their
/// variables; and whatever is refused leaves the model as it was and is remembered.
pub proof fn lemma_event_effects<B: LeastSquaresBackend>(
    layout: &Layout,
    window: Window,
    scoped: bool,
    progress: Progress<B::Model>,
    event: EventView<B::Scalar>,
)
    ensures
        ({
            let (after, reply) = event_step::<B>(layout, window, scoped, progress, event);
            &&& progress.failed ==> after.failed
            &&& reply is Err ==> after.failed && after.model == progress.model
            &&& event matches EventView::Open(id) ==> {
                let f = layout.factor_index@[id.raw];
                &&& reply is Ok <==> {
                    &&& progress.active is None
                    &&& layout.factor_index@.contains_key(id.raw)
                    &&& window.start <= f < window.end
                    &&& !progress.seen[f as int]
                }
                &&& reply is Ok ==> after.active == Some(f) && after.model == progress.model
                    && after.seen == progress.seen.update(f as int, true)
                &&& reply is Err ==> after.seen == progress.seen && after.active
                    == progress.active
            }
            &&& event matches EventView::Close(result) ==> {
                &&& after.model == progress.model
                &&& after.seen == progress.seen
                &&& !scoped && progress.active is Some ==> after.active is None && reply == result
                &&& scoped || progress.active is None ==> reply is Err && after.active
                    == progress.active
            }
            &&& event matches EventView::Residual(residual, blocks) ==> {
                &&& after.active == progress.active
                &&& after.seen == progress.seen
                &&& reply is Ok ==> {
                    &&& progress.active matches Some(f)
                    &&& emission_check(layout, f as int, residual, blocks) matches Ok(columns)
                    &&& B::extended_spec(progress.model, residual, blocks, columns) == Ok::<
                        B::Model,
                        EvaluationError,
                    >(after.model)
                    &&& after.failed == progress.failed
                }
            }
        }),
{
}

/// A model over another number of coordinates keeps its rows, and the gradient of the coordinates
/// that remain; new ones have none.
pub proof fn lemma_resized_keeps<R: Real>(linear: LinearView<R>, dimension: nat, r: int, c: int)
    requires
        0 <= c < dimension,
    ensures
        ({
            let after = linear.resized(dimension);
            &&& after.cols == dimension
            &&& after.rows == linear.rows
            &&& after.negative_residual == linear.negative_residual
            &&& after.gradient.len() == dimension
            &&& after.gradient[c] == if c < linear.gradient.len() {
                linear.gradient[c]
            } else {
                R::zero_spec()
            }
            &&& jacobian(after, r, c) == jacobian(linear, r, c)
        }),
{
    let after = linear.resized(dimension);
    let n = linear.blocks.len() as int;
    lemma_sum_same(
        n,
        |b: int| stored_at(after, b, r, c),
        |b: int| stored_at(linear, b, r, c),
    );
}

proof fn lemma_same_magnitudes<R: Real>(a: Seq<R>, b: Seq<R>, n: int)
    requires
        ordered_field::<R>(),
        forall|i: int| 0 <= i < n ==> #[trigger] a[i] == b[i].negate_spec(),
    ensures
        max_magnitude(a, n) == max_magnitude(b, n),
    decreases n,
{
    if n > 0 {
        lemma_same_magnitudes(a, b, n - 1);
        let (x, y) = (a[n - 1], b[n - 1]);
        let zero = R::zero_spec();
        assert(x == y.negate_spec());
        lemma_negate_order(x, zero);
        lemma_negate_order(y, zero);
        lemma_negate_order(zero, y);
        lemma_negate(y, y);
        assert(ordered_at(x, zero, zero));
        assert(ordered_at(y, zero, zero));
        lemma_order(x, zero, y);
        lemma_order(y, zero, x);
        lemma_order(zero, x, y);
        lemma_order(zero, y, x);
    }
}

/// All backends agree on the gradient norm of the same rows, whether they hold the gradient or,
/// on the right-hand side of normal equations, its opposite.
pub proof fn lemma_gradient_norms_agree<
    R: Real,
    K: Triangular<R> + Bidiagonalization<R> + ConjugateGradient<R> + Clock,
>(linear: LinearView<R>, model: SchurView<R>, normal: NormalView<R>)
    requires
        ordered_field::<R>(),
        model.linear == linear,
        normal.rhs.len() == linear.gradient.len(),
        forall|c: int|
            0 <= c < linear.gradient.len() ==> #[trigger] normal.rhs[c]
                == linear.gradient[c].negate_spec(),
        <Lsmr<R, K> as LeastSquaresBackend>::gradient_norm_spec(linear) is Ok,
        <DenseNormalCholesky<R, K> as LeastSquaresBackend>::gradient_norm_spec(normal) is Ok,
    ensures
        <Schur<R, K> as LeastSquaresBackend>::gradient_norm_spec(model) == <Lsmr<
            R,
            K,
        > as LeastSquaresBackend>::gradient_norm_spec(linear),
        <DenseNormalCholesky<R, K> as LeastSquaresBackend>::gradient_norm_spec(normal) == <Lsmr<
            R,
            K,
        > as LeastSquaresBackend>::gradient_norm_spec(linear),
{
    lemma_same_magnitudes(normal.rhs, linear.gradient, linear.gradient.len() as int);
}

} // verus!
