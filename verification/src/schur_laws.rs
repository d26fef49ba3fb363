//! What iterative elimination solves: the damped normal equations of both sides.
use crate::algebra::{
    lemma_negate, lemma_plus, lemma_positive_times_order, lemma_sum_plus, lemma_sum_same,
    lemma_sum_swap, lemma_sum_times, lemma_sum_window, lemma_sum_zero, lemma_times,
    lemma_times_zero, ordered_at, ordered_field, ring, sum,
};
use crate::block_factors::{BlockFactors, GramView};
use crate::block_laws::{block_row, damped_at, gram_at, lemma_blocks_solve, owned, owns};
use crate::damped_laws::{lemma_residual_is_slope, slope_after};
use crate::direct_laws::is_exact;
use crate::graph_laws::lemma_length;
use crate::information::aligned;
use crate::kernels::{lower_triangle, ConjugateGradient, Triangular};
use crate::linear_model::{hypot_sum, LinearView};
use crate::linearization::BlockView;
use crate::matrix_laws::{lengths, placed};
use crate::scalar::Real;
use crate::schur::{
    crossed, edge_of, eliminated_of, gram_row, grammed, is_multiple, lemma_coupling, retained_of,
    Edge, Partition, SchurView, System,
};
use vstd::prelude::*;

verus! {

/// The retained coordinate that an entry of the coupling blocks belongs to.
pub open spec fn retained_place(partition: Partition, edges: Seq<Edge>, t: int) -> int {
    edges[edge_of(t, partition)].retained + retained_of(t, partition)
}

/// The eliminated coordinate that an entry of the coupling blocks belongs to.
pub open spec fn eliminated_place(partition: Partition, edges: Seq<Edge>, t: int) -> int {
    edges[edge_of(t, partition)].eliminated + eliminated_of(t, partition)
}

/// An entry of the matrix that the coupling blocks make up: the sum of all their entries at a
/// retained and an eliminated coordinate.
pub open spec fn coupling<R: Real>(
    partition: Partition,
    edges: Seq<Edge>,
    cross: Seq<R>,
    i: int,
    p: int,
) -> R {
    sum(
        cross.len() as int,
        |t: int|
            if retained_place(partition, edges, t) == i && eliminated_place(partition, edges, t)
                == p {
                cross[t]
            } else {
                R::zero_spec()
            },
    )
}

/// Where each entry of the coupling blocks is stored: edge by edge, and of an edge the row of one
/// eliminated coordinate after the other. It is the product of two columns of the blocks that the
/// edge couples, each divided by its scale.
pub proof fn lemma_coupling_entries<R: Real>(
    model: SchurView<R>,
    scales: Seq<R>,
    e: int,
    p: int,
    c: int,
)
    requires
        0 <= e < model.edges.len(),
        0 <= p < model.partition.eliminated_width,
        0 <= c < model.partition.retained_width,
    ensures
        ({
            let t = (e * model.partition.eliminated_width + p) * model.partition.retained_width + c;
            let edge = model.edges[e];
            let left = model.linear.blocks[edge.retained_jacobian as int];
            let right = model.linear.blocks[edge.eliminated_jacobian as int];
            &&& 0 <= t < model.coupled(scales).len()
            &&& retained_place(model.partition, model.edges, t) == edge.retained + c
            &&& eliminated_place(model.partition, model.edges, t) == edge.eliminated + p
            &&& model.coupled(scales)[t] == sum(
                left.rows as int,
                |r: int|
                    model.linear.values[left.start + c * left.rows + r].over_spec(
                        scales[left.col + c],
                    ).times_spec(
                        model.linear.values[right.start + p * right.rows + r].over_spec(
                            scales[right.col + p],
                        ),
                    ),
            )
        }),
{
    let rw = model.partition.retained_width as int;
    let ew = model.partition.eliminated_width as int;
    let q = e * ew + p;
    let t = q * rw + c;
    let n = model.edges.len() as int;
    assert(0 <= t < rw * ew * n) by (nonlinear_arith)
        requires
            0 <= e < n,
            0 <= p < ew,
            0 <= c < rw,
            t == (e * ew + p) * rw + c,
    ;
    vstd::arithmetic::div_mod::lemma_fundamental_div_mod_converse(t, rw, q, c);
    vstd::arithmetic::div_mod::lemma_fundamental_div_mod_converse(q, ew, e, p);
    let edge = model.edges[e];
    lemma_coupling_dot(
        model,
        scales,
        edge,
        p,
        c,
        model.linear.blocks[edge.retained_jacobian as int].rows as int,
    );
}

proof fn lemma_coupling_dot<R: Real>(
    model: SchurView<R>,
    scales: Seq<R>,
    edge: Edge,
    p: int,
    c: int,
    n: int,
)
    ensures
        ({
            let left = model.linear.blocks[edge.retained_jacobian as int];
            let right = model.linear.blocks[edge.eliminated_jacobian as int];
            model.coupling_dot(scales, edge, p, c, n) == sum(
                n,
                |r: int|
                    model.linear.values[left.start + c * left.rows + r].over_spec(
                        scales[left.col + c],
                    ).times_spec(
                        model.linear.values[right.start + p * right.rows + r].over_spec(
                            scales[right.col + p],
                        ),
                    ),
            )
        }),
    decreases n,
{
    if n > 0 {
        lemma_coupling_dot(model, scales, edge, p, c, n - 1);
    }
}

/// Places of entries lie among the coordinates of the two sides.
pub open spec fn places_fit<R: Real>(
    partition: Partition,
    edges: Seq<Edge>,
    cross: Seq<R>,
    retained: int,
    eliminated: int,
) -> bool {
    forall|t: int|
        0 <= t < cross.len() ==> 0 <= #[trigger] retained_place(partition, edges, t) < retained
            && 0 <= eliminated_place(partition, edges, t) < eliminated
}

proof fn lemma_crossed<R: Real>(
    partition: Partition,
    edges: Seq<Edge>,
    cross: Seq<R>,
    out: Seq<R>,
    rhs: Seq<R>,
    transpose: bool,
    alpha: R,
    n: int,
    k: int,
)
    requires
        ring::<R>(),
        0 <= n <= cross.len(),
        0 <= k < out.len(),
        transpose ==> places_fit(partition, edges, cross, rhs.len() as int, out.len() as int),
        !transpose ==> places_fit(partition, edges, cross, out.len() as int, rhs.len() as int),
    ensures
        ({
            let after = crossed(partition, edges, cross, out, rhs, transpose, alpha, n);
            &&& after.len() == out.len()
            &&& after[k] == out[k].plus_spec(
                sum(
                    n,
                    |t: int|
                        if transpose && eliminated_place(partition, edges, t) == k {
                            alpha.times_spec(cross[t]).times_spec(
                                rhs[retained_place(partition, edges, t)],
                            )
                        } else if !transpose && retained_place(partition, edges, t) == k {
                            alpha.times_spec(cross[t]).times_spec(
                                rhs[eliminated_place(partition, edges, t)],
                            )
                        } else {
                            R::zero_spec()
                        },
                ),
            )
        }),
    decreases n,
{
    let f = |t: int|
        if transpose && eliminated_place(partition, edges, t) == k {
            alpha.times_spec(cross[t]).times_spec(rhs[retained_place(partition, edges, t)])
        } else if !transpose && retained_place(partition, edges, t) == k {
            alpha.times_spec(cross[t]).times_spec(rhs[eliminated_place(partition, edges, t)])
        } else {
            R::zero_spec()
        };
    if n <= 0 {
        lemma_plus(out[k], R::zero_spec(), R::zero_spec());
    } else {
        lemma_crossed(partition, edges, cross, out, rhs, transpose, alpha, n - 1, k);
        assert(0 <= retained_place(partition, edges, n - 1));
        let before = crossed(partition, edges, cross, out, rhs, transpose, alpha, n - 1);
        assert(sum(n, f) == sum(n - 1, f).plus_spec(f(n - 1)));
        lemma_plus(out[k], sum(n - 1, f), f(n - 1));
        lemma_plus(before[k], R::zero_spec(), R::zero_spec());
        lemma_plus(sum(n - 1, f), R::zero_spec(), R::zero_spec());
    }
}

/// Coupling blocks act as the matrix that they make up, from the eliminated to the retained side;
/// and as its transpose the other way round.
pub proof fn lemma_coupling_product<R: Real>(
    partition: Partition,
    edges: Seq<Edge>,
    cross: Seq<R>,
    out: Seq<R>,
    rhs: Seq<R>,
    transpose: bool,
    alpha: R,
    k: int,
)
    requires
        ring::<R>(),
        0 <= k < out.len(),
        transpose ==> places_fit(partition, edges, cross, rhs.len() as int, out.len() as int),
        !transpose ==> places_fit(partition, edges, cross, out.len() as int, rhs.len() as int),
    ensures
        ({
            let after = crossed(
                partition,
                edges,
                cross,
                out,
                rhs,
                transpose,
                alpha,
                cross.len() as int,
            );
            &&& after.len() == out.len()
            &&& transpose ==> after[k] == out[k].plus_spec(
                alpha.times_spec(
                    sum(
                        rhs.len() as int,
                        |q: int| coupling(partition, edges, cross, q, k).times_spec(rhs[q]),
                    ),
                ),
            )
            &&& !transpose ==> after[k] == out[k].plus_spec(
                alpha.times_spec(
                    sum(
                        rhs.len() as int,
                        |q: int| coupling(partition, edges, cross, k, q).times_spec(rhs[q]),
                    ),
                ),
            )
        }),
{
    let n = cross.len() as int;
    let m = rhs.len() as int;
    let zero = R::zero_spec();
    lemma_crossed(partition, edges, cross, out, rhs, transpose, alpha, n, k);
    let here = |t: int|
        if transpose {
            eliminated_place(partition, edges, t)
        } else {
            retained_place(partition, edges, t)
        };
    let there = |t: int|
        if transpose {
            retained_place(partition, edges, t)
        } else {
            eliminated_place(partition, edges, t)
        };
    let f = |t: int|
        if transpose && eliminated_place(partition, edges, t) == k {
            alpha.times_spec(cross[t]).times_spec(rhs[retained_place(partition, edges, t)])
        } else if !transpose && retained_place(partition, edges, t) == k {
            alpha.times_spec(cross[t]).times_spec(rhs[eliminated_place(partition, edges, t)])
        } else {
            zero
        };
    let grid = |q: int, t: int|
        if here(t) == k && there(t) == q {
            cross[t].times_spec(rhs[q])
        } else {
            zero
        };
    let by_q = |q: int| sum(n, |t: int| grid(q, t));
    let by_t = |t: int| sum(m, |q: int| grid(q, t));
    let g = |q: int|
        (if transpose {
            coupling(partition, edges, cross, q, k)
        } else {
            coupling(partition, edges, cross, k, q)
        }).times_spec(rhs[q]);
    assert forall|q: int| 0 <= q < m implies #[trigger] g(q) == by_q(q) by {
        let h = |t: int| grid(q, t);
        if transpose {
            let p = |t: int|
                if retained_place(partition, edges, t) == q && eliminated_place(
                    partition,
                    edges,
                    t,
                ) == k {
                    cross[t]
                } else {
                    zero
                };
            assert forall|t: int| 0 <= t < n implies #[trigger] h(t) == rhs[q].times_spec(
                p(t),
            ) by {
                lemma_times(cross[t], rhs[q], zero);
                lemma_times_zero(rhs[q]);
            }
            lemma_sum_times(n, rhs[q], p, h);
            lemma_times(rhs[q], sum(n, p), zero);
        } else {
            let p = |t: int|
                if retained_place(partition, edges, t) == k && eliminated_place(
                    partition,
                    edges,
                    t,
                ) == q {
                    cross[t]
                } else {
                    zero
                };
            assert forall|t: int| 0 <= t < n implies #[trigger] h(t) == rhs[q].times_spec(
                p(t),
            ) by {
                lemma_times(cross[t], rhs[q], zero);
                lemma_times_zero(rhs[q]);
            }
            lemma_sum_times(n, rhs[q], p, h);
            lemma_times(rhs[q], sum(n, p), zero);
        }
    }
    lemma_sum_same(m, g, by_q);
    lemma_sum_swap(m, n, grid);
    assert forall|t: int| 0 <= t < n implies #[trigger] f(t) == alpha.times_spec(by_t(t)) by {
        let h = |q: int| grid(q, t);
        assert(0 <= retained_place(partition, edges, t));
        if here(t) == k {
            let one = |q: int| cross[t].times_spec(rhs[there(t)]);
            lemma_sum_window(m, there(t), 1, h, one);
            assert(sum(1, one) == sum(0, one).plus_spec(one(0)));
            lemma_plus(one(0), zero, zero);
            lemma_times(alpha, cross[t], rhs[there(t)]);
        } else {
            lemma_sum_zero(m, h);
            lemma_times_zero(alpha);
        }
    }
    lemma_sum_times(n, alpha, by_t, f);
    if transpose {
        lemma_sum_same(
            m,
            g,
            |q: int| coupling(partition, edges, cross, q, k).times_spec(rhs[q]),
        );
    } else {
        lemma_sum_same(
            m,
            g,
            |q: int| coupling(partition, edges, cross, k, q).times_spec(rhs[q]),
        );
    }
}

/// An entry of the Gram matrix of a variable.
pub open spec fn plain_at<R: Real>(grams: GramView<R>, v: int, row: int, col: int) -> R {
    if col <= row {
        gram_at(grams, v, row, col)
    } else {
        gram_at(grams, v, col, row)
    }
}

proof fn lemma_gram_row<R: Real>(
    grams: GramView<R>,
    rhs: Seq<R>,
    b: int,
    i: int,
    value: R,
    n: int,
)
    requires
        ring::<R>(),
    ensures
        gram_row(grams, rhs, b, i, value, n) == value.plus_spec(
            sum(n, |j: int| plain_at(grams, b, i, j).times_spec(rhs[grams.blocks[b].col + j])),
        ),
    decreases n,
{
    let f = |j: int| plain_at(grams, b, i, j).times_spec(rhs[grams.blocks[b].col + j]);
    if n <= 0 {
        lemma_plus(value, R::zero_spec(), R::zero_spec());
    } else {
        lemma_gram_row(grams, rhs, b, i, value, n - 1);
        assert(grams.blocks[b].col + n - 1 == grams.blocks[b].col + (n - 1));
        assert(sum(n, f) == sum(n - 1, f).plus_spec(f(n - 1)));
        lemma_plus(value, sum(n - 1, f), f(n - 1));
    }
}

/// Gram matrices act block by block: a coordinate of a variable gains the product of its row, one
/// of no variable stays as it is.
pub proof fn lemma_gram_product<R: Real>(
    grams: GramView<R>,
    out: Seq<R>,
    rhs: Seq<R>,
    n: int,
    v: int,
    r: int,
)
    requires
        ring::<R>(),
        owns(grams),
        0 <= n <= grams.blocks.len(),
        0 <= r < out.len() <= grams.owners.len(),
    ensures
        grammed(grams, out, rhs, n).len() == out.len(),
        0 <= v < grams.blocks.len() && grams.blocks[v].col <= r < grams.blocks[v].col
            + grams.blocks[v].width ==> grammed(grams, out, rhs, n)[r] == if v < n {
            out[r].plus_spec(
                sum(
                    grams.blocks[v].width as int,
                    |j: int|
                        plain_at(grams, v, r - grams.blocks[v].col, j).times_spec(
                            rhs[grams.blocks[v].col + j],
                        ),
                ),
            )
        } else {
            out[r]
        },
        grams.owners[r] is None ==> grammed(grams, out, rhs, n)[r] == out[r],
    decreases n,
{
    if n > 0 {
        lemma_gram_product(grams, out, rhs, n - 1, v, r);
        let block = grams.blocks[n - 1];
        if block.col <= r < block.col + block.width {
            assert(owned(grams, n - 1, r));
            if 0 <= v < grams.blocks.len() && grams.blocks[v].col <= r < grams.blocks[v].col
                + grams.blocks[v].width {
                assert(owned(grams, v, r));
            }
            lemma_gram_row(
                grams,
                rhs,
                n - 1,
                r - block.col,
                grammed(grams, out, rhs, n - 1)[r],
                block.width as int,
            );
        }
    }
}

/// What elimination of a side takes for granted: blocks whose damped Gram matrices have factors,
/// and that do not reach from one side into the other.
pub open spec fn solvable<R: Real, K: Triangular<R>>(
    blocks: BlockFactors<R>,
    kernel: K,
    lambda: R,
    offset: int,
    len: int,
) -> bool {
    &&& is_exact::<R, K>(kernel)
    &&& owns(blocks.grams())
    &&& blocks.factored(kernel, lambda, blocks.blocks@.len() as int)
    &&& blocks.separates(0, offset)
    &&& blocks.separates(offset, len)
    &&& 0 <= offset
    &&& 0 <= len
    &&& offset + len <= blocks.owners@.len()
    &&& forall|b: int| 0 <= b < blocks.blocks@.len() ==> !(#[trigger] blocks.blocks@[b]).fallback
    &&& R::zero_spec().at_most_spec(lambda)
}

/// Solves of differences are differences of solves.
proof fn lemma_solved_difference<R: Real, K: Triangular<R>>(
    blocks: BlockFactors<R>,
    kernel: K,
    a: Seq<R>,
    b: Seq<R>,
    c: Seq<R>,
    offset: int,
    lambda: R,
    i: int,
)
    requires
        ordered_field::<R>(),
        solvable(blocks, kernel, lambda, offset, a.len() as int),
        b.len() == a.len(),
        c.len() == a.len(),
        forall|k: int| 0 <= k < a.len() ==> #[trigger] c[k] == a[k].minus_spec(b[k]),
        0 <= i < a.len(),
    ensures
        blocks.solved(kernel, c, offset, lambda)[i] == blocks.solved(
            kernel,
            a,
            offset,
            lambda,
        )[i].minus_spec(blocks.solved(kernel, b, offset, lambda)[i]),
{
    let zero = R::zero_spec();
    let xa = blocks.solved(kernel, a, offset, lambda);
    let xb = blocks.solved(kernel, b, offset, lambda);
    let xc = blocks.solved(kernel, c, offset, lambda);
    lemma_blocks_solve(blocks, kernel, a, offset, lambda);
    lemma_blocks_solve(blocks, kernel, b, offset, lambda);
    lemma_blocks_solve(blocks, kernel, c, offset, lambda);
    assert(c[i] == a[i].minus_spec(b[i]));
    let gap = xa[i].minus_spec(xb[i]);
    match blocks.owners@[offset + i] {
        None => {
            assert(xa[i] == xa[i] && xb[i] == xb[i] && xc[i] == xc[i]);
            if lambda != zero {
                assert(ordered_at(lambda, zero, zero));
                assert(ordered_at(zero, lambda, zero));
                lemma_times_minus(lambda, xa[i], xb[i]);
                lemma_times(lambda, xc[i], zero);
                lemma_times(lambda, gap, zero);
                lemma_positive_times_order(xc[i], gap, lambda);
            }
        },
        Some(v) => {
            let v = v as int;
            let block = blocks.blocks@[v];
            assert(blocks.grams().owners[offset + i] == Some(v as usize));
            assert(blocks.grams().blocks[v] == block);
            let at = block.col - offset;
            assert(offset <= block.col);
            let width = block.width as int;
            let damped = lower_triangle(width as nat, blocks.grams().damped(v, lambda));
            crate::block_laws::lemma_block_factor(
                blocks,
                kernel,
                lambda,
                blocks.blocks@.len() as int,
                v,
            );
            assert(block.col + block.width <= offset + a.len());
            let x = |j: int| xc[at + j];
            let y = |j: int| xa[at + j].minus_spec(xb[at + j]);
            let full = crate::direct_laws::full(damped);
            assert forall|row: int| 0 <= row < width implies #[trigger] crate::direct_laws::row_times(
                width,
                full,
                row,
                x,
            ) == crate::direct_laws::row_times(width, full, row, y) by {
                let entry = |j: int| damped_at(blocks.grams(), v, lambda, row, j);
                let fa = |j: int| entry(j).times_spec(xa[at + j]);
                let fb = |j: int| entry(j).times_spec(xb[at + j]);
                let fc = |j: int| entry(j).times_spec(xc[at + j]);
                assert(block_row(blocks, lambda, v, at, xa, row) == a[at + row]);
                assert(block_row(blocks, lambda, v, at, xb, row) == b[at + row]);
                assert(block_row(blocks, lambda, v, at, xc, row) == c[at + row]);
                lemma_sum_same(
                    width,
                    fa,
                    |j: int| damped_at(blocks.grams(), v, lambda, row, j).times_spec(xa[at + j]),
                );
                lemma_sum_same(
                    width,
                    fb,
                    |j: int| damped_at(blocks.grams(), v, lambda, row, j).times_spec(xb[at + j]),
                );
                lemma_sum_same(
                    width,
                    fc,
                    |j: int| damped_at(blocks.grams(), v, lambda, row, j).times_spec(xc[at + j]),
                );
                assert(c[at + row] == a[at + row].minus_spec(b[at + row]));
                let gx = |j: int| full(row, j).times_spec(x(j));
                let gy = |j: int| full(row, j).times_spec(y(j));
                let opposite = |j: int| fb(j).negate_spec();
                assert forall|j: int| 0 <= j < width implies #[trigger] gx(j) == fc(j) by {
                    assert(crate::direct_laws::symmetric(damped, row, j) == entry(j));
                }
                assert forall|j: int| 0 <= j < width implies #[trigger] gy(j) == fa(j).plus_spec(
                    opposite(j),
                ) by {
                    assert(crate::direct_laws::symmetric(damped, row, j) == entry(j));
                    lemma_times_minus(entry(j), xa[at + j], xb[at + j]);
                    lemma_plus(fa(j), fb(j), zero);
                }
                lemma_sum_same(width, gx, fc);
                lemma_sum_plus(width, fa, opposite, gy);
                crate::algebra::lemma_sum_negate(width, fb, opposite);
                lemma_plus(sum(width, fa), sum(width, fb), zero);
            }
            crate::direct_laws::lemma_factored_unique(
                width as nat,
                damped,
                blocks.block_factor(v),
                x,
                y,
                i - at,
            );
        },
    }
}

proof fn lemma_times_minus<R: Real>(a: R, b: R, c: R)
    requires
        ring::<R>(),
    ensures
        a.times_spec(b.minus_spec(c)) == a.times_spec(b).minus_spec(a.times_spec(c)),
{
    lemma_plus(b, c, c);
    lemma_negate(a, c);
    lemma_times(a, b, c.negate_spec());
    lemma_plus(a.times_spec(b), a.times_spec(c), c);
}

proof fn lemma_places_fit<R: Real, K: Triangular<R>>(system: System<R, K>)
    requires
        system.wf(),
    ensures
        places_fit(
            system.partition,
            system.edges,
            system.cross,
            system.retained(),
            system.linear.cols - system.retained(),
        ),
{
    assert forall|t: int| 0 <= t < system.cross.len() implies 0 <= #[trigger] retained_place(
        system.partition,
        system.edges,
        t,
    ) < system.retained() && 0 <= eliminated_place(system.partition, system.edges, t)
        < system.linear.cols - system.retained() by {
        lemma_coupling(t, system.partition, system.edges.len() as int);
        assert(system.edges[edge_of(t, system.partition)].retained
            + system.partition.retained_width <= system.retained());
    }
}

/// A coordinate of a step in the coordinates that columns of length one give.
pub open spec fn unscaled<R: Real, K: Triangular<R>>(
    system: System<R, K>,
    step: Seq<R>,
    j: int,
) -> R {
    step[j].times_spec(system.scales[j])
}

/// The negative gradient in the same coordinates.
pub open spec fn descent<R: Real, K: Triangular<R>>(system: System<R, K>, j: int) -> R {
    system.linear.gradient[j].negate_spec().over_spec(system.scales[j])
}

/// What the two sides of a recovered step are.
proof fn lemma_recovered<R: Real, K: Triangular<R>>(
    system: System<R, K>,
    lambda: R,
    reduced: Seq<R>,
)
    requires
        ordered_field::<R>(),
        system.wf(),
        solvable(
            system.blocks,
            system.kernel,
            lambda,
            system.retained(),
            system.linear.cols - system.retained(),
        ),
        reduced.len() == system.retained(),
        forall|j: int|
            0 <= j < system.linear.cols ==> #[trigger] system.scales[j] != R::zero_spec(),
    ensures
        ({
            let step = system.recovered(lambda, reduced);
            let m = system.linear.cols - system.retained();
            let across = system.couple(
                Seq::new(m as nat, |i: int| R::zero_spec()),
                reduced,
                true,
                R::one_spec(),
            );
            let direction = system.descent_direction().skip(system.retained());
            let left = Seq::new(m as nat, |p: int| direction[p].minus_spec(across[p]));
            let rest = system.blocks.solved(system.kernel, left, system.retained(), lambda);
            &&& across.len() == m
            &&& rest.len() == m
            &&& forall|j: int|
                0 <= j < system.retained() ==> #[trigger] unscaled(system, step, j) == reduced[j]
            &&& forall|p: int|
                0 <= p < m ==> #[trigger] rest[p] == unscaled(
                    system,
                    step,
                    system.retained() + p,
                )
            &&& forall|p: int|
                0 <= p < m ==> #[trigger] across[p] == sum(
                    reduced.len() as int,
                    |i: int|
                        coupling(system.partition, system.edges, system.cross, i, p).times_spec(
                            reduced[i],
                        ),
                )
        }),
{
    let step = system.recovered(lambda, reduced);
    let r = system.retained();
    let m = system.linear.cols - r;
    let none = Seq::new(m as nat, |i: int| R::zero_spec());
    let minus = R::one_spec().negate_spec();
    let across = system.couple(none, reduced, true, R::one_spec());
    let direction = system.descent_direction().skip(r);
    let left = Seq::new(m as nat, |p: int| direction[p].minus_spec(across[p]));
    let given = system.couple(direction, reduced, true, minus);
    lemma_places_fit(system);
    if m > 0 {
        lemma_coupling_product(
            system.partition,
            system.edges,
            system.cross,
            none,
            reduced,
            true,
            R::one_spec(),
            0,
        );
        lemma_coupling_product(
            system.partition,
            system.edges,
            system.cross,
            direction,
            reduced,
            true,
            minus,
            0,
        );
    } else {
        assert(system.cross.len() == 0) by {
            if system.cross.len() > 0 {
                assert(0 <= retained_place(system.partition, system.edges, 0));
            }
        }
    }
    assert forall|p: int| 0 <= p < m implies #[trigger] across[p] == sum(
        reduced.len() as int,
        |i: int|
            coupling(system.partition, system.edges, system.cross, i, p).times_spec(reduced[i]),
    ) && given[p] == left[p] by {
        lemma_coupling_product(
            system.partition,
            system.edges,
            system.cross,
            none,
            reduced,
            true,
            R::one_spec(),
            p,
        );
        lemma_coupling_product(
            system.partition,
            system.edges,
            system.cross,
            direction,
            reduced,
            true,
            minus,
            p,
        );
        let g = |i: int|
            coupling(system.partition, system.edges, system.cross, i, p).times_spec(reduced[i]);
        let s = sum(reduced.len() as int, g);
        lemma_times(s, R::one_spec(), R::one_spec());
        lemma_plus(s, s, s);
        lemma_negate(R::one_spec(), s);
        lemma_plus(direction[p], s, s);
    }
    assert(given =~= left);
    let rest = system.blocks.solved(system.kernel, left, r, lambda);
    lemma_blocks_solve(system.blocks, system.kernel, left, r, lambda);
    assert forall|j: int| 0 <= j < r implies #[trigger] unscaled(system, step, j) == reduced[j] by {
        assert(system.scales[j] != R::zero_spec());
        assert(ordered_at((reduced + rest)[j], system.scales[j], reduced[j]));
    }
    assert forall|p: int| 0 <= p < m implies #[trigger] rest[p] == unscaled(system, step, r + p) by {
        assert(system.scales[r + p] != R::zero_spec());
        assert(ordered_at((reduced + rest)[r + p], system.scales[r + p], rest[p]));
    }
}

/// The eliminated side of a recovered step solves its damped normal equations: the damped Gram
/// matrix of each of its blocks, and the coupling with the retained side.
pub proof fn lemma_eliminated_side_solves<R: Real, K: Triangular<R>>(
    system: System<R, K>,
    lambda: R,
    reduced: Seq<R>,
    v: int,
    row: int,
)
    requires
        ordered_field::<R>(),
        system.wf(),
        solvable(
            system.blocks,
            system.kernel,
            lambda,
            system.retained(),
            system.linear.cols - system.retained(),
        ),
        reduced.len() == system.retained(),
        forall|j: int|
            0 <= j < system.linear.cols ==> #[trigger] system.scales[j] != R::zero_spec(),
        0 <= v < system.blocks.blocks@.len(),
        system.retained() <= system.blocks.blocks@[v].col < system.linear.cols,
        0 <= row < system.blocks.blocks@[v].width,
    ensures
        ({
            let step = system.recovered(lambda, reduced);
            let block = system.blocks.blocks@[v];
            let p = block.col - system.retained() + row;
            descent(system, block.col + row) == sum(
                block.width as int,
                |j: int|
                    damped_at(system.blocks.grams(), v, lambda, row, j).times_spec(
                        unscaled(system, step, block.col + j),
                    ),
            ).plus_spec(
                sum(
                    system.retained(),
                    |i: int|
                        coupling(system.partition, system.edges, system.cross, i, p).times_spec(
                            unscaled(system, step, i),
                        ),
                ),
            )
        }),
{
    let step = system.recovered(lambda, reduced);
    let r = system.retained();
    let m = system.linear.cols - r;
    let block = system.blocks.blocks@[v];
    let at = block.col - r;
    let p = at + row;
    let zero = R::zero_spec();
    lemma_recovered(system, lambda, reduced);
    let across = system.couple(
        Seq::new(m as nat, |i: int| R::zero_spec()),
        reduced,
        true,
        R::one_spec(),
    );
    let direction = system.descent_direction().skip(r);
    let left = Seq::new(m as nat, |p: int| direction[p].minus_spec(across[p]));
    let rest = system.blocks.solved(system.kernel, left, r, lambda);
    lemma_blocks_solve(system.blocks, system.kernel, left, r, lambda);
    assert(system.blocks.grams().blocks[v] == block);
    assert(block.col + block.width <= system.linear.cols);
    assert(block_row(system.blocks, lambda, v, at, rest, row) == left[at + row]);
    let f = |j: int|
        damped_at(system.blocks.grams(), v, lambda, row, j).times_spec(rest[at + j]);
    let g = |j: int|
        damped_at(system.blocks.grams(), v, lambda, row, j).times_spec(
            unscaled(system, step, block.col + j),
        );
    assert forall|j: int| 0 <= j < block.width implies #[trigger] f(j) == g(j) by {
        assert(rest[at + j] == unscaled(system, step, r + (at + j)));
    }
    lemma_sum_same(block.width as int, f, g);
    let c = |i: int|
        coupling(system.partition, system.edges, system.cross, i, p).times_spec(reduced[i]);
    let d = |i: int|
        coupling(system.partition, system.edges, system.cross, i, p).times_spec(
            unscaled(system, step, i),
        );
    assert forall|i: int| 0 <= i < r implies #[trigger] c(i) == d(i) by {
        assert(unscaled(system, step, i) == reduced[i]);
    }
    lemma_sum_same(r, c, d);
    assert(across[p] == sum(r, c));
    let s = across[p];
    lemma_plus(direction[p], s, s);
    lemma_plus(direction[p], s.negate_spec(), s);
    lemma_plus(s, s, s);
    lemma_plus(direction[p], zero, zero);
}

/// Where the retained step solves the reduced system, the retained side of the recovered step
/// solves its damped normal equations: its damping, the Gram matrix of its block, and the coupling
/// with the eliminated side.
pub proof fn lemma_retained_side_solves<R: Real, K: Triangular<R>>(
    system: System<R, K>,
    lambda: R,
    reduced: Seq<R>,
    v: int,
    i: int,
)
    requires
        ordered_field::<R>(),
        system.wf(),
        solvable(
            system.blocks,
            system.kernel,
            lambda,
            system.retained(),
            system.linear.cols - system.retained(),
        ),
        reduced.len() == system.retained(),
        forall|j: int|
            0 <= j < system.linear.cols ==> #[trigger] system.scales[j] != R::zero_spec(),
        0 <= i < system.retained(),
        system.product(lambda, reduced)[i] == system.reduced_rhs(lambda)[i],
        0 <= v < system.blocks.blocks@.len(),
        system.blocks.blocks@[v].col <= i < system.blocks.blocks@[v].col
            + system.blocks.blocks@[v].width,
    ensures
        ({
            let step = system.recovered(lambda, reduced);
            let block = system.blocks.blocks@[v];
            descent(system, i) == lambda.times_spec(unscaled(system, step, i)).plus_spec(
                sum(
                    block.width as int,
                    |j: int|
                        plain_at(system.blocks.grams(), v, i - block.col, j).times_spec(
                            unscaled(system, step, block.col + j),
                        ),
                ),
            ).plus_spec(
                sum(
                    system.linear.cols - system.retained(),
                    |p: int|
                        coupling(system.partition, system.edges, system.cross, i, p).times_spec(
                            unscaled(system, step, system.retained() + p),
                        ),
                ),
            )
        }),
{
    let step = system.recovered(lambda, reduced);
    let r = system.retained();
    let m = system.linear.cols - r;
    let grams = system.blocks.grams();
    let block = system.blocks.blocks@[v];
    let zero = R::zero_spec();
    let minus = R::one_spec().negate_spec();
    lemma_recovered(system, lambda, reduced);
    lemma_places_fit(system);
    let across = system.couple(
        Seq::new(m as nat, |i: int| R::zero_spec()),
        reduced,
        true,
        R::one_spec(),
    );
    let whole = system.descent_direction();
    let direction = whole.skip(r);
    let left = Seq::new(m as nat, |p: int| direction[p].minus_spec(across[p]));
    let rest = system.blocks.solved(system.kernel, left, r, lambda);
    let xa = system.blocks.solved(system.kernel, direction, r, lambda);
    let xb = system.blocks.solved(system.kernel, across, r, lambda);
    lemma_blocks_solve(system.blocks, system.kernel, direction, r, lambda);
    lemma_blocks_solve(system.blocks, system.kernel, across, r, lambda);
    let start = Seq::new(r as nat, |i: int| lambda.times_spec(reduced[i]));
    let own = grammed(grams, start, reduced, system.blocks.blocks@.len() as int);
    lemma_gram_product(grams, start, reduced, system.blocks.blocks@.len() as int, v, i);
    lemma_coupling_product(
        system.partition,
        system.edges,
        system.cross,
        own,
        xb,
        false,
        minus,
        i,
    );
    lemma_coupling_product(
        system.partition,
        system.edges,
        system.cross,
        whole.take(r),
        xa,
        false,
        minus,
        i,
    );
    let entry = |p: int| coupling(system.partition, system.edges, system.cross, i, p);
    let fa = |p: int|
        coupling(system.partition, system.edges, system.cross, i, p).times_spec(xa[p]);
    let fb = |p: int|
        coupling(system.partition, system.edges, system.cross, i, p).times_spec(xb[p]);
    let g = |p: int|
        coupling(system.partition, system.edges, system.cross, i, p).times_spec(
            unscaled(system, step, r + p),
        );
    let opposite = |p: int| fb(p).negate_spec();
    assert forall|p: int| 0 <= p < m implies #[trigger] g(p) == fa(p).plus_spec(opposite(p)) by {
        assert(rest[p] == unscaled(system, step, r + p));
        lemma_solved_difference(
            system.blocks,
            system.kernel,
            direction,
            across,
            left,
            r,
            lambda,
            p,
        );
        lemma_times_minus(entry(p), xa[p], xb[p]);
        lemma_plus(fa(p), fb(p), zero);
    }
    lemma_sum_plus(m, fa, opposite, g);
    crate::algebra::lemma_sum_negate(m, fb, opposite);
    let h = |j: int|
        plain_at(grams, v, i - block.col, j).times_spec(reduced[block.col + j]);
    let k = |j: int|
        plain_at(grams, v, i - block.col, j).times_spec(unscaled(system, step, block.col + j));
    assert(grams.blocks[v] == block);
    assert(block.col + block.width <= r);
    assert forall|j: int| 0 <= j < block.width implies #[trigger] h(j) == k(j) by {
        assert(unscaled(system, step, block.col + j) == reduced[block.col + j]);
    }
    lemma_sum_same(block.width as int, h, k);
    assert(unscaled(system, step, i) == reduced[i]);
    let (sa, sb) = (sum(m, fa), sum(m, fb));
    let (x, d) = (own[i], whole[i]);
    lemma_negate(R::one_spec(), sa);
    lemma_negate(R::one_spec(), sb);
    lemma_times(sa, R::one_spec(), zero);
    lemma_times(sb, R::one_spec(), zero);
    assert(x.plus_spec(sb.negate_spec()) == d.plus_spec(sa.negate_spec()));
    lemma_moved_over(x, sb, d, sa);
}

proof fn lemma_moved_over<R: Real>(x: R, b: R, d: R, a: R)
    requires
        ring::<R>(),
        x.plus_spec(b.negate_spec()) == d.plus_spec(a.negate_spec()),
    ensures
        d == x.plus_spec(a.plus_spec(b.negate_spec())),
{
    let zero = R::zero_spec();
    lemma_plus(d, a.negate_spec(), a);
    lemma_plus(a, a, a);
    lemma_plus(d, zero, zero);
    lemma_plus(x, b.negate_spec(), a);
    lemma_plus(a, b.negate_spec(), zero);
}

/// An edge stands for a stored block of the retained side and one of the eliminated side.
pub open spec fn stands_for<R: Real>(model: SchurView<R>, e: int, b: int, k: int) -> bool {
    let edge = model.edges[e];
    &&& 0 <= e < model.edges.len()
    &&& edge.retained_jacobian == b
    &&& edge.eliminated_jacobian == k
    &&& edge.retained == model.linear.blocks[b].col
    &&& edge.eliminated == model.linear.blocks[k].col - model.partition.retained
}

/// Two stored blocks of which the first is of the retained side and the second is not, and that
/// share rows.
pub open spec fn meet<R: Real>(model: SchurView<R>, b: int, k: int) -> bool {
    &&& 0 <= b < model.linear.blocks.len()
    &&& 0 <= k < model.linear.blocks.len()
    &&& model.linear.blocks[b].rows > 0
    &&& aligned(model.linear, b, k)
    &&& model.linear.blocks[b].col < model.partition.retained <= model.linear.blocks[k].col
}

/// Every pair of blocks of the two sides that share rows has an edge, and no two edges stand for
/// the same blocks.
pub open spec fn linked<R: Real>(model: SchurView<R>) -> bool {
    &&& forall|b: int, k: int|
        #[trigger] meet(model, b, k) ==> exists|e: int| #[trigger] stands_for(model, e, b, k)
    &&& forall|e: int, f: int|
        0 <= e < f < model.edges.len() ==> (#[trigger] model.edges[e]).retained_jacobian
            != (#[trigger] model.edges[f]).retained_jacobian
    &&& forall|e: int|
        0 <= e < model.edges.len() ==> (#[trigger] model.edges[e]).retained_jacobian
            < model.linear.blocks.len()
}

proof fn lemma_sides_hold<R: Real>(
    partition: Partition,
    blocks: Seq<BlockView<R>>,
    columns: Seq<usize>,
    n: int,
    i: int,
)
    requires
        partition.sides(blocks, columns, n) is Some,
        0 <= i < n,
    ensures
        columns[i] < partition.retained ==> partition.sides(blocks, columns, n)->0.left == Some(i),
        columns[i] >= partition.retained ==> partition.sides(blocks, columns, n)->0.right == Some(
            i,
        ),
    decreases n,
{
    if i < n - 1 {
        lemma_sides_hold(partition, blocks, columns, n - 1, i);
    }
}

proof fn lemma_sides_bound<R: Real>(
    partition: Partition,
    blocks: Seq<BlockView<R>>,
    columns: Seq<usize>,
    n: int,
)
    requires
        partition.sides(blocks, columns, n) is Some,
        0 <= n,
    ensures
        partition.sides(blocks, columns, n)->0.left matches Some(l) ==> 0 <= l < n,
    decreases n,
{
    if n > 0 {
        lemma_sides_bound(partition, blocks, columns, n - 1);
    }
}

proof fn lemma_rows_of_blocks<R: Real>(
    model: LinearView<R>,
    row: nat,
    residual: Seq<R>,
    blocks: Seq<BlockView<R>>,
    columns: Seq<usize>,
    n: int,
)
    requires
        0 <= n <= blocks.len(),
        row <= usize::MAX,
        forall|k: int| 0 <= k < blocks.len() ==> (#[trigger] blocks[k]).rows == residual.len(),
        residual.len() <= usize::MAX,
    ensures
        ({
            let after = model.with_blocks(row, residual, blocks, columns, n);
            &&& after.blocks.len() == model.blocks.len() + n
            &&& forall|b: int|
                0 <= b < model.blocks.len() ==> #[trigger] after.blocks[b] == model.blocks[b]
            &&& forall|b: int|
                model.blocks.len() <= b < after.blocks.len() ==> {
                    &&& (#[trigger] after.blocks[b]).row == row
                    &&& after.blocks[b].rows == residual.len()
                    &&& after.blocks[b].col == columns[b - model.blocks.len()]
                }
        }),
    decreases n,
{
    if n > 0 {
        lemma_rows_of_blocks(model, row, residual, blocks, columns, n - 1);
        assert(blocks[n - 1].rows == residual.len());
    }
}

/// A model stays linked as rows are added to it.
pub proof fn lemma_edges_link<R: Real>(
    model: SchurView<R>,
    residual: Seq<R>,
    blocks: Seq<BlockView<R>>,
    columns: Seq<usize>,
)
    requires
        linked(model),
        model.extended(residual, blocks, columns) is Ok,
        forall|k: int| 0 <= k < blocks.len() ==> (#[trigger] blocks[k]).rows == residual.len(),
        columns.len() == blocks.len(),
        model.linear.blocks.len() + blocks.len() <= usize::MAX,
        forall|b: int|
            0 <= b < model.linear.blocks.len() ==> (#[trigger] model.linear.blocks[b]).row
                + model.linear.blocks[b].rows <= model.linear.rows,
    ensures
        linked(model.extended(residual, blocks, columns)->Ok_0),
{
    let after = model.extended(residual, blocks, columns)->Ok_0;
    let n = blocks.len() as int;
    let m = model.linear.blocks.len() as int;
    let taller = LinearView {
        rows: model.linear.rows + residual.len(),
        negative_residual: model.linear.negative_residual + Seq::new(
            residual.len(),
            |i: int| residual[i].negate_spec(),
        ),
        ..model.linear
    };
    lemma_rows_of_blocks(taller, model.linear.rows, residual, blocks, columns, n);
    lemma_sides_bound(model.partition, blocks, columns, n);
    assert forall|b: int, k: int| #[trigger] meet(after, b, k) implies exists|e: int| #[trigger]
        stands_for(after, e, b, k) by {
        if b < m && k < m {
            assert(after.linear.blocks[b] == model.linear.blocks[b]);
            assert(after.linear.blocks[k] == model.linear.blocks[k]);
            assert(meet(model, b, k));
            let e = choose|e: int| #[trigger] stands_for(model, e, b, k);
            assert(after.edges[e] == model.edges[e]);
            assert(stands_for(after, e, b, k));
        } else if b >= m && k >= m {
            lemma_sides_hold(model.partition, blocks, columns, n, b - m);
            lemma_sides_hold(model.partition, blocks, columns, n, k - m);
            assert(after.linear.blocks[b].col == columns[b - m]);
            assert(after.linear.blocks[k].col == columns[k - m]);
            assert(stands_for(after, model.edges.len() as int, b, k));
        } else if b < m {
            assert(after.linear.blocks[b] == model.linear.blocks[b]);
            assert(after.linear.blocks[k].row == model.linear.rows);
            assert(false);
        } else {
            assert(after.linear.blocks[k] == model.linear.blocks[k]);
            assert(after.linear.blocks[b].row == model.linear.rows);
            assert(false);
        }
    }
}

/// The preconditioner of the reduced system solves by the damped Gram matrices of the retained
/// side alone.
pub proof fn lemma_preconditioner_solves<R: Real, K: Triangular<R>>(
    system: System<R, K>,
    lambda: R,
    x: Seq<R>,
    v: int,
    row: int,
)
    requires
        ordered_field::<R>(),
        solvable(system.blocks, system.kernel, lambda, 0, system.retained()),
        x.len() == system.retained(),
        0 <= v < system.blocks.blocks@.len(),
        system.blocks.blocks@[v].col < system.retained(),
        0 <= row < system.blocks.blocks@[v].width,
    ensures
        ({
            let block = system.blocks.blocks@[v];
            let y = system.preconditioned(lambda, x);
            &&& y.len() == x.len()
            &&& x[block.col + row] == sum(
                block.width as int,
                |j: int|
                    damped_at(system.blocks.grams(), v, lambda, row, j).times_spec(
                        y[block.col + j],
                    ),
            )
        }),
{
    let block = system.blocks.blocks@[v];
    let y = system.preconditioned(lambda, x);
    lemma_blocks_solve(system.blocks, system.kernel, x, 0, lambda);
    assert(block_row(system.blocks, lambda, v, block.col - 0, y, row) == x[block.col - 0 + row]);
    lemma_sum_same(
        block.width as int,
        |j: int| damped_at(system.blocks.grams(), v, lambda, row, j).times_spec(y[block.col - 0 + j]),
        |j: int| damped_at(system.blocks.grams(), v, lambda, row, j).times_spec(y[block.col + j]),
    );
}

/// The residuals that a solve reports are lengths relative to what they started from: that of
/// what the reduced system leaves to its right-hand side, and that of the gradient that the step
/// leaves to the gradient before it.
pub proof fn lemma_reported_residuals<R: Real, K: Triangular<R> + ConjugateGradient<R>>(
    system: System<R, K>,
    lambda: R,
    reduced: Seq<R>,
    step: Seq<R>,
)
    requires
        ordered_field::<R>(),
        lengths::<R>(),
        placed(system.linear),
        hypot_sum(system.reduced_rhs(lambda), system.reduced_rhs(lambda).len() as int)
            != R::zero_spec(),
        hypot_sum(system.linear.gradient, system.linear.cols as int) != R::zero_spec(),
    ensures
        ({
            let rhs = system.reduced_rhs(lambda);
            let product = system.product(lambda, reduced);
            let left = system.reduced_residual(lambda, reduced).times_spec(
                hypot_sum(rhs, rhs.len() as int),
            );
            let slope = system.original_residual(lambda, step).times_spec(
                hypot_sum(system.linear.gradient, system.linear.cols as int),
            );
            &&& left.times_spec(left) == sum(
                system.retained(),
                |i: int|
                    product[i].minus_spec(rhs[i]).times_spec(product[i].minus_spec(rhs[i])),
            )
            &&& slope.times_spec(slope) == sum(
                system.linear.cols as int,
                |c: int|
                    slope_after(system.linear, system.scales, lambda, step, c).times_spec(
                        slope_after(system.linear, system.scales, lambda, step, c),
                    ),
            )
        }),
{
    let rhs = system.reduced_rhs(lambda);
    let product = system.product(lambda, reduced);
    let residual = Seq::new(
        system.partition.retained as nat,
        |i: int| product[i].minus_spec(rhs[i]),
    );
    let n = system.retained();
    let cols = system.linear.cols as int;
    let values = system.linear.normal_residual(step, system.scales, lambda);
    let before = hypot_sum(rhs, rhs.len() as int);
    let gradient = hypot_sum(system.linear.gradient, cols);
    lemma_length(residual, n);
    lemma_length(values, cols);
    assert(ordered_at(before, R::zero_spec(), before));
    assert(ordered_at(gradient, R::zero_spec(), gradient));
    assert(ordered_at(hypot_sum(residual, n), before, before));
    assert(ordered_at(hypot_sum(values, cols), gradient, gradient));
    lemma_sum_same(
        n,
        |i: int| residual[i].times_spec(residual[i]),
        |i: int| product[i].minus_spec(rhs[i]).times_spec(product[i].minus_spec(rhs[i])),
    );
    let f = |c: int| values[c].times_spec(values[c]);
    let g = |c: int|
        slope_after(system.linear, system.scales, lambda, step, c).times_spec(
            slope_after(system.linear, system.scales, lambda, step, c),
        );
    assert forall|c: int| 0 <= c < cols implies #[trigger] f(c) == g(c) by {
        lemma_residual_is_slope(system.linear, step, system.scales, lambda, c);
    }
    lemma_sum_same(cols, f, g);
}

/// A partition is usable where both sides are made of whole blocks: each side holds some number of
/// blocks of its width, and both together hold all coordinates.
pub proof fn lemma_whole_blocks(partition: Partition, dimension: int)
    requires
        0 <= dimension,
    ensures
        partition.divides(dimension) <==> {
            &&& partition.retained_width > 0
            &&& partition.eliminated_width > 0
            &&& partition.retained <= dimension
            &&& whole(partition.retained as int, partition.retained_width as int)
            &&& whole(dimension - partition.retained, partition.eliminated_width as int)
        },
{
    if partition.retained_width > 0 && partition.eliminated_width > 0 {
        lemma_whole(partition.retained as int, partition.retained_width as int);
        lemma_whole(dimension - partition.retained, partition.eliminated_width as int);
    }
}

/// A number of coordinates that is some number of blocks wide.
pub open spec fn whole(value: int, width: int) -> bool {
    exists|count: int| value == #[trigger] blocks_wide(count, width)
}

/// The coordinates of a number of blocks.
pub open spec fn blocks_wide(count: int, width: int) -> int {
    count * width
}

proof fn lemma_whole(value: int, width: int)
    requires
        width > 0,
    ensures
        is_multiple(value, width) <==> whole(value, width),
{
    vstd::arithmetic::div_mod::lemma_fundamental_div_mod(value, width);
    if value % width == 0 {
        assert(value == blocks_wide(value / width, width)) by (nonlinear_arith)
            requires
                value == width * (value / width) + value % width,
                value % width == 0,
                blocks_wide(value / width, width) == (value / width) * width,
        ;
    }
    if whole(value, width) {
        let count = choose|count: int| value == #[trigger] blocks_wide(count, width);
        vstd::arithmetic::div_mod::lemma_fundamental_div_mod_converse(value, width, count, 0);
    }
}

} // verus!
