//! What priors compute, in terms of the matrix they are made of.
//!
//! Stated over scalars with the laws of a ring.
use crate::algebra::{
    lemma_plus, lemma_sum_plus, lemma_sum_same, lemma_sum_window, lemma_sum_zero, lemma_times,
    lemma_times_zero, ring, sum,
};
use crate::key::RawKey;
use crate::linearization::lemma_entry_index;
use crate::priors::{charted, moved_row, prior_squares, PriorView, Priors};
use crate::scalar::Real;
use crate::states::{chosen, AnchorView};
use vstd::prelude::*;

verus! {

/// An entry of the matrix of a prior.
pub open spec fn weight<R>(prior: PriorView<R>, row: int, col: int) -> R {
    prior.a[col * prior.rows + row]
}

/// Whether a movement covers a column of its prior.
pub open spec fn covers<R>(anchor: AnchorView<R>, c: int) -> bool {
    anchor.column <= c < anchor.column + anchor.delta.len()
}

/// Whether one of the first `n` movements is meant for a prior and covers one of its columns.
pub open spec fn covered<R>(deltas: Seq<AnchorView<R>>, prior: RawKey, n: int, c: int) -> bool {
    exists|k: int|
        0 <= k < n && (#[trigger] deltas[k]).prior == prior && covers(deltas[k], c)
}

/// All movements that are meant for a prior laid out over its columns: each at its own ones, and
/// zero where there is none.
pub open spec fn laid_out<R: Real>(
    deltas: Seq<AnchorView<R>>,
    prior: RawKey,
    movement: Seq<R>,
) -> bool {
    &&& forall|k: int, i: int|
        0 <= k < deltas.len() && deltas[k].prior == prior && 0 <= i < deltas[k].delta.len()
            ==> #[trigger] deltas[k].delta[i] == movement[deltas[k].column + i]
    &&& forall|c: int|
        0 <= c < movement.len() && !#[trigger] covered(deltas, prior, deltas.len() as int, c)
            ==> movement[c] == R::zero_spec()
}

/// No two movements that are meant for one prior share a column.
pub open spec fn disjoint<R>(deltas: Seq<AnchorView<R>>) -> bool {
    forall|k: int, l: int, c: int|
        0 <= k < deltas.len() && 0 <= l < deltas.len() && k != l && deltas[k].prior
            == deltas[l].prior ==> !(#[trigger] covers(deltas[k], c) && #[trigger] covers(
            deltas[l],
            c,
        ))
}

proof fn lemma_moved_row<R: Real>(prior: PriorView<R>, anchor: AnchorView<R>, row: int, n: int)
    requires
        ring::<R>(),
    ensures
        moved_row(prior, anchor, row, n) == prior.residual[row].plus_spec(
            sum(
                n,
                |k: int| weight(prior, row, anchor.column + k).times_spec(anchor.delta[k]),
            ),
        ),
    decreases n,
{
    let term = |k: int| weight(prior, row, anchor.column + k).times_spec(anchor.delta[k]);
    if n <= 0 {
        lemma_plus(prior.residual[row], R::zero_spec(), R::zero_spec());
    } else {
        lemma_moved_row(prior, anchor, row, n - 1);
        assert(anchor.column + n - 1 == anchor.column + (n - 1));
        lemma_plus(prior.residual[row], sum(n - 1, term), term(n - 1));
    }
}

/// A prior after one movement: its residual is raised by its matrix times the movement, laid at
/// the columns of the variable that moved.
pub proof fn lemma_one_movement<R: Real>(
    prior: PriorView<R>,
    anchor: AnchorView<R>,
    derivatives: bool,
    row: int,
)
    requires
        ring::<R>(),
        prior.fits(anchor, derivatives),
        0 <= row < prior.rows,
    ensures
        prior.with_anchor(anchor, derivatives).residual[row] == prior.residual[row].plus_spec(
            sum(
                prior.cols as int,
                |c: int|
                    weight(prior, row, c).times_spec(
                        if covers(anchor, c) {
                            anchor.delta[c - anchor.column]
                        } else {
                            R::zero_spec()
                        },
                    ),
            ),
        ),
{
    let d = anchor.delta.len() as int;
    let f = |c: int|
        weight(prior, row, c).times_spec(
            if covers(anchor, c) {
                anchor.delta[c - anchor.column]
            } else {
                R::zero_spec()
            },
        );
    let g = |k: int| weight(prior, row, anchor.column + k).times_spec(anchor.delta[k]);
    lemma_moved_row(prior, anchor, row, d);
    assert forall|c: int|
        0 <= c < prior.cols && !(anchor.column <= c < anchor.column + d) implies #[trigger] f(c)
        == R::zero_spec() by {
        lemma_times_zero(weight(prior, row, c));
    }
    assert forall|k: int| 0 <= k < d implies #[trigger] g(k) == f(anchor.column + k) by {
        assert(covers(anchor, anchor.column + k));
    }
    lemma_sum_window(prior.cols as int, anchor.column as int, d, f, g);
}

/// The Jacobian is the derivative of the residual: a movement by a column of the chart raises
/// the residual by the column of the Jacobian that belongs to it. Other columns stay.
pub proof fn lemma_jacobian_is_derivative<R: Real>(
    prior: PriorView<R>,
    anchor: AnchorView<R>,
    j: int,
    row: int,
)
    requires
        ring::<R>(),
        prior.wf(),
        prior.fits(anchor, true),
        0 <= j < anchor.delta.len(),
        0 <= row < prior.rows,
    ensures
        ({
            let d = anchor.delta.len();
            let along = AnchorView {
                delta: Seq::new(d, |k: int| anchor.chart[j * d + k]),
                ..anchor
            };
            let after = prior.with_anchor(anchor, true);
            &&& after.jacobian.len() == prior.jacobian.len()
            &&& prior.with_anchor(along, false).residual[row] == prior.residual[row].plus_spec(
                after.jacobian[(anchor.column + j) * prior.rows + row],
            )
            &&& forall|c: int|
                0 <= c < prior.cols && !covers(anchor, c) ==> #[trigger] after.jacobian[c
                    * prior.rows + row] == prior.jacobian[c * prior.rows + row]
        }),
{
    let d = anchor.delta.len() as int;
    let rows = prior.rows as int;
    let along = AnchorView {
        delta: Seq::new(anchor.delta.len(), |k: int| anchor.chart[j * anchor.delta.len() + k]),
        ..anchor
    };
    let after = prior.with_anchor(anchor, true);
    lemma_moved_row(prior, along, row, d);
    lemma_jacobian_column(prior, anchor, j, row);
    lemma_sum_same(
        d,
        |k: int| weight(prior, row, anchor.column + k).times_spec(along.delta[k]),
        |k: int| weight(prior, row, anchor.column + k).times_spec(anchor.chart[j * d + k]),
    );
    assert forall|c: int| 0 <= c < prior.cols && !covers(anchor, c) implies #[trigger]
        after.jacobian[c * rows + row] == prior.jacobian[c * rows + row] by {
        lemma_place(prior, anchor, c, row);
    }
}

/// Where an entry of the Jacobian stands.
proof fn lemma_place<R>(prior: PriorView<R>, anchor: AnchorView<R>, c: int, row: int)
    requires
        0 <= c < prior.cols,
        0 <= row < prior.rows,
    ensures
        0 <= c * prior.rows + row < prior.rows * prior.cols,
        (c * prior.rows + row) % prior.rows as int == row,
        (c * prior.rows + row) / prior.rows as int == c,
        covers(anchor, c) <==> anchor.column * prior.rows <= c * prior.rows + row < (anchor.column
            + anchor.delta.len()) * prior.rows,
{
    let rows = prior.rows as int;
    lemma_entry_index(prior.rows, prior.cols, row, c);
    vstd::arithmetic::div_mod::lemma_fundamental_div_mod_converse(c * rows + row, rows, c, row);
    let end = anchor.column + anchor.delta.len();
    assert(c >= anchor.column ==> c * rows >= anchor.column * rows) by (nonlinear_arith)
        requires
            rows > 0,
    ;
    assert(c < anchor.column ==> c * rows + rows <= anchor.column * rows) by (nonlinear_arith)
        requires
            rows > 0,
    ;
    assert(c < end ==> c * rows + rows <= end * rows) by (nonlinear_arith)
        requires
            rows > 0,
    ;
    assert(c >= end ==> c * rows >= end * rows) by (nonlinear_arith)
        requires
            rows > 0,
    ;
}

proof fn lemma_charted<R: Real>(
    prior: PriorView<R>,
    anchor: AnchorView<R>,
    row: int,
    j: int,
    n: int,
)
    ensures
        charted(prior, anchor, row, j, n) == sum(
            n,
            |k: int|
                weight(prior, row, anchor.column + k).times_spec(
                    anchor.chart[j * anchor.delta.len() + k],
                ),
        ),
    decreases n,
{
    if n > 0 {
        lemma_charted(prior, anchor, row, j, n - 1);
        assert(anchor.column + n - 1 == anchor.column + (n - 1));
        assert(j * anchor.delta.len() + n - 1 == j * anchor.delta.len() + (n - 1));
    }
}

/// The Jacobian of a prior after one movement: at the columns of the variable that moved it is
/// the matrix of the prior at these columns, times the chart.
pub proof fn lemma_jacobian_column<R: Real>(
    prior: PriorView<R>,
    anchor: AnchorView<R>,
    j: int,
    row: int,
)
    requires
        prior.wf(),
        prior.fits(anchor, true),
        0 <= j < anchor.delta.len(),
        0 <= row < prior.rows,
    ensures
        prior.with_anchor(anchor, true).jacobian[(anchor.column + j) * prior.rows + row] == sum(
            anchor.delta.len() as int,
            |k: int|
                weight(prior, row, anchor.column + k).times_spec(
                    anchor.chart[j * anchor.delta.len() + k],
                ),
        ),
{
    lemma_place(prior, anchor, anchor.column + j, row);
    lemma_charted(prior, anchor, row, j, anchor.delta.len() as int);
}

/// Where a movement is meant to go.
proof fn lemma_goes_to<R: Real>(priors: Priors<R>, prior: RawKey, i: int)
    requires
        priors.wf(),
        0 <= i < priors.views().len(),
    ensures
        priors.entries.lookup(prior) == Ok::<int, crate::error::KeyError>(i) <==> prior
            == priors.id(i),
        priors.entries.lookup(prior) matches Ok(k) ==> 0 <= k < priors.views().len(),
{
    priors.entries.lemma_live_position(priors.entries.keys@[i], i);
    if let Ok(k) = priors.entries.lookup(prior) {
        assert(priors.entries.keys@.contains(prior.local));
        assert(priors.entries.keys@[k] == prior.local);
    }
}

proof fn lemma_movements_upto<R: Real>(
    priors: Priors<R>,
    views: Seq<PriorView<R>>,
    deltas: Seq<AnchorView<R>>,
    derivatives: bool,
    n: int,
    i: int,
    movement: Seq<R>,
    row: int,
)
    requires
        ring::<R>(),
        priors.wf(),
        views.len() == priors.views().len(),
        0 <= i < views.len(),
        views[i].wf(),
        0 <= n <= deltas.len(),
        priors.moved_views(views, deltas, derivatives, n) is Ok,
        movement.len() == views[i].cols,
        laid_out(deltas, priors.id(i), movement),
        disjoint(deltas),
        0 <= row < views[i].rows,
    ensures
        ({
            let after = priors.moved_views(views, deltas, derivatives, n)->Ok_0;
            &&& after.len() == views.len()
            &&& after[i].a == views[i].a
            &&& after[i].b == views[i].b
            &&& after[i].blocks == views[i].blocks
            &&& after[i].rows == views[i].rows
            &&& after[i].cols == views[i].cols
            &&& after[i].wf()
            &&& after[i].residual[row] == views[i].residual[row].plus_spec(
                sum(
                    views[i].cols as int,
                    |c: int|
                        weight(views[i], row, c).times_spec(
                            if covered(deltas, priors.id(i), n, c) {
                                movement[c]
                            } else {
                                R::zero_spec()
                            },
                        ),
                ),
            )
        }),
    decreases n,
{
    let cols = views[i].cols as int;
    let zero = R::zero_spec();
    let key = priors.id(i);
    let start = views[i].residual[row];
    let all = |c: int|
        weight(views[i], row, c).times_spec(
            if covered(deltas, key, n, c) {
                movement[c]
            } else {
                zero
            },
        );
    if n <= 0 {
        assert forall|c: int| 0 <= c < cols implies #[trigger] all(c) == zero by {
            lemma_times_zero(weight(views[i], row, c));
        }
        lemma_sum_zero(cols, all);
        lemma_plus(start, zero, zero);
    } else {
        lemma_movements_upto(priors, views, deltas, derivatives, n - 1, i, movement, row);
        let before = priors.moved_views(views, deltas, derivatives, n - 1)->Ok_0;
        let anchor = deltas[n - 1];
        let first = |c: int|
            weight(views[i], row, c).times_spec(
                if covered(deltas, key, n - 1, c) {
                    movement[c]
                } else {
                    zero
                },
            );
        lemma_goes_to(priors, anchor.prior, i);
        if anchor.prior == key {
            let last = |c: int|
                weight(before[i], row, c).times_spec(
                    if covers(anchor, c) {
                        anchor.delta[c - anchor.column]
                    } else {
                        zero
                    },
                );
            lemma_one_movement(before[i], anchor, derivatives, row);
            assert forall|c: int| 0 <= c < cols implies #[trigger] all(c) == first(c).plus_spec(
                last(c),
            ) by {
                let w = weight(views[i], row, c);
                lemma_times_zero(w);
                lemma_plus(w.times_spec(movement[c]), zero, zero);
                lemma_plus(zero, zero, zero);
                if covers(anchor, c) {
                    assert(deltas[n - 1].prior == key && covers(deltas[n - 1], c));
                    assert(deltas[n - 1].delta[c - anchor.column] == movement[anchor.column + (c
                        - anchor.column)]);
                    if covered(deltas, key, n - 1, c) {
                        let k = choose|k: int|
                            0 <= k < n - 1 && (#[trigger] deltas[k]).prior == key && covers(
                                deltas[k],
                                c,
                            );
                        assert(covers(deltas[k], c) && covers(deltas[n - 1], c));
                    }
                } else {
                    if covered(deltas, key, n, c) {
                        let k = choose|k: int|
                            0 <= k < n && (#[trigger] deltas[k]).prior == key && covers(
                                deltas[k],
                                c,
                            );
                        assert(k < n - 1);
                    }
                    assert(covered(deltas, key, n, c) == covered(deltas, key, n - 1, c)) by {
                        if covered(deltas, key, n - 1, c) {
                            let k = choose|k: int|
                                0 <= k < n - 1 && (#[trigger] deltas[k]).prior == key && covers(
                                    deltas[k],
                                    c,
                                );
                            assert(0 <= k < n);
                        }
                    }
                }
            }
            lemma_sum_plus(cols, first, last, all);
            lemma_plus(start, sum(cols, first), sum(cols, last));
        } else {
            assert forall|c: int| 0 <= c < cols implies #[trigger] all(c) == first(c) by {
                if covered(deltas, key, n, c) {
                    let k = choose|k: int|
                        0 <= k < n && (#[trigger] deltas[k]).prior == key && covers(deltas[k], c);
                    assert(k < n - 1);
                }
                if covered(deltas, key, n - 1, c) {
                    let k = choose|k: int|
                        0 <= k < n - 1 && (#[trigger] deltas[k]).prior == key && covers(
                            deltas[k],
                            c,
                        );
                    assert(0 <= k < n);
                }
            }
            lemma_sum_same(cols, all, first);
        }
    }
}

/// The residual of a prior, evaluated at some movements, is `a * movement + b`, where the
/// movement of each variable stands at its own columns.
pub proof fn lemma_prior_residual<R: Real>(
    priors: Priors<R>,
    deltas: Seq<AnchorView<R>>,
    derivatives: bool,
    selected: Option<Set<RawKey>>,
    i: int,
    movement: Seq<R>,
)
    requires
        ring::<R>(),
        priors.wf(),
        priors.updated(deltas, derivatives, selected) is Ok,
        0 <= i < priors.views().len(),
        chosen(selected, priors.id(i)),
        movement.len() == priors.views()[i].cols,
        laid_out(deltas, priors.id(i), movement),
        disjoint(deltas),
    ensures
        ({
            let prior = priors.views()[i];
            let after = priors.updated(deltas, derivatives, selected)->Ok_0[i];
            &&& after.residual.len() == prior.rows
            &&& forall|row: int|
                0 <= row < prior.rows ==> #[trigger] after.residual[row] == prior.b[row].plus_spec(
                    sum(
                        prior.cols as int,
                        |c: int| prior.a[c * prior.rows + row].times_spec(movement[c]),
                    ),
                )
        }),
{
    let prior = priors.views()[i];
    let n = deltas.len() as int;
    let views = priors.reset_views(selected);
    let after = priors.updated(deltas, derivatives, selected)->Ok_0[i];
    assert(prior == priors.entries.values@[i]@);
    assert(views[i] == prior.reset());
    assert forall|row: int| 0 <= row < prior.rows implies #[trigger] after.residual[row]
        == prior.b[row].plus_spec(
        sum(
            prior.cols as int,
            |c: int| prior.a[c * prior.rows + row].times_spec(movement[c]),
        ),
    ) by {
        lemma_movements_upto(priors, views, deltas, derivatives, n, i, movement, row);
        let f = |c: int|
            weight(views[i], row, c).times_spec(
                if covered(deltas, priors.id(i), n, c) {
                    movement[c]
                } else {
                    R::zero_spec()
                },
            );
        let g = |c: int| prior.a[c * prior.rows + row].times_spec(movement[c]);
        assert forall|c: int| 0 <= c < prior.cols implies #[trigger] f(c) == g(c) by {
            assert(covered(deltas, priors.id(i), n, c) || movement[c] == R::zero_spec());
        }
        lemma_sum_same(prior.cols as int, f, g);
    }
    if prior.rows > 0 {
        lemma_movements_upto(priors, views, deltas, derivatives, n, i, movement, 0);
    } else {
        lemma_lengths(priors, views, deltas, derivatives, n, i);
    }
}

proof fn lemma_lengths<R: Real>(
    priors: Priors<R>,
    views: Seq<PriorView<R>>,
    deltas: Seq<AnchorView<R>>,
    derivatives: bool,
    n: int,
    i: int,
)
    requires
        priors.wf(),
        views.len() == priors.views().len(),
        0 <= i < views.len(),
        views[i].wf(),
        0 <= n <= deltas.len(),
        priors.moved_views(views, deltas, derivatives, n) is Ok,
    ensures
        ({
            let after = priors.moved_views(views, deltas, derivatives, n)->Ok_0;
            &&& after.len() == views.len()
            &&& after[i].a == views[i].a
            &&& after[i].blocks == views[i].blocks
            &&& after[i].rows == views[i].rows
            &&& after[i].cols == views[i].cols
            &&& after[i].wf()
        }),
    decreases n,
{
    if n > 0 {
        lemma_lengths(priors, views, deltas, derivatives, n - 1, i);
        lemma_goes_to(priors, deltas[n - 1].prior, i);
    }
}

proof fn lemma_later_movements<R: Real>(
    priors: Priors<R>,
    views: Seq<PriorView<R>>,
    deltas: Seq<AnchorView<R>>,
    n: int,
    i: int,
    k: int,
    j: int,
    row: int,
)
    requires
        ring::<R>(),
        priors.wf(),
        views.len() == priors.views().len(),
        0 <= i < views.len(),
        views[i].wf(),
        0 <= k < n <= deltas.len(),
        priors.moved_views(views, deltas, true, n) is Ok,
        disjoint(deltas),
        deltas[k].prior == priors.id(i),
        0 <= j < deltas[k].delta.len(),
        0 <= row < views[i].rows,
    ensures
        deltas[k].column + deltas[k].delta.len() <= views[i].cols,
        priors.moved_views(views, deltas, true, n)->Ok_0[i].jacobian[(deltas[k].column + j)
            * views[i].rows + row] == sum(
            deltas[k].delta.len() as int,
            |l: int|
                weight(views[i], row, deltas[k].column + l).times_spec(
                    deltas[k].chart[j * deltas[k].delta.len() + l],
                ),
        ),
    decreases n,
{
    let anchor = deltas[n - 1];
    let before = priors.moved_views(views, deltas, true, n - 1)->Ok_0;
    lemma_lengths(priors, views, deltas, true, n - 1, i);
    lemma_goes_to(priors, anchor.prior, i);
    if k == n - 1 {
        lemma_jacobian_column(before[i], anchor, j, row);
        lemma_sum_same(
            anchor.delta.len() as int,
            |l: int|
                weight(before[i], row, anchor.column + l).times_spec(
                    anchor.chart[j * anchor.delta.len() + l],
                ),
            |l: int|
                weight(views[i], row, deltas[k].column + l).times_spec(
                    deltas[k].chart[j * deltas[k].delta.len() + l],
                ),
        );
    } else {
        lemma_later_movements(priors, views, deltas, n - 1, i, k, j, row);
        if anchor.prior == priors.id(i) {
            let c = deltas[k].column + j;
            assert(covers(deltas[k], c));
            assert(!covers(deltas[n - 1], c));
            lemma_place(before[i], anchor, c, row);
        }
    }
}

/// The share of the Jacobian that a prior emits for a variable is the matrix of the prior at the
/// columns of that variable, times the chart of its movement.
pub proof fn lemma_prior_jacobian<R: Real>(
    priors: Priors<R>,
    deltas: Seq<AnchorView<R>>,
    selected: Option<Set<RawKey>>,
    i: int,
    block: int,
    k: int,
    j: int,
    row: int,
)
    requires
        ring::<R>(),
        priors.wf(),
        priors.updated(deltas, true, selected) is Ok,
        0 <= i < priors.views().len(),
        disjoint(deltas),
        0 <= k < deltas.len(),
        deltas[k].prior == priors.id(i),
        0 <= block < priors.views()[i].blocks.len(),
        priors.views()[i].blocks[block].start == deltas[k].column,
        priors.views()[i].blocks[block].len == deltas[k].delta.len(),
        0 <= j < deltas[k].delta.len(),
        0 <= row < priors.views()[i].rows,
    ensures
        ({
            let prior = priors.views()[i];
            let share = priors.updated(deltas, true, selected)->Ok_0[i].block(block);
            let start = prior.blocks[block].start;
            &&& share.variable == prior.blocks[block].id
            &&& share.rows == prior.rows
            &&& share.cols == prior.blocks[block].len
            &&& share.entry(row, j) == sum(
                deltas[k].delta.len() as int,
                |l: int|
                    prior.a[(start + l) * prior.rows + row].times_spec(
                        deltas[k].chart[j * deltas[k].delta.len() + l],
                    ),
            )
        }),
{
    let prior = priors.views()[i];
    let views = priors.reset_views(selected);
    let n = deltas.len() as int;
    assert(prior == priors.entries.values@[i]@);
    assert(views[i].a == prior.a && views[i].rows == prior.rows && views[i].cols == prior.cols);
    assert(views[i].wf());
    lemma_lengths(priors, views, deltas, true, n, i);
    lemma_later_movements(priors, views, deltas, n, i, k, j, row);
    let after = priors.updated(deltas, true, selected)->Ok_0[i];
    let start = prior.blocks[block].start as int;
    let len = prior.blocks[block].len as int;
    let rows = prior.rows as int;
    lemma_place(prior, deltas[k], start + j, row);
    lemma_entry_index(prior.rows, len as nat, row, j);
    assert(start * rows + (j * rows + row) == (start + j) * rows + row) by (nonlinear_arith);
    assert(start * rows + len * rows == (start + len) * rows) by (nonlinear_arith);
    assert((start + len) * rows <= rows * prior.cols) by (nonlinear_arith)
        requires
            start + len <= prior.cols,
            rows >= 0,
    ;
    assert(0 <= start * rows) by (nonlinear_arith)
        requires
            start >= 0,
            rows >= 0,
    ;
    assert(len * rows == rows * len) by (nonlinear_arith);
    assert(after.block(block).entry(row, j) == after.jacobian[(start + j) * rows + row]);
    lemma_sum_same(
        deltas[k].delta.len() as int,
        |l: int|
            weight(views[i], row, deltas[k].column + l).times_spec(
                deltas[k].chart[j * deltas[k].delta.len() + l],
            ),
        |l: int|
            prior.a[(prior.blocks[block].start + l) * prior.rows + row].times_spec(
                deltas[k].chart[j * deltas[k].delta.len() + l],
            ),
    );
}

proof fn lemma_half_squares<R: Real>(prior: PriorView<R>, total: R, n: int)
    requires
        ring::<R>(),
    ensures
        prior.half_squares(total, n) == total.plus_spec(
            sum(
                n,
                |row: int|
                    R::ratio_spec(1, 2).times_spec(
                        prior.residual[row].times_spec(prior.residual[row]),
                    ),
            ),
        ),
    decreases n,
{
    let term = |row: int|
        R::ratio_spec(1, 2).times_spec(prior.residual[row].times_spec(prior.residual[row]));
    if n <= 0 {
        lemma_plus(total, R::zero_spec(), R::zero_spec());
    } else {
        lemma_half_squares(prior, total, n - 1);
        lemma_plus(total, sum(n - 1, term), term(n - 1));
        lemma_times(R::ratio_spec(1, 2), prior.residual[n - 1], prior.residual[n - 1]);
    }
}

/// The cost of priors is half the sum of the squares of all their residual coordinates.
pub proof fn lemma_prior_cost<R: Real>(views: Seq<PriorView<R>>, n: int)
    requires
        ring::<R>(),
        n <= views.len(),
    ensures
        prior_squares(views, n) == sum(
            n,
            |i: int|
                sum(
                    views[i].rows as int,
                    |row: int|
                        R::ratio_spec(1, 2).times_spec(
                            views[i].residual[row].times_spec(views[i].residual[row]),
                        ),
                ),
        ),
    decreases n,
{
    if n > 0 {
        lemma_prior_cost(views, n - 1);
        lemma_half_squares(views[n - 1], prior_squares(views, n - 1), views[n - 1].rows as int);
    }
}

} // verus!
