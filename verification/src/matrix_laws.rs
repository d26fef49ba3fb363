//! What linear models compute, in terms of the matrix that their blocks make up.
//!
//! Everything here is stated over scalars with the laws of a ring or of an ordered field.
use crate::algebra::{
    lemma_negate, lemma_order, lemma_plus, lemma_plus_pairs, lemma_small_ratios, lemma_sum_plus,
    lemma_sum_same, lemma_sum_swap, lemma_sum_times, lemma_sum_window, lemma_sum_zero,
    lemma_times, lemma_times_zero, ordered_field, ring, sum,
};
use crate::information::{
    aligned, information_of, lemma_information_dimension, stored, with_aligned,
};
use crate::linear_model::{
    blocks_fit, col_dot, col_product, column_hypot, column_norm, gradient_dot,
    minus_half_squares, minus_products, row_dot, row_product, LinearView, RowBlock,
};
use crate::linearization::{lemma_entry_index, BlockView};
use crate::normal::{dot, panel_spec, slope, NormalView, PanelView};
use crate::scalar::Real;
use vstd::prelude::*;

verus! {

/// What a block that starts at the given row and column of a matrix has at a place of it: a
/// coefficient, or zero where the place lies outside the block. Coefficients are stored column
/// by column, from `start` on.
pub open spec fn spot<R: Real>(
    values: Seq<R>,
    start: int,
    row: int,
    col: int,
    rows: int,
    cols: int,
    r: int,
    c: int,
) -> R {
    if row <= r < row + rows && col <= c < col + cols {
        values[start + (c - col) * rows + (r - row)]
    } else {
        R::zero_spec()
    }
}

/// What block `b` of a linear model has at a place of the whole matrix.
pub open spec fn stored_at<R: Real>(linear: LinearView<R>, b: int, r: int, c: int) -> R {
    let block = linear.blocks[b];
    spot(
        linear.values,
        block.start as int,
        block.row as int,
        block.col as int,
        block.rows as int,
        block.cols as int,
        r,
        c,
    )
}

/// The matrix that the first `n` blocks of a linear model make up: coefficients at one place add
/// up.
pub open spec fn dense<R: Real>(linear: LinearView<R>, n: int, r: int, c: int) -> R {
    sum(n, |b: int| stored_at(linear, b, r, c))
}

/// The Jacobian of a linear model.
pub open spec fn jacobian<R: Real>(linear: LinearView<R>, r: int, c: int) -> R {
    dense(linear, linear.blocks.len() as int, r, c)
}

/// The blocks of a model lie within its rows, columns and coefficients.
pub open spec fn placed<R>(linear: LinearView<R>) -> bool {
    &&& blocks_fit(
        linear.rows as int,
        linear.cols as int,
        linear.blocks,
        linear.values.len() as int,
    )
    &&& linear.negative_residual.len() == linear.rows
    &&& linear.gradient.len() == linear.cols
}

proof fn lemma_row_dot<R: Real>(
    block: RowBlock,
    values: Seq<R>,
    x: Seq<R>,
    i: int,
    start: R,
    n: int,
)
    requires
        ring::<R>(),
    ensures
        row_dot(block, values, x, i, start, n) == start.plus_spec(
            sum(
                n,
                |k: int|
                    block.entry(values, i - block.row, k).times_spec(x[block.col + k]),
            ),
        ),
    decreases n,
{
    let term = |k: int| block.entry(values, i - block.row, k).times_spec(x[block.col + k]);
    if n <= 0 {
        lemma_plus(start, start, start);
    } else {
        lemma_row_dot(block, values, x, i, start, n - 1);
        lemma_plus(start, sum(n - 1, term), term(n - 1));
    }
}

proof fn lemma_col_dot<R: Real>(block: RowBlock, values: Seq<R>, y: Seq<R>, j: int, n: int)
    ensures
        col_dot(block, values, y, j, n) == sum(
            n,
            |k: int| block.entry(values, k, j - block.col).times_spec(y[block.row + k]),
        ),
    decreases n,
{
    if n > 0 {
        lemma_col_dot(block, values, y, j, n - 1);
    }
}

proof fn lemma_row_product<R: Real>(linear: LinearView<R>, x: Seq<R>, r: int, n: int)
    requires
        ring::<R>(),
        placed(linear),
        0 <= r < linear.rows,
        n <= linear.blocks.len(),
    ensures
        row_product(linear.blocks, linear.values, x, r, n) == sum(
            linear.cols as int,
            |c: int| dense(linear, n, r, c).times_spec(x[c]),
        ),
    decreases n,
{
    let cols = linear.cols as int;
    let all = |c: int| dense(linear, n, r, c).times_spec(x[c]);
    if n <= 0 {
        assert forall|c: int| 0 <= c < cols implies #[trigger] all(c) == R::zero_spec() by {
            lemma_times_zero(x[c]);
        }
        lemma_sum_zero(cols, all);
    } else {
        lemma_row_product(linear, x, r, n - 1);
        let block = linear.blocks[n - 1];
        let before = |c: int| dense(linear, n - 1, r, c).times_spec(x[c]);
        let last = |c: int| stored_at(linear, n - 1, r, c).times_spec(x[c]);
        assert forall|c: int| 0 <= c < cols implies #[trigger] all(c) == before(c).plus_spec(
            last(c),
        ) by {
            let column = |b: int| stored_at(linear, b, r, c);
            assert(sum(n, column) == sum(n - 1, column).plus_spec(column(n - 1)));
            lemma_times(dense(linear, n - 1, r, c), stored_at(linear, n - 1, r, c), x[c]);
        }
        lemma_sum_plus(cols, before, last, all);
        let start = row_product(linear.blocks, linear.values, x, r, n - 1);
        if block.has_row(r) {
            lemma_row_dot(block, linear.values, x, r, start, block.cols as int);
            let term = |k: int|
                block.entry(linear.values, r - block.row, k).times_spec(x[block.col + k]);
            assert forall|c: int|
                0 <= c < cols && !(block.col <= c < block.col + block.cols) implies #[trigger] last(c)
                == R::zero_spec() by {
                lemma_times_zero(x[c]);
            }
            assert forall|k: int| 0 <= k < block.cols implies #[trigger] term(k) == last(
                block.col + k,
            ) by {}
            lemma_sum_window(cols, block.col as int, block.cols as int, last, term);
        } else {
            assert forall|c: int| 0 <= c < cols implies #[trigger] last(c) == R::zero_spec() by {
                lemma_times_zero(x[c]);
            }
            lemma_sum_zero(cols, last);
            lemma_plus(start, start, start);
        }
    }
}

proof fn lemma_col_product<R: Real>(linear: LinearView<R>, y: Seq<R>, c: int, n: int)
    requires
        ring::<R>(),
        placed(linear),
        0 <= c < linear.cols,
        n <= linear.blocks.len(),
    ensures
        col_product(linear.blocks, linear.values, y, c, n) == sum(
            linear.rows as int,
            |r: int| dense(linear, n, r, c).times_spec(y[r]),
        ),
    decreases n,
{
    let rows = linear.rows as int;
    let all = |r: int| dense(linear, n, r, c).times_spec(y[r]);
    if n <= 0 {
        assert forall|r: int| 0 <= r < rows implies #[trigger] all(r) == R::zero_spec() by {
            lemma_times_zero(y[r]);
        }
        lemma_sum_zero(rows, all);
    } else {
        lemma_col_product(linear, y, c, n - 1);
        let block = linear.blocks[n - 1];
        let before = |r: int| dense(linear, n - 1, r, c).times_spec(y[r]);
        let last = |r: int| stored_at(linear, n - 1, r, c).times_spec(y[r]);
        assert forall|r: int| 0 <= r < rows implies #[trigger] all(r) == before(r).plus_spec(
            last(r),
        ) by {
            let row = |b: int| stored_at(linear, b, r, c);
            assert(sum(n, row) == sum(n - 1, row).plus_spec(row(n - 1)));
            lemma_times(dense(linear, n - 1, r, c), stored_at(linear, n - 1, r, c), y[r]);
        }
        lemma_sum_plus(rows, before, last, all);
        let start = col_product(linear.blocks, linear.values, y, c, n - 1);
        if block.has_col(c) {
            lemma_col_dot(block, linear.values, y, c, block.rows as int);
            let term = |k: int|
                block.entry(linear.values, k, c - block.col).times_spec(y[block.row + k]);
            assert forall|r: int|
                0 <= r < rows && !(block.row <= r < block.row + block.rows) implies #[trigger] last(r)
                == R::zero_spec() by {
                lemma_times_zero(y[r]);
            }
            assert forall|k: int| 0 <= k < block.rows implies #[trigger] term(k) == last(
                block.row + k,
            ) by {}
            lemma_sum_window(rows, block.row as int, block.rows as int, last, term);
        } else {
            assert forall|r: int| 0 <= r < rows implies #[trigger] last(r) == R::zero_spec() by {
                lemma_times_zero(y[r]);
            }
            lemma_sum_zero(rows, last);
            lemma_plus(start, start, start);
        }
    }
}

/// A model multiplies by the matrix that its blocks make up, and by its transpose.
pub proof fn lemma_products_of_jacobian<R: Real>(linear: LinearView<R>, x: Seq<R>, y: Seq<R>)
    requires
        ring::<R>(),
        placed(linear),
    ensures
        linear.product(x).len() == linear.rows,
        forall|r: int|
            0 <= r < linear.rows ==> #[trigger] linear.product(x)[r] == sum(
                linear.cols as int,
                |c: int| jacobian(linear, r, c).times_spec(x[c]),
            ),
        linear.transposed(y).len() == linear.cols,
        forall|c: int|
            0 <= c < linear.cols ==> #[trigger] linear.transposed(y)[c] == sum(
                linear.rows as int,
                |r: int| jacobian(linear, r, c).times_spec(y[r]),
            ),
{
    let n = linear.blocks.len() as int;
    assert forall|r: int| 0 <= r < linear.rows implies #[trigger] linear.product(x)[r] == sum(
        linear.cols as int,
        |c: int| jacobian(linear, r, c).times_spec(x[c]),
    ) by {
        lemma_row_product(linear, x, r, n);
        lemma_sum_same(
            linear.cols as int,
            |c: int| dense(linear, n, r, c).times_spec(x[c]),
            |c: int| jacobian(linear, r, c).times_spec(x[c]),
        );
    }
    assert forall|c: int| 0 <= c < linear.cols implies #[trigger] linear.transposed(y)[c] == sum(
        linear.rows as int,
        |r: int| jacobian(linear, r, c).times_spec(y[r]),
    ) by {
        lemma_col_product(linear, y, c, n);
        lemma_sum_same(
            linear.rows as int,
            |r: int| dense(linear, n, r, c).times_spec(y[r]),
            |r: int| jacobian(linear, r, c).times_spec(y[r]),
        );
    }
}

/// The transpose is the adjoint: `(J x) . y == x . (J^T y)`.
pub proof fn lemma_transpose_is_adjoint<R: Real>(linear: LinearView<R>, x: Seq<R>, y: Seq<R>)
    requires
        ring::<R>(),
        placed(linear),
    ensures
        sum(linear.rows as int, |r: int| linear.product(x)[r].times_spec(y[r])) == sum(
            linear.cols as int,
            |c: int| x[c].times_spec(linear.transposed(y)[c]),
        ),
{
    let rows = linear.rows as int;
    let cols = linear.cols as int;
    lemma_products_of_jacobian(linear, x, y);
    let term = |r: int, c: int| x[c].times_spec(jacobian(linear, r, c).times_spec(y[r]));
    let left = |r: int| linear.product(x)[r].times_spec(y[r]);
    let right = |c: int| x[c].times_spec(linear.transposed(y)[c]);
    let by_rows = |r: int| sum(cols, |c: int| term(r, c));
    let by_cols = |c: int| sum(rows, |r: int| term(r, c));
    assert forall|r: int| 0 <= r < rows implies #[trigger] left(r) == by_rows(r) by {
        let f = |c: int| jacobian(linear, r, c).times_spec(x[c]);
        let h = |c: int| term(r, c);
        assert forall|c: int| 0 <= c < cols implies #[trigger] h(c) == y[r].times_spec(f(c)) by {
            let j = jacobian(linear, r, c);
            lemma_times(x[c], j, y[r]);
            lemma_times(y[r], j, x[c]);
            lemma_times(j, x[c], y[r]);
            lemma_times(j.times_spec(x[c]), y[r], y[r]);
        }
        lemma_sum_times(cols, y[r], f, h);
        lemma_times(y[r], sum(cols, f), y[r]);
    }
    assert forall|c: int| 0 <= c < cols implies #[trigger] right(c) == by_cols(c) by {
        let f = |r: int| jacobian(linear, r, c).times_spec(y[r]);
        let h = |r: int| term(r, c);
        lemma_sum_times(rows, x[c], f, h);
    }
    lemma_sum_same(rows, left, by_rows);
    lemma_sum_same(cols, right, by_cols);
    lemma_sum_swap(rows, cols, term);
}

proof fn lemma_dot_sum<R: Real>(a: PanelView<R>, b: PanelView<R>, i: int, j: int, n: int)
    ensures
        dot(a, b, i, j, n) == sum(n, |r: int| a.entry(r, i).times_spec(b.entry(r, j))),
    decreases n,
{
    if n > 0 {
        lemma_dot_sum(a, b, i, j, n - 1);
    }
}

/// What a panel at a column of some rows has at a place of them.
pub open spec fn panel_at<R: Real>(panel: PanelView<R>, col: int, r: int, c: int) -> R {
    spot(panel.values, 0, 0, col, panel.rows as int, panel.cols as int, r, c)
}

/// Two panels have no column in common.
pub open spec fn apart<R>(a: PanelView<R>, x: int, b: PanelView<R>, y: int) -> bool {
    forall|c: int| !(x <= c < x + a.cols && #[trigger] column_of(c, y, b.cols as int))
}

/// Whether a column is one of a range.
pub open spec fn column_of(c: int, start: int, len: int) -> bool {
    start <= c < start + len
}

proof fn lemma_product_at<R: Real>(
    matrix: NormalView<R>,
    row: int,
    col: int,
    a: PanelView<R>,
    b: PanelView<R>,
    lower: bool,
    i: int,
    j: int,
)
    requires
        matrix.wf(),
        0 <= i < matrix.dimension,
        0 <= j < matrix.dimension,
    ensures
        matrix.with_product(row, col, a, b, lower).wf(),
        matrix.with_product(row, col, a, b, lower).dimension == matrix.dimension,
        matrix.with_product(row, col, a, b, lower).rhs == matrix.rhs,
        matrix.with_product(row, col, a, b, lower).at(i, j) == if row <= i < row + a.cols && col
            <= j < col + b.cols && (lower ==> i - row >= j - col) {
            matrix.at(i, j).plus_spec(dot(a, b, i - row, j - col, a.rows as int))
        } else {
            matrix.at(i, j)
        },
{
    let n = matrix.dimension as int;
    lemma_entry_index(n as nat, n as nat, i, j);
    vstd::arithmetic::div_mod::lemma_fundamental_div_mod_converse(j * n + i, n, j, i);
}

/// Products of panels as sums over their rows.
proof fn lemma_panel_dot<R: Real>(a: PanelView<R>, x: int, b: PanelView<R>, y: int, i: int, j: int)
    requires
        ring::<R>(),
        a.rows == b.rows,
    ensures
        sum(
            a.rows as int,
            |r: int| panel_at(a, x, r, i).times_spec(panel_at(b, y, r, j)),
        ) == if x <= i < x + a.cols && y <= j < y + b.cols {
            dot(a, b, i - x, j - y, a.rows as int)
        } else {
            R::zero_spec()
        },
{
    let rows = a.rows as int;
    let f = |r: int| panel_at(a, x, r, i).times_spec(panel_at(b, y, r, j));
    if x <= i < x + a.cols && y <= j < y + b.cols {
        lemma_dot_sum(a, b, i - x, j - y, rows);
        let g = |r: int| a.entry(r, i - x).times_spec(b.entry(r, j - y));
        assert forall|r: int| 0 <= r < rows implies #[trigger] f(r) == g(r) by {}
        lemma_sum_same(rows, f, g);
    } else {
        assert forall|r: int| 0 <= r < rows implies #[trigger] f(r) == R::zero_spec() by {
            lemma_times_zero(panel_at(a, x, r, i));
            lemma_times_zero(panel_at(b, y, r, j));
        }
        lemma_sum_zero(rows, f);
    }
}

/// The product of a panel with itself, added on and below the diagonal.
proof fn lemma_square_at<R: Real>(matrix: NormalView<R>, x: int, a: PanelView<R>, i: int, j: int)
    requires
        ring::<R>(),
        matrix.wf(),
        0 <= j <= i < matrix.dimension,
    ensures
        matrix.with_product(x, x, a, a, true).at(i, j) == matrix.at(i, j).plus_spec(
            sum(a.rows as int, |r: int| panel_at(a, x, r, i).times_spec(panel_at(a, x, r, j))),
        ),
{
    lemma_product_at(matrix, x, x, a, a, true, i, j);
    lemma_panel_dot(a, x, a, x, i, j);
    lemma_plus(matrix.at(i, j), R::zero_spec(), R::zero_spec());
}

/// The products of two panels with disjoint columns, placed below the diagonal.
pub open spec fn paired<R: Real>(
    matrix: NormalView<R>,
    x: int,
    a: PanelView<R>,
    y: int,
    b: PanelView<R>,
) -> NormalView<R> {
    if x > y {
        matrix.with_product(x, y, a, b, false)
    } else {
        matrix.with_product(y, x, b, a, false)
    }
}

proof fn lemma_paired_at<R: Real>(
    matrix: NormalView<R>,
    x: int,
    a: PanelView<R>,
    y: int,
    b: PanelView<R>,
    i: int,
    j: int,
)
    requires
        ring::<R>(),
        matrix.wf(),
        a.rows == b.rows,
        apart(a, x, b, y),
        0 <= j <= i < matrix.dimension,
    ensures
        paired(matrix, x, a, y, b).at(i, j) == matrix.at(i, j).plus_spec(
            sum(
                a.rows as int,
                |r: int|
                    panel_at(a, x, r, i).times_spec(panel_at(b, y, r, j)).plus_spec(
                        panel_at(b, y, r, i).times_spec(panel_at(a, x, r, j)),
                    ),
            ),
        ),
{
    let rows = a.rows as int;
    let zero = R::zero_spec();
    let f = |r: int| panel_at(a, x, r, i).times_spec(panel_at(b, y, r, j));
    let g = |r: int| panel_at(b, y, r, i).times_spec(panel_at(a, x, r, j));
    let h = |r: int|
        panel_at(a, x, r, i).times_spec(panel_at(b, y, r, j)).plus_spec(
            panel_at(b, y, r, i).times_spec(panel_at(a, x, r, j)),
        );
    assert forall|r: int| 0 <= r < rows implies #[trigger] h(r) == f(r).plus_spec(g(r)) by {}
    lemma_sum_plus(rows, f, g, h);
    lemma_panel_dot(a, x, b, y, i, j);
    lemma_panel_dot(b, y, a, x, i, j);
    lemma_product_at(matrix, x, y, a, b, false, i, j);
    lemma_product_at(matrix, y, x, b, a, false, i, j);
    lemma_plus(matrix.at(i, j), zero, zero);
    lemma_plus(zero, zero, zero);
    lemma_plus(sum(rows, f), zero, zero);
    lemma_plus(sum(rows, g), zero, zero);
    // Columns of the panel that starts later lie after those of the other one.
    assert(column_of(i, x, a.cols as int) == (x <= i < x + a.cols));
    assert(column_of(y, y, b.cols as int) == (0 < b.cols));
    assert(column_of(x, y, b.cols as int) == (y <= x < y + b.cols));
    assert(column_of(i, y, b.cols as int) == (y <= i < y + b.cols));
    assert(column_of(j, y, b.cols as int) == (y <= j < y + b.cols));
}

/// What the first `n` emitted blocks have at a place of their rows.
pub open spec fn emitted_at<R: Real>(
    blocks: Seq<BlockView<R>>,
    columns: Seq<usize>,
    n: int,
    r: int,
    c: int,
) -> R {
    sum(
        n,
        |k: int|
            spot(
                blocks[k].values,
                0,
                0,
                columns[k] as int,
                blocks[k].rows as int,
                blocks[k].cols as int,
                r,
                c,
            ),
    )
}

/// Emitted blocks cover the rows of their residual, lie within the columns, and share none.
pub open spec fn emission_fits<R>(
    dimension: nat,
    residual: Seq<R>,
    blocks: Seq<BlockView<R>>,
    columns: Seq<usize>,
) -> bool {
    &&& columns.len() == blocks.len()
    &&& forall|k: int|
        0 <= k < blocks.len() ==> {
            &&& (#[trigger] blocks[k]).wf()
            &&& blocks[k].rows == residual.len()
            &&& columns[k] + blocks[k].cols <= dimension
        }
    &&& forall|k: int, l: int|
        0 <= k < blocks.len() && 0 <= l < blocks.len() && k != l ==> #[trigger] apart(
            panel_spec(blocks[k]),
            columns[k] as int,
            panel_spec(blocks[l]),
            columns[l] as int,
        )
}

/// A sum of squares and products, term by term: what a product of two sums is.
proof fn lemma_square_of_sums<R: Real>(a: R, b: R, p: R, q: R)
    requires
        ring::<R>(),
    ensures
        a.plus_spec(p).times_spec(b.plus_spec(q)) == a.times_spec(b).plus_spec(
            p.times_spec(q),
        ).plus_spec(p.times_spec(b).plus_spec(a.times_spec(q))),
{
    lemma_times(a.plus_spec(p), b, q);
    lemma_times(a, p, b);
    lemma_times(a, p, q);
    let (ab, pb, aq, pq) = (a.times_spec(b), p.times_spec(b), a.times_spec(q), p.times_spec(q));
    lemma_plus(aq, pq, pq);
    lemma_plus_pairs(ab, pb, pq, aq);
}

proof fn lemma_pairs_at<R: Real>(
    matrix: NormalView<R>,
    residual: Seq<R>,
    blocks: Seq<BlockView<R>>,
    columns: Seq<usize>,
    b: int,
    k: int,
    i: int,
    j: int,
)
    requires
        ring::<R>(),
        matrix.wf(),
        emission_fits(matrix.dimension, residual, blocks, columns),
        0 <= k <= b < blocks.len(),
        0 <= j <= i < matrix.dimension,
    ensures
        matrix.with_pairs(blocks, columns, b, k).wf(),
        matrix.with_pairs(blocks, columns, b, k).dimension == matrix.dimension,
        matrix.with_pairs(blocks, columns, b, k).rhs == matrix.rhs,
        matrix.with_pairs(blocks, columns, b, k).at(i, j) == matrix.at(i, j).plus_spec(
            sum(
                residual.len() as int,
                |r: int|
                    panel_at(panel_spec(blocks[b]), columns[b] as int, r, i).times_spec(
                        emitted_at(blocks, columns, k, r, j),
                    ).plus_spec(
                        emitted_at(blocks, columns, k, r, i).times_spec(
                            panel_at(panel_spec(blocks[b]), columns[b] as int, r, j),
                        ),
                    ),
            ),
        ),
    decreases k,
{
    let rows = residual.len() as int;
    let own = panel_spec(blocks[b]);
    let x = columns[b] as int;
    let all = |r: int|
        panel_at(own, x, r, i).times_spec(emitted_at(blocks, columns, k, r, j)).plus_spec(
            emitted_at(blocks, columns, k, r, i).times_spec(panel_at(own, x, r, j)),
        );
    if k <= 0 {
        assert forall|r: int| 0 <= r < rows implies #[trigger] all(r) == R::zero_spec() by {
            lemma_times_zero(panel_at(own, x, r, i));
            lemma_times_zero(panel_at(own, x, r, j));
            lemma_plus(R::zero_spec(), R::zero_spec(), R::zero_spec());
        }
        lemma_sum_zero(rows, all);
        lemma_plus(matrix.at(i, j), R::zero_spec(), R::zero_spec());
    } else {
        lemma_pairs_at(matrix, residual, blocks, columns, b, k - 1, i, j);
        let before = matrix.with_pairs(blocks, columns, b, k - 1);
        let other = panel_spec(blocks[k - 1]);
        let y = columns[k - 1] as int;
        assert(apart(own, x, other, y));
        lemma_paired_at(before, x, own, y, other, i, j);
        lemma_product_at(before, x, y, own, other, false, i, j);
        lemma_product_at(before, y, x, other, own, false, i, j);
        assert(matrix.with_pairs(blocks, columns, b, k) == paired(before, x, own, y, other));
        let first = |r: int|
            panel_at(own, x, r, i).times_spec(emitted_at(blocks, columns, k - 1, r, j)).plus_spec(
                emitted_at(blocks, columns, k - 1, r, i).times_spec(panel_at(own, x, r, j)),
            );
        let last = |r: int|
            panel_at(own, x, r, i).times_spec(panel_at(other, y, r, j)).plus_spec(
                panel_at(other, y, r, i).times_spec(panel_at(own, x, r, j)),
            );
        assert forall|r: int| 0 <= r < rows implies #[trigger] all(r) == first(r).plus_spec(
            last(r),
        ) by {
            lemma_emitted_step(blocks, columns, k, r, i);
            lemma_emitted_step(blocks, columns, k, r, j);
            let (pi, pj) = (panel_at(own, x, r, i), panel_at(own, x, r, j));
            let (ei, ej) = (
                emitted_at(blocks, columns, k - 1, r, i),
                emitted_at(blocks, columns, k - 1, r, j),
            );
            let (oi, oj) = (panel_at(other, y, r, i), panel_at(other, y, r, j));
            lemma_times(pi, ej, oj);
            lemma_times(ei, oi, pj);
            lemma_plus_pairs(
                pi.times_spec(ej),
                pi.times_spec(oj),
                ei.times_spec(pj),
                oi.times_spec(pj),
            );
        }
        lemma_sum_plus(rows, first, last, all);
        lemma_plus(matrix.at(i, j), sum(rows, first), sum(rows, last));
    }
}

proof fn lemma_emitted_step<R: Real>(
    blocks: Seq<BlockView<R>>,
    columns: Seq<usize>,
    n: int,
    r: int,
    c: int,
)
    requires
        0 < n,
    ensures
        emitted_at(blocks, columns, n, r, c) == emitted_at(blocks, columns, n - 1, r, c).plus_spec(
            panel_at(panel_spec(blocks[n - 1]), columns[n - 1] as int, r, c),
        ),
{
}

proof fn lemma_slope_sum<R: Real>(a: BlockView<R>, residual: Seq<R>, i: int, n: int)
    ensures
        slope(a, residual, i, n) == sum(n, |r: int| a.entry(r, i).times_spec(residual[r])),
    decreases n,
{
    if n > 0 {
        lemma_slope_sum(a, residual, i, n - 1);
    }
}

proof fn lemma_blocks_at<R: Real>(
    matrix: NormalView<R>,
    residual: Seq<R>,
    blocks: Seq<BlockView<R>>,
    columns: Seq<usize>,
    n: int,
    i: int,
    j: int,
)
    requires
        ring::<R>(),
        matrix.wf(),
        emission_fits(matrix.dimension, residual, blocks, columns),
        0 <= n <= blocks.len(),
        0 <= j <= i < matrix.dimension,
    ensures
        matrix.with_blocks(residual, blocks, columns, n).wf(),
        matrix.with_blocks(residual, blocks, columns, n).dimension == matrix.dimension,
        matrix.with_blocks(residual, blocks, columns, n).at(i, j) == matrix.at(i, j).plus_spec(
            sum(
                residual.len() as int,
                |r: int|
                    emitted_at(blocks, columns, n, r, i).times_spec(
                        emitted_at(blocks, columns, n, r, j),
                    ),
            ),
        ),
        matrix.with_blocks(residual, blocks, columns, n).rhs[i] == matrix.rhs[i].minus_spec(
            sum(
                residual.len() as int,
                |r: int| emitted_at(blocks, columns, n, r, i).times_spec(residual[r]),
            ),
        ),
    decreases n,
{
    let rows = residual.len() as int;
    let zero = R::zero_spec();
    let all = |r: int|
        emitted_at(blocks, columns, n, r, i).times_spec(emitted_at(blocks, columns, n, r, j));
    let pull = |r: int| emitted_at(blocks, columns, n, r, i).times_spec(residual[r]);
    if n <= 0 {
        assert forall|r: int| 0 <= r < rows implies #[trigger] all(r) == zero by {
            lemma_times_zero(zero);
        }
        assert forall|r: int| 0 <= r < rows implies #[trigger] pull(r) == zero by {
            lemma_times_zero(residual[r]);
        }
        lemma_sum_zero(rows, all);
        lemma_sum_zero(rows, pull);
        lemma_plus(matrix.at(i, j), zero, zero);
        lemma_plus(matrix.rhs[i], zero, zero);
        lemma_negate(zero, zero);
    } else {
        let b = n - 1;
        lemma_blocks_at(matrix, residual, blocks, columns, b, i, j);
        let own = panel_spec(blocks[b]);
        let x = columns[b] as int;
        let before = matrix.with_blocks(residual, blocks, columns, b);
        let sloped = before.with_gradient(x, blocks[b], residual);
        assert(sloped.wf());
        assert(sloped.at(i, j) == before.at(i, j));
        let squared = sloped.with_product(x, x, own, own, true);
        lemma_square_at(sloped, x, own, i, j);
        lemma_product_at(sloped, x, x, own, own, true, i, j);
        lemma_pairs_at(squared, residual, blocks, columns, b, b, i, j);
        let first = |r: int|
            emitted_at(blocks, columns, b, r, i).times_spec(emitted_at(blocks, columns, b, r, j));
        let square = |r: int| panel_at(own, x, r, i).times_spec(panel_at(own, x, r, j));
        let cross = |r: int|
            panel_at(own, x, r, i).times_spec(emitted_at(blocks, columns, b, r, j)).plus_spec(
                emitted_at(blocks, columns, b, r, i).times_spec(panel_at(own, x, r, j)),
            );
        let both = |r: int| first(r).plus_spec(square(r));
        assert forall|r: int| 0 <= r < rows implies #[trigger] all(r) == both(r).plus_spec(
            cross(r),
        ) by {
            lemma_emitted_step(blocks, columns, n, r, i);
            lemma_emitted_step(blocks, columns, n, r, j);
            lemma_square_of_sums(
                emitted_at(blocks, columns, b, r, i),
                emitted_at(blocks, columns, b, r, j),
                panel_at(own, x, r, i),
                panel_at(own, x, r, j),
            );
        }
        lemma_sum_plus(rows, both, cross, all);
        lemma_sum_plus(rows, first, square, both);
        lemma_plus(matrix.at(i, j), sum(rows, first), sum(rows, square));
        lemma_plus(
            matrix.at(i, j),
            sum(rows, first).plus_spec(sum(rows, square)),
            sum(rows, cross),
        );
        // The right-hand side.
        let pulled = |r: int| emitted_at(blocks, columns, b, r, i).times_spec(residual[r]);
        let last = |r: int| panel_at(own, x, r, i).times_spec(residual[r]);
        assert forall|r: int| 0 <= r < rows implies #[trigger] pull(r) == pulled(r).plus_spec(
            last(r),
        ) by {
            lemma_emitted_step(blocks, columns, n, r, i);
            lemma_times(
                emitted_at(blocks, columns, b, r, i),
                panel_at(own, x, r, i),
                residual[r],
            );
        }
        lemma_sum_plus(rows, pulled, last, pull);
        let tail = sum(rows, last);
        if x <= i < x + own.cols {
            lemma_slope_sum(blocks[b], residual, i - x, rows);
            lemma_sum_same(
                rows,
                last,
                |r: int| blocks[b].entry(r, i - x).times_spec(residual[r]),
            );
        } else {
            assert forall|r: int| 0 <= r < rows implies #[trigger] last(r) == zero by {
                lemma_times_zero(residual[r]);
            }
            lemma_sum_zero(rows, last);
            lemma_plus(sum(rows, pulled), zero, zero);
        }
        let start = matrix.rhs[i];
        lemma_plus(start, sum(rows, pulled), tail);
        lemma_plus(start.minus_spec(sum(rows, pulled)), tail, tail);
        lemma_negate(sum(rows, pulled), tail);
        lemma_plus(start, sum(rows, pulled).negate_spec(), tail.negate_spec());
        lemma_plus(start, sum(rows, pull), tail);
    }
}

/// Normal equations gather rows: with a residual `r` and the blocks of its Jacobian `E`, the
/// matrix grows by `E^T E` on and below its diagonal, whatever the order in which the blocks
/// were emitted, and the right-hand side falls by `E^T r`.
pub proof fn lemma_normal_equations_gather<R: Real>(
    matrix: NormalView<R>,
    residual: Seq<R>,
    blocks: Seq<BlockView<R>>,
    columns: Seq<usize>,
)
    requires
        ring::<R>(),
        matrix.wf(),
        emission_fits(matrix.dimension, residual, blocks, columns),
    ensures
        ({
            let n = blocks.len() as int;
            let after = matrix.with_blocks(residual, blocks, columns, n);
            let e = |r: int, c: int| emitted_at(blocks, columns, n, r, c);
            &&& forall|i: int, j: int|
                0 <= j <= i < matrix.dimension ==> #[trigger] after.at(i, j) == matrix.at(
                    i,
                    j,
                ).plus_spec(
                    sum(residual.len() as int, |r: int| e(r, i).times_spec(e(r, j))),
                )
            &&& forall|i: int|
                0 <= i < matrix.dimension ==> #[trigger] after.rhs[i] == matrix.rhs[i].minus_spec(
                    sum(residual.len() as int, |r: int| e(r, i).times_spec(residual[r])),
                )
        }),
{
    let n = blocks.len() as int;
    let rows = residual.len() as int;
    let after = matrix.with_blocks(residual, blocks, columns, n);
    let e = |r: int, c: int| emitted_at(blocks, columns, n, r, c);
    assert forall|i: int, j: int| 0 <= j <= i < matrix.dimension implies #[trigger] after.at(i, j)
        == matrix.at(i, j).plus_spec(sum(rows, |r: int| e(r, i).times_spec(e(r, j)))) by {
        lemma_blocks_at(matrix, residual, blocks, columns, n, i, j);
        lemma_sum_same(
            rows,
            |r: int|
                emitted_at(blocks, columns, n, r, i).times_spec(
                    emitted_at(blocks, columns, n, r, j),
                ),
            |r: int| e(r, i).times_spec(e(r, j)),
        );
    }
    assert forall|i: int| 0 <= i < matrix.dimension implies #[trigger] after.rhs[i]
        == matrix.rhs[i].minus_spec(sum(rows, |r: int| e(r, i).times_spec(residual[r]))) by {
        lemma_blocks_at(matrix, residual, blocks, columns, n, i, i);
        lemma_sum_same(
            rows,
            |r: int| emitted_at(blocks, columns, n, r, i).times_spec(residual[r]),
            |r: int| e(r, i).times_spec(residual[r]),
        );
    }
}

/// Stored blocks either cover the same rows, and then share no column, or share no row.
pub open spec fn separate<R>(linear: LinearView<R>) -> bool {
    forall|b: int, k: int|
        0 <= b < linear.blocks.len() && 0 <= k < linear.blocks.len() && b != k
            ==> #[trigger] separated(linear, b, k)
}

/// Two stored blocks cover the same rows, and then share no column, or share no row.
pub open spec fn separated<R>(linear: LinearView<R>, b: int, k: int) -> bool {
    let p = linear.blocks[b];
    let q = linear.blocks[k];
    if aligned(linear, b, k) {
        p.rows == 0 || apart(stored(linear, b), p.col as int, stored(linear, k), q.col as int)
    } else {
        p.row + p.rows <= q.row || q.row + q.rows <= p.row
    }
}

proof fn lemma_stored_entry<R: Real>(linear: LinearView<R>, b: int, q: int, c: int)
    requires
        placed(linear),
        0 <= b < linear.blocks.len(),
        0 <= q < linear.blocks[b].rows,
    ensures
        panel_at(stored(linear, b), linear.blocks[b].col as int, q, c) == stored_at(
            linear,
            b,
            linear.blocks[b].row + q,
            c,
        ),
{
    let block = linear.blocks[b];
    if block.col <= c < block.col + block.cols {
        lemma_entry_index(block.rows as nat, block.cols as nat, q, c - block.col);
    }
}

/// Sums over the rows of two blocks that cover the same ones, and over all rows.
proof fn lemma_aligned_sum<R: Real>(linear: LinearView<R>, b: int, k: int, i: int, j: int)
    requires
        ring::<R>(),
        placed(linear),
        0 <= b < linear.blocks.len(),
        0 <= k < linear.blocks.len(),
        aligned(linear, b, k),
    ensures
        sum(
            linear.rows as int,
            |r: int| stored_at(linear, b, r, i).times_spec(stored_at(linear, k, r, j)),
        ) == sum(
            linear.blocks[b].rows as int,
            |q: int|
                panel_at(stored(linear, b), linear.blocks[b].col as int, q, i).times_spec(
                    panel_at(stored(linear, k), linear.blocks[k].col as int, q, j),
                ),
        ),
{
    let block = linear.blocks[b];
    let other = linear.blocks[k];
    let f = |r: int| stored_at(linear, b, r, i).times_spec(stored_at(linear, k, r, j));
    let g = |q: int|
        panel_at(stored(linear, b), block.col as int, q, i).times_spec(
            panel_at(stored(linear, k), other.col as int, q, j),
        );
    assert forall|r: int|
        0 <= r < linear.rows && !(block.row <= r < block.row + block.rows) implies #[trigger] f(r)
        == R::zero_spec() by {
        lemma_times_zero(R::zero_spec());
    }
    assert forall|q: int| 0 <= q < block.rows implies #[trigger] g(q) == f(block.row + q) by {
        lemma_stored_entry(linear, b, q, i);
        lemma_stored_entry(linear, k, q, j);
    }
    lemma_sum_window(linear.rows as int, block.row as int, block.rows as int, f, g);
}

proof fn lemma_aligned_at<R: Real>(
    matrix: NormalView<R>,
    linear: LinearView<R>,
    b: int,
    k: int,
    i: int,
    j: int,
)
    requires
        ring::<R>(),
        matrix.wf(),
        matrix.dimension == linear.cols,
        placed(linear),
        separate(linear),
        0 <= k <= b < linear.blocks.len(),
        0 <= j <= i < matrix.dimension,
    ensures
        with_aligned(matrix, linear, b, k).wf(),
        with_aligned(matrix, linear, b, k).dimension == matrix.dimension,
        with_aligned(matrix, linear, b, k).at(i, j) == matrix.at(i, j).plus_spec(
            sum(
                linear.rows as int,
                |r: int|
                    stored_at(linear, b, r, i).times_spec(dense(linear, k, r, j)).plus_spec(
                        dense(linear, k, r, i).times_spec(stored_at(linear, b, r, j)),
                    ),
            ),
        ),
    decreases k,
{
    let rows = linear.rows as int;
    let zero = R::zero_spec();
    let all = |r: int|
        stored_at(linear, b, r, i).times_spec(dense(linear, k, r, j)).plus_spec(
            dense(linear, k, r, i).times_spec(stored_at(linear, b, r, j)),
        );
    if k <= 0 {
        assert forall|r: int| 0 <= r < rows implies #[trigger] all(r) == zero by {
            lemma_times_zero(stored_at(linear, b, r, i));
            lemma_times_zero(stored_at(linear, b, r, j));
            lemma_plus(zero, zero, zero);
        }
        lemma_sum_zero(rows, all);
        lemma_plus(matrix.at(i, j), zero, zero);
    } else {
        let l = k - 1;
        lemma_aligned_at(matrix, linear, b, l, i, j);
        let before = with_aligned(matrix, linear, b, l);
        let own = stored(linear, b);
        let other = stored(linear, l);
        let x = linear.blocks[b].col as int;
        let y = linear.blocks[l].col as int;
        assert(separated(linear, b, l));
        let first = |r: int|
            stored_at(linear, b, r, i).times_spec(dense(linear, l, r, j)).plus_spec(
                dense(linear, l, r, i).times_spec(stored_at(linear, b, r, j)),
            );
        let over = |r: int| stored_at(linear, b, r, i).times_spec(stored_at(linear, l, r, j));
        let under = |r: int| stored_at(linear, l, r, i).times_spec(stored_at(linear, b, r, j));
        let last = |r: int| over(r).plus_spec(under(r));
        assert forall|r: int| 0 <= r < rows implies #[trigger] all(r) == first(r).plus_spec(
            last(r),
        ) by {
            lemma_dense_step(linear, k, r, i);
            lemma_dense_step(linear, k, r, j);
            let (pi, pj) = (stored_at(linear, b, r, i), stored_at(linear, b, r, j));
            let (ei, ej) = (dense(linear, l, r, i), dense(linear, l, r, j));
            let (oi, oj) = (stored_at(linear, l, r, i), stored_at(linear, l, r, j));
            lemma_times(pi, ej, oj);
            lemma_times(ei, oi, pj);
            lemma_plus_pairs(
                pi.times_spec(ej),
                pi.times_spec(oj),
                ei.times_spec(pj),
                oi.times_spec(pj),
            );
        }
        lemma_sum_plus(rows, first, last, all);
        lemma_sum_plus(rows, over, under, last);
        lemma_plus(matrix.at(i, j), sum(rows, first), sum(rows, last));
        lemma_plus(before.at(i, j), zero, zero);
        lemma_plus(zero, zero, zero);
        lemma_product_at(before, x, y, own, other, false, i, j);
        lemma_product_at(before, y, x, other, own, false, i, j);
        if aligned(linear, b, l) {
            lemma_aligned_sum(linear, b, l, i, j);
            lemma_aligned_sum(linear, l, b, i, j);
            let count = own.rows as int;
            let f = |q: int| panel_at(own, x, q, i).times_spec(panel_at(other, y, q, j));
            let g = |q: int| panel_at(other, y, q, i).times_spec(panel_at(own, x, q, j));
            let h = |q: int|
                panel_at(own, x, q, i).times_spec(panel_at(other, y, q, j)).plus_spec(
                    panel_at(other, y, q, i).times_spec(panel_at(own, x, q, j)),
                );
            assert forall|q: int| 0 <= q < count implies #[trigger] h(q) == f(q).plus_spec(
                g(q),
            ) by {}
            lemma_sum_plus(count, f, g, h);
            assert(with_aligned(matrix, linear, b, k) == paired(before, x, own, y, other));
            if count == 0 {
                lemma_sum_zero(0, f);
                lemma_sum_zero(0, g);
            } else {
                lemma_paired_at(before, x, own, y, other, i, j);
            }
        } else {
            assert forall|r: int| 0 <= r < rows implies #[trigger] over(r) == zero by {
                lemma_times_zero(stored_at(linear, b, r, i));
                lemma_times_zero(stored_at(linear, l, r, j));
            }
            assert forall|r: int| 0 <= r < rows implies #[trigger] under(r) == zero by {
                lemma_times_zero(stored_at(linear, l, r, i));
                lemma_times_zero(stored_at(linear, b, r, j));
            }
            lemma_sum_zero(rows, over);
            lemma_sum_zero(rows, under);
        }
    }
}

proof fn lemma_dense_step<R: Real>(linear: LinearView<R>, n: int, r: int, c: int)
    requires
        0 < n,
    ensures
        dense(linear, n, r, c) == dense(linear, n - 1, r, c).plus_spec(
            stored_at(linear, n - 1, r, c),
        ),
{
}

proof fn lemma_information_at<R: Real>(linear: LinearView<R>, n: int, i: int, j: int)
    requires
        ring::<R>(),
        placed(linear),
        separate(linear),
        0 <= n <= linear.blocks.len(),
        0 <= j <= i < linear.cols,
    ensures
        information_of(linear, n).wf(),
        information_of(linear, n).dimension == linear.cols,
        information_of(linear, n).at(i, j) == sum(
            linear.rows as int,
            |r: int| dense(linear, n, r, i).times_spec(dense(linear, n, r, j)),
        ),
    decreases n,
{
    let rows = linear.rows as int;
    let zero = R::zero_spec();
    let all = |r: int| dense(linear, n, r, i).times_spec(dense(linear, n, r, j));
    if n <= 0 {
        assert forall|r: int| 0 <= r < rows implies #[trigger] all(r) == zero by {
            lemma_times_zero(zero);
        }
        lemma_sum_zero(rows, all);
        lemma_entry_index(linear.cols, linear.cols, i, j);
    } else {
        let b = n - 1;
        lemma_information_at(linear, b, i, j);
        let own = stored(linear, b);
        let x = linear.blocks[b].col as int;
        let before = information_of(linear, b);
        let squared = before.with_product(x, x, own, own, true);
        lemma_square_at(before, x, own, i, j);
        lemma_product_at(before, x, x, own, own, true, i, j);
        lemma_aligned_at(squared, linear, b, b, i, j);
        lemma_aligned_sum(linear, b, b, i, j);
        let first = |r: int| dense(linear, b, r, i).times_spec(dense(linear, b, r, j));
        let square = |r: int| stored_at(linear, b, r, i).times_spec(stored_at(linear, b, r, j));
        let cross = |r: int|
            stored_at(linear, b, r, i).times_spec(dense(linear, b, r, j)).plus_spec(
                dense(linear, b, r, i).times_spec(stored_at(linear, b, r, j)),
            );
        let both = |r: int| first(r).plus_spec(square(r));
        assert forall|r: int| 0 <= r < rows implies #[trigger] all(r) == both(r).plus_spec(
            cross(r),
        ) by {
            lemma_dense_step(linear, n, r, i);
            lemma_dense_step(linear, n, r, j);
            lemma_square_of_sums(
                dense(linear, b, r, i),
                dense(linear, b, r, j),
                stored_at(linear, b, r, i),
                stored_at(linear, b, r, j),
            );
        }
        lemma_sum_plus(rows, both, cross, all);
        lemma_sum_plus(rows, first, square, both);
    }
}

/// The information of a cached linearization is that of its Jacobian: on and below the diagonal
/// it is `J^T J`, whatever the order in which blocks were emitted.
pub proof fn lemma_information_of_jacobian<R: Real>(linear: LinearView<R>)
    requires
        ring::<R>(),
        placed(linear),
        separate(linear),
    ensures
        ({
            let information = information_of(linear, linear.blocks.len() as int);
            &&& information.dimension == linear.cols
            &&& forall|i: int, j: int|
                0 <= j <= i < linear.cols ==> #[trigger] information.at(i, j) == sum(
                    linear.rows as int,
                    |r: int| jacobian(linear, r, i).times_spec(jacobian(linear, r, j)),
                )
        }),
{
    let n = linear.blocks.len() as int;
    lemma_information_dimension(linear, n);
    assert forall|i: int, j: int|
        0 <= j <= i < linear.cols implies #[trigger] information_of(linear, n).at(i, j) == sum(
        linear.rows as int,
        |r: int| jacobian(linear, r, i).times_spec(jacobian(linear, r, j)),
    ) by {
        lemma_information_at(linear, n, i, j);
        lemma_sum_same(
            linear.rows as int,
            |r: int| dense(linear, n, r, i).times_spec(dense(linear, n, r, j)),
            |r: int| jacobian(linear, r, i).times_spec(jacobian(linear, r, j)),
        );
    }
}

/// The gradient that a model keeps is `J^T r`.
pub open spec fn sloped<R: Real>(linear: LinearView<R>) -> bool {
    forall|c: int|
        0 <= c < linear.cols ==> #[trigger] linear.gradient[c] == sum(
            linear.rows as int,
            |r: int| jacobian(linear, r, c).times_spec(linear.negative_residual[r].negate_spec()),
        )
}

/// What the first `n` blocks of an emission add to a model.
proof fn lemma_emission_stored<R: Real>(
    linear: LinearView<R>,
    row: nat,
    residual: Seq<R>,
    blocks: Seq<BlockView<R>>,
    columns: Seq<usize>,
    n: int,
)
    requires
        ring::<R>(),
        blocks_fit(
            linear.rows as int,
            linear.cols as int,
            linear.blocks,
            linear.values.len() as int,
        ),
        linear.gradient.len() == linear.cols,
        emission_fits(linear.cols, residual, blocks, columns),
        row + residual.len() <= linear.rows,
        linear.rows <= usize::MAX,
        linear.cols <= usize::MAX,
        0 <= n <= blocks.len(),
        linear.with_blocks(row, residual, blocks, columns, n).values.len() <= usize::MAX,
    ensures
        ({
            let after = linear.with_blocks(row, residual, blocks, columns, n);
            let old = linear.blocks.len() as int;
            &&& after.rows == linear.rows
            &&& after.cols == linear.cols
            &&& after.negative_residual == linear.negative_residual
            &&& after.gradient.len() == linear.cols
            &&& after.blocks.len() == old + n
            &&& linear.values.len() <= after.values.len()
            &&& after.values.take(linear.values.len() as int) == linear.values
            &&& blocks_fit(
                linear.rows as int,
                linear.cols as int,
                after.blocks,
                after.values.len() as int,
            )
            &&& forall|b: int| 0 <= b < old ==> after.blocks[b] == linear.blocks[b]
            &&& forall|k: int|
                0 <= k < n ==> {
                    &&& (#[trigger] after.blocks[old + k]).row == row
                    &&& after.blocks[old + k].rows == residual.len()
                    &&& after.blocks[old + k].col == columns[k]
                    &&& after.blocks[old + k].cols == blocks[k].cols
                }
            &&& forall|k: int, r: int, c: int|
                0 <= k < n ==> #[trigger] stored_at(after, old + k, r, c) == panel_at(
                    panel_spec(blocks[k]),
                    columns[k] as int,
                    r - row,
                    c,
                )
            &&& forall|c: int|
                0 <= c < linear.cols ==> #[trigger] after.gradient[c]
                    == linear.gradient[c].plus_spec(
                    sum(
                        residual.len() as int,
                        |q: int| emitted_at(blocks, columns, n, q, c).times_spec(residual[q]),
                    ),
                )
        }),
    decreases n,
{
    let rows = residual.len() as int;
    let zero = R::zero_spec();
    let old = linear.blocks.len() as int;
    let after = linear.with_blocks(row, residual, blocks, columns, n);
    if n <= 0 {
        assert(linear.values.take(linear.values.len() as int) =~= linear.values);
        assert forall|c: int| 0 <= c < linear.cols implies #[trigger] after.gradient[c]
            == linear.gradient[c].plus_spec(
            sum(rows, |q: int| emitted_at(blocks, columns, n, q, c).times_spec(residual[q])),
        ) by {
            let f = |q: int| emitted_at(blocks, columns, n, q, c).times_spec(residual[q]);
            assert forall|q: int| 0 <= q < rows implies #[trigger] f(q) == zero by {
                lemma_times_zero(residual[q]);
            }
            lemma_sum_zero(rows, f);
            lemma_plus(linear.gradient[c], zero, zero);
        }
    } else {
        let l = n - 1;
        let before = linear.with_blocks(row, residual, blocks, columns, l);
        let block = blocks[l];
        assert(after.values == before.values + block.values);
        lemma_emission_stored(linear, row, residual, blocks, columns, l);
        assert(block.values.len() == block.rows * block.cols);
        assert(after.values.take(linear.values.len() as int) =~= before.values.take(
            linear.values.len() as int,
        ));
        assert forall|k: int, r: int, c: int| 0 <= k < n implies #[trigger] stored_at(
            after,
            old + k,
            r,
            c,
        ) == panel_at(panel_spec(blocks[k]), columns[k] as int, r - row, c) by {
            let place = after.blocks[old + k];
            let inside = row <= r < row + rows && columns[k] <= c < columns[k] + blocks[k].cols;
            if inside {
                lemma_entry_index(blocks[k].rows, blocks[k].cols, r - row, c - columns[k]);
            }
            if k < l {
                assert(before.blocks[old + k] == place);
                assert(stored_at(before, old + k, r, c) == panel_at(
                    panel_spec(blocks[k]),
                    columns[k] as int,
                    r - row,
                    c,
                ));
                if inside {
                    assert(place.start + place.rows * place.cols <= before.values.len());
                }
            }
        }
        assert forall|c: int| 0 <= c < linear.cols implies #[trigger] after.gradient[c]
            == linear.gradient[c].plus_spec(
            sum(rows, |q: int| emitted_at(blocks, columns, n, q, c).times_spec(residual[q])),
        ) by {
            let x = columns[l] as int;
            let own = panel_spec(block);
            let all = |q: int| emitted_at(blocks, columns, n, q, c).times_spec(residual[q]);
            let first = |q: int| emitted_at(blocks, columns, l, q, c).times_spec(residual[q]);
            let last = |q: int| panel_at(own, x, q, c).times_spec(residual[q]);
            assert forall|q: int| 0 <= q < rows implies #[trigger] all(q) == first(q).plus_spec(
                last(q),
            ) by {
                lemma_emitted_step(blocks, columns, n, q, c);
                lemma_times(
                    emitted_at(blocks, columns, l, q, c),
                    panel_at(own, x, q, c),
                    residual[q],
                );
            }
            lemma_sum_plus(rows, first, last, all);
            lemma_plus(linear.gradient[c], sum(rows, first), sum(rows, last));
            if x <= c < x + block.cols {
                lemma_gradient_dot(block, residual, c - x, rows);
                lemma_sum_same(
                    rows,
                    last,
                    |q: int| block.entry(q, c - x).times_spec(residual[q]),
                );
            } else {
                assert forall|q: int| 0 <= q < rows implies #[trigger] last(q) == zero by {
                    lemma_times_zero(residual[q]);
                }
                lemma_sum_zero(rows, last);
                lemma_plus(before.gradient[c], zero, zero);
            }
        }
    }
}

proof fn lemma_gradient_dot<R: Real>(block: BlockView<R>, residual: Seq<R>, c: int, n: int)
    ensures
        gradient_dot(block, residual, c, n) == sum(
            n,
            |q: int| block.entry(q, c).times_spec(residual[q]),
        ),
    decreases n,
{
    if n > 0 {
        lemma_gradient_dot(block, residual, c, n - 1);
    }
}

proof fn lemma_dense_split<R: Real>(
    linear: LinearView<R>,
    after: LinearView<R>,
    row: int,
    blocks: Seq<BlockView<R>>,
    columns: Seq<usize>,
    n: int,
    r: int,
    c: int,
)
    requires
        ring::<R>(),
        0 <= n,
        forall|b: int|
            0 <= b < linear.blocks.len() ==> #[trigger] stored_at(after, b, r, c) == stored_at(
                linear,
                b,
                r,
                c,
            ),
        forall|k: int|
            0 <= k < n ==> #[trigger] stored_at(after, linear.blocks.len() + k, r, c) == panel_at(
                panel_spec(blocks[k]),
                columns[k] as int,
                r - row,
                c,
            ),
    ensures
        dense(after, linear.blocks.len() + n, r, c) == jacobian(linear, r, c).plus_spec(
            emitted_at(blocks, columns, n, r - row, c),
        ),
    decreases n,
{
    let old = linear.blocks.len() as int;
    if n == 0 {
        lemma_sum_same(
            old,
            |b: int| stored_at(after, b, r, c),
            |b: int| stored_at(linear, b, r, c),
        );
        lemma_plus(jacobian(linear, r, c), R::zero_spec(), R::zero_spec());
    } else {
        lemma_dense_split(linear, after, row, blocks, columns, n - 1, r, c);
        lemma_dense_step(after, old + n, r, c);
        assert(stored_at(after, old + (n - 1), r, c) == panel_at(
            panel_spec(blocks[n - 1]),
            columns[n - 1] as int,
            r - row,
            c,
        ));
        lemma_emitted_step(blocks, columns, n, r - row, c);
        lemma_plus(
            jacobian(linear, r, c),
            emitted_at(blocks, columns, n - 1, r - row, c),
            panel_at(panel_spec(blocks[n - 1]), columns[n - 1] as int, r - row, c),
        );
    }
}

/// A model keeps the rows that are emitted to it, one below the other: those it had, and then
/// the emitted ones with the opposite of their residual. Its blocks stay separate, and what it
/// keeps as the gradient stays `J^T r`.
pub proof fn lemma_model_stacks_rows<R: Real>(
    linear: LinearView<R>,
    residual: Seq<R>,
    blocks: Seq<BlockView<R>>,
    columns: Seq<usize>,
)
    requires
        ring::<R>(),
        placed(linear),
        linear.cols <= usize::MAX,
        emission_fits(linear.cols, residual, blocks, columns),
        linear.extended(residual, blocks, columns) is Ok,
        linear.extended(residual, blocks, columns)->Ok_0.values.len() <= usize::MAX,
    ensures
        ({
            let after = linear.extended(residual, blocks, columns)->Ok_0;
            let n = blocks.len() as int;
            &&& placed(after)
            &&& after.rows == linear.rows + residual.len()
            &&& after.cols == linear.cols
            &&& forall|r: int|
                0 <= r < linear.rows ==> #[trigger] after.negative_residual[r]
                    == linear.negative_residual[r]
            &&& forall|q: int|
                0 <= q < residual.len() ==> #[trigger] after.negative_residual[linear.rows + q]
                    == residual[q].negate_spec()
            &&& forall|r: int, c: int|
                0 <= r < after.rows ==> #[trigger] jacobian(after, r, c) == if r < linear.rows {
                    jacobian(linear, r, c)
                } else {
                    emitted_at(blocks, columns, n, r - linear.rows, c)
                }
            &&& separate(linear) ==> separate(after)
            &&& sloped(linear) ==> sloped(after)
        }),
{
    let after = linear.extended(residual, blocks, columns)->Ok_0;
    let n = blocks.len() as int;
    let row = linear.rows;
    let old = linear.blocks.len() as int;
    let zero = R::zero_spec();
    let taller = LinearView {
        rows: linear.rows + residual.len(),
        negative_residual: linear.negative_residual + Seq::new(
            residual.len(),
            |i: int| residual[i].negate_spec(),
        ),
        ..linear
    };
    lemma_emission_stored(taller, row, residual, blocks, columns, n);
    assert(after.blocks.len() == old + n);
    assert forall|b: int, r: int, c: int| 0 <= b < old implies #[trigger] stored_at(after, b, r, c)
        == stored_at(linear, b, r, c) by {
        let block = linear.blocks[b];
        assert(after.blocks[b] == block);
        if block.row <= r < block.row + block.rows && block.col <= c < block.col + block.cols {
            lemma_entry_index(
                block.rows as nat,
                block.cols as nat,
                r - block.row,
                c - block.col,
            );
            let t = block.start + (c - block.col) * block.rows + (r - block.row);
            assert(after.values.take(linear.values.len() as int)[t] == linear.values[t]);
        }
    }
    assert forall|r: int, c: int| 0 <= r < after.rows implies #[trigger] jacobian(after, r, c)
        == if r < linear.rows {
        jacobian(linear, r, c)
    } else {
        emitted_at(blocks, columns, n, r - linear.rows, c)
    } by {
        lemma_dense_split(linear, after, row as int, blocks, columns, n, r, c);
        if r < linear.rows {
            let f = |k: int|
                spot(
                    blocks[k].values,
                    0,
                    0,
                    columns[k] as int,
                    blocks[k].rows as int,
                    blocks[k].cols as int,
                    r - row,
                    c,
                );
            lemma_sum_zero(n, f);
            lemma_plus(jacobian(linear, r, c), zero, zero);
        } else {
            let f = |b: int| stored_at(linear, b, r, c);
            lemma_sum_zero(old, f);
            lemma_plus(emitted_at(blocks, columns, n, r - row, c), zero, zero);
        }
    }
    if separate(linear) {
        assert forall|b: int, k: int|
            0 <= b < after.blocks.len() && 0 <= k < after.blocks.len() && b
                != k implies #[trigger] separated(after, b, k) by {
            if b >= old {
                assert(after.blocks[old + (b - old)].row == row);
            } else {
                assert(after.blocks[b] == linear.blocks[b]);
            }
            if k >= old {
                assert(after.blocks[old + (k - old)].row == row);
            } else {
                assert(after.blocks[k] == linear.blocks[k]);
            }
            if b < old && k < old {
                assert(separated(linear, b, k));
                assert(aligned(after, b, k) == aligned(linear, b, k));
                if aligned(linear, b, k) && linear.blocks[b].rows != 0 {
                    lemma_apart_same(
                        stored(linear, b),
                        stored(linear, k),
                        stored(after, b),
                        stored(after, k),
                        linear.blocks[b].col as int,
                        linear.blocks[k].col as int,
                    );
                }
            } else if b >= old && k >= old {
                lemma_apart_same(
                    panel_spec(blocks[b - old]),
                    panel_spec(blocks[k - old]),
                    stored(after, b),
                    stored(after, k),
                    columns[b - old] as int,
                    columns[k - old] as int,
                );
            }
        }
    }
    if sloped(linear) {
        assert forall|c: int| 0 <= c < after.cols implies #[trigger] after.gradient[c] == sum(
            after.rows as int,
            |r: int| jacobian(after, r, c).times_spec(after.negative_residual[r].negate_spec()),
        ) by {
            lemma_gradient_stacks(linear, after, residual, blocks, columns, c);
        }
    }
}

proof fn lemma_apart_same<R>(
    a: PanelView<R>,
    b: PanelView<R>,
    p: PanelView<R>,
    q: PanelView<R>,
    x: int,
    y: int,
)
    requires
        apart(a, x, b, y),
        a.cols == p.cols,
        b.cols == q.cols,
    ensures
        apart(p, x, q, y),
{
    assert forall|c: int| !(x <= c < x + p.cols && #[trigger] column_of(c, y, q.cols as int)) by {
        assert(!(x <= c < x + a.cols && column_of(c, y, b.cols as int)));
    }
}

proof fn lemma_gradient_stacks<R: Real>(
    linear: LinearView<R>,
    after: LinearView<R>,
    residual: Seq<R>,
    blocks: Seq<BlockView<R>>,
    columns: Seq<usize>,
    c: int,
)
    requires
        ring::<R>(),
        sloped(linear),
        after.rows == linear.rows + residual.len(),
        0 <= c < linear.cols,
        forall|r: int|
            0 <= r < linear.rows ==> #[trigger] after.negative_residual[r]
                == linear.negative_residual[r],
        forall|q: int|
            0 <= q < residual.len() ==> #[trigger] after.negative_residual[linear.rows + q]
                == residual[q].negate_spec(),
        forall|r: int|
            0 <= r < after.rows ==> #[trigger] jacobian(after, r, c) == if r < linear.rows {
                jacobian(linear, r, c)
            } else {
                emitted_at(blocks, columns, blocks.len() as int, r - linear.rows, c)
            },
        after.gradient[c] == linear.gradient[c].plus_spec(
            sum(
                residual.len() as int,
                |q: int|
                    emitted_at(blocks, columns, blocks.len() as int, q, c).times_spec(residual[q]),
            ),
        ),
    ensures
        after.gradient[c] == sum(
            after.rows as int,
            |r: int| jacobian(after, r, c).times_spec(after.negative_residual[r].negate_spec()),
        ),
{
    let rows = linear.rows as int;
    let total = after.rows as int;
    let zero = R::zero_spec();
    let n = blocks.len() as int;
    let all = |r: int| jacobian(after, r, c).times_spec(after.negative_residual[r].negate_spec());
    let upper = |r: int| if r < rows { all(r) } else { zero };
    let lower = |r: int| if r < rows { zero } else { all(r) };
    assert forall|r: int| 0 <= r < total implies #[trigger] all(r) == upper(r).plus_spec(
        lower(r),
    ) by {
        lemma_plus(all(r), zero, zero);
    }
    lemma_sum_plus(total, upper, lower, all);
    let above = |r: int|
        jacobian(linear, r, c).times_spec(linear.negative_residual[r].negate_spec());
    assert forall|r: int| 0 <= r < rows implies #[trigger] above(r) == upper(0 + r) by {
        assert(after.negative_residual[r] == linear.negative_residual[r]);
    }
    lemma_sum_window(total, 0, rows, upper, above);
    let below = |q: int| emitted_at(blocks, columns, n, q, c).times_spec(residual[q]);
    assert forall|q: int| 0 <= q < residual.len() implies #[trigger] below(q) == lower(
        rows + q,
    ) by {
        assert(after.negative_residual[rows + q] == residual[q].negate_spec());
        lemma_negate(residual[q], residual[q]);
        assert(jacobian(after, rows + q, c) == emitted_at(blocks, columns, n, q, c));
    }
    lemma_sum_window(total, rows, residual.len() as int, lower, below);
}

/// A model without rows has all of these properties.
pub proof fn lemma_empty_model<R: Real>(cols: nat)
    ensures
        placed(LinearView::<R>::empty(cols)),
        separate(LinearView::<R>::empty(cols)),
        sloped(LinearView::<R>::empty(cols)),
{
}

/// Cached Jacobians and dense normal equations gather the same information: from the same rows
/// both matrices grow by the same amount on and below the diagonal.
pub proof fn lemma_information_gathers_alike<R: Real>(
    linear: LinearView<R>,
    matrix: NormalView<R>,
    residual: Seq<R>,
    blocks: Seq<BlockView<R>>,
    columns: Seq<usize>,
    i: int,
    j: int,
)
    requires
        ring::<R>(),
        placed(linear),
        separate(linear),
        linear.cols <= usize::MAX,
        matrix.wf(),
        matrix.dimension == linear.cols,
        emission_fits(linear.cols, residual, blocks, columns),
        linear.extended(residual, blocks, columns) is Ok,
        linear.extended(residual, blocks, columns)->Ok_0.values.len() <= usize::MAX,
        0 <= j <= i < linear.cols,
        matrix.at(i, j) == information_of(linear, linear.blocks.len() as int).at(i, j),
    ensures
        ({
            let after = linear.extended(residual, blocks, columns)->Ok_0;
            matrix.with_blocks(residual, blocks, columns, blocks.len() as int).at(i, j)
                == information_of(after, after.blocks.len() as int).at(i, j)
        }),
{
    let after = linear.extended(residual, blocks, columns)->Ok_0;
    let n = blocks.len() as int;
    let rows = linear.rows as int;
    let total = after.rows as int;
    let zero = R::zero_spec();
    lemma_model_stacks_rows(linear, residual, blocks, columns);
    lemma_information_of_jacobian(linear);
    lemma_information_of_jacobian(after);
    lemma_blocks_at(matrix, residual, blocks, columns, n, i, j);
    assert(information_of(linear, linear.blocks.len() as int).at(i, j) == sum(
        rows,
        |r: int| jacobian(linear, r, i).times_spec(jacobian(linear, r, j)),
    ));
    let all = |r: int| jacobian(after, r, i).times_spec(jacobian(after, r, j));
    let upper = |r: int| if r < rows { all(r) } else { zero };
    let lower = |r: int| if r < rows { zero } else { all(r) };
    assert forall|r: int| 0 <= r < total implies #[trigger] all(r) == upper(r).plus_spec(
        lower(r),
    ) by {
        lemma_plus(all(r), zero, zero);
    }
    lemma_sum_plus(total, upper, lower, all);
    let above = |r: int| jacobian(linear, r, i).times_spec(jacobian(linear, r, j));
    assert forall|r: int| 0 <= r < rows implies #[trigger] above(r) == upper(0 + r) by {
        assert(jacobian(after, r, i) == jacobian(linear, r, i));
        assert(jacobian(after, r, j) == jacobian(linear, r, j));
    }
    lemma_sum_window(total, 0, rows, upper, above);
    let below = |q: int|
        emitted_at(blocks, columns, n, q, i).times_spec(emitted_at(blocks, columns, n, q, j));
    assert forall|q: int| 0 <= q < residual.len() implies #[trigger] below(q) == lower(
        rows + q,
    ) by {
        assert(jacobian(after, rows + q, i) == emitted_at(blocks, columns, n, q, i));
        assert(jacobian(after, rows + q, j) == emitted_at(blocks, columns, n, q, j));
    }
    lemma_sum_window(total, rows, residual.len() as int, lower, below);
    assert(information_of(after, after.blocks.len() as int).at(i, j) == sum(total, all));
}

proof fn lemma_minus_products<R: Real>(a: Seq<R>, b: Seq<R>, n: int)
    requires
        ring::<R>(),
    ensures
        minus_products(R::zero_spec(), a, b, n) == sum(
            n,
            |c: int| a[c].times_spec(b[c]),
        ).negate_spec(),
    decreases n,
{
    let term = |c: int| a[c].times_spec(b[c]);
    if n <= 0 {
        lemma_negate(R::zero_spec(), R::zero_spec());
    } else {
        lemma_minus_products(a, b, n - 1);
        lemma_negate(sum(n - 1, term), term(n - 1));
        lemma_plus(sum(n - 1, term).negate_spec(), term(n - 1), term(n - 1));
    }
}

proof fn lemma_minus_half_squares<R: Real>(value: R, x: Seq<R>, n: int)
    requires
        ring::<R>(),
    ensures
        minus_half_squares(value, x, n) == value.minus_spec(
            sum(n, |r: int| R::ratio_spec(1, 2).times_spec(x[r]).times_spec(x[r])),
        ),
    decreases n,
{
    let term = |r: int| R::ratio_spec(1, 2).times_spec(x[r]).times_spec(x[r]);
    if n <= 0 {
        lemma_plus(value, R::zero_spec(), R::zero_spec());
        lemma_negate(R::zero_spec(), R::zero_spec());
    } else {
        lemma_minus_half_squares(value, x, n - 1);
        let (a, b) = (sum(n - 1, term), term(n - 1));
        lemma_plus(value, a, b);
        lemma_plus(value.minus_spec(a), b, b);
        lemma_plus(value, a.negate_spec(), b.negate_spec());
        lemma_negate(a, b);
        lemma_plus(value, a.plus_spec(b), b);
    }
}

/// Half the square of a sum.
proof fn lemma_half_square<R: Real>(a: R, b: R)
    requires
        ordered_field::<R>(),
    ensures
        R::ratio_spec(1, 2).times_spec(a.plus_spec(b)).times_spec(a.plus_spec(b))
            == R::ratio_spec(1, 2).times_spec(a).times_spec(a).plus_spec(
            R::ratio_spec(1, 2).times_spec(b).times_spec(b),
        ).plus_spec(a.times_spec(b)),
{
    let h = R::ratio_spec(1, 2);
    lemma_small_ratios::<R>();
    lemma_times(h, a, b);
    lemma_square_of_sums(h.times_spec(a), a, h.times_spec(b), b);
    lemma_times(h, b, a);
    lemma_times(b, a, a);
    lemma_times(h, h, a.times_spec(b));
    lemma_times(a.times_spec(b), h, h);
}

/// The decrease that a model predicts for a step is what the step takes off half the squared
/// length of the residual: from `r` to `J step + r`.
pub proof fn lemma_predicted_decrease<R: Real>(linear: LinearView<R>, step: Seq<R>)
    requires
        ordered_field::<R>(),
        placed(linear),
        sloped(linear),
    ensures
        ({
            let half = R::ratio_spec(1, 2);
            let r = |i: int| linear.negative_residual[i].negate_spec();
            let moved = |i: int|
                sum(
                    linear.cols as int,
                    |c: int| jacobian(linear, i, c).times_spec(step[c]),
                ).plus_spec(r(i));
            linear.predicted(step) == sum(
                linear.rows as int,
                |i: int| half.times_spec(r(i)).times_spec(r(i)),
            ).minus_spec(
                sum(linear.rows as int, |i: int| half.times_spec(moved(i)).times_spec(moved(i))),
            )
        }),
{
    let rows = linear.rows as int;
    let cols = linear.cols as int;
    let zero = R::zero_spec();
    let half = R::ratio_spec(1, 2);
    let r = |i: int| linear.negative_residual[i].negate_spec();
    let residual = Seq::new(linear.rows, r);
    let product = linear.product(step);
    let moved = |i: int|
        sum(cols, |c: int| jacobian(linear, i, c).times_spec(step[c])).plus_spec(r(i));
    let start = |i: int| half.times_spec(r(i)).times_spec(r(i));
    let end = |i: int| half.times_spec(moved(i)).times_spec(moved(i));
    let squares = |i: int| half.times_spec(product[i]).times_spec(product[i]);
    let cross = |i: int| product[i].times_spec(residual[i]);
    let both = |i: int| squares(i).plus_spec(start(i));
    lemma_products_of_jacobian(linear, step, residual);
    assert forall|i: int| 0 <= i < rows implies #[trigger] end(i) == both(i).plus_spec(
        cross(i),
    ) by {
        assert(product[i].plus_spec(r(i)) == moved(i));
        lemma_half_square(product[i], r(i));
    }
    lemma_sum_plus(rows, both, cross, end);
    lemma_sum_plus(rows, squares, start, both);
    // The gradient is the transpose applied to the residual.
    assert forall|c: int| 0 <= c < cols implies #[trigger] linear.gradient[c]
        == linear.transposed(residual)[c] by {
        lemma_sum_same(
            rows,
            |i: int| jacobian(linear, i, c).times_spec(residual[i]),
            |i: int|
                jacobian(linear, i, c).times_spec(linear.negative_residual[i].negate_spec()),
        );
    }
    lemma_transpose_is_adjoint(linear, step, residual);
    let pulls = |c: int| linear.gradient[c].times_spec(step[c]);
    assert forall|c: int| 0 <= c < cols implies #[trigger] pulls(c) == (|c: int|
        step[c].times_spec(linear.transposed(residual)[c]))(c) by {
        lemma_times(linear.gradient[c], step[c], step[c]);
    }
    lemma_sum_same(cols, pulls, |c: int| step[c].times_spec(linear.transposed(residual)[c]));
    lemma_minus_products(linear.gradient, step, cols);
    lemma_sum_same(cols, pulls, |c: int| linear.gradient[c].times_spec(step[c]));
    let g = sum(cols, pulls);
    assert(g == sum(rows, cross)) by {
        lemma_sum_same(rows, cross, |i: int| linear.product(step)[i].times_spec(residual[i]));
    }
    lemma_minus_half_squares(g.negate_spec(), product, rows);
    lemma_sum_same(
        rows,
        squares,
        |i: int| R::ratio_spec(1, 2).times_spec(product[i]).times_spec(product[i]),
    );
    let (q, f) = (sum(rows, squares), sum(rows, start));
    let e = sum(rows, end);
    assert(e == q.plus_spec(f).plus_spec(g));
    // f - (q + f + g) == -g - q
    lemma_plus(q, f, g);
    lemma_plus(f, q, g);
    lemma_plus(f, g, q);
    lemma_plus(q, f.plus_spec(g), g);
    lemma_plus(g, q, q);
    assert(e == f.plus_spec(g.plus_spec(q))) by {
        lemma_plus(f.plus_spec(g), q, q);
    }
    let rest = g.plus_spec(q);
    lemma_negate(f, rest);
    lemma_plus(f, e, e);
    lemma_plus(f, f.negate_spec(), rest.negate_spec());
    lemma_plus(rest.negate_spec(), zero, zero);
    lemma_negate(g, q);
    lemma_plus(g.negate_spec(), q, q);
    lemma_sum_same(rows, start, |i: int| half.times_spec(r(i)).times_spec(r(i)));
    lemma_sum_same(rows, end, |i: int| half.times_spec(moved(i)).times_spec(moved(i)));
}

/// What a model leaves of the damped normal equations after a step: `J^T (J step + r)` and the
/// damping of each coordinate, by the square of its scale.
pub proof fn lemma_normal_residual<R: Real>(
    linear: LinearView<R>,
    step: Seq<R>,
    scales: Seq<R>,
    lambda: R,
    c: int,
)
    requires
        ring::<R>(),
        placed(linear),
        0 <= c < linear.cols,
    ensures
        linear.normal_residual(step, scales, lambda)[c] == sum(
            linear.rows as int,
            |i: int|
                jacobian(linear, i, c).times_spec(
                    sum(
                        linear.cols as int,
                        |k: int| jacobian(linear, i, k).times_spec(step[k]),
                    ).plus_spec(linear.negative_residual[i].negate_spec()),
                ),
        ).plus_spec(lambda.times_spec(scales[c].times_spec(scales[c]).times_spec(step[c]))),
{
    let rows = linear.rows as int;
    let y = linear.remainder(step);
    lemma_products_of_jacobian(linear, step, y);
    let f = |i: int| jacobian(linear, i, c).times_spec(y[i]);
    let g = |i: int|
        jacobian(linear, i, c).times_spec(
            sum(
                linear.cols as int,
                |k: int| jacobian(linear, i, k).times_spec(step[k]),
            ).plus_spec(linear.negative_residual[i].negate_spec()),
        );
    assert forall|i: int| 0 <= i < rows implies #[trigger] f(i) == g(i) by {
        lemma_plus(linear.product(step)[i], linear.negative_residual[i], step[i]);
    }
    lemma_sum_same(rows, f, g);
    assert(linear.transposed(y)[c] == sum(rows, f));
    let (d, s) = (scales[c], step[c]);
    lemma_times(lambda, d.times_spec(s), d);
    lemma_times(d, s, d);
    lemma_times(d, d, s);
    lemma_times(s, d, d);
}

/// Lengths are the square roots of sums of squares.
pub open spec fn lengths<R: Real>() -> bool {
    forall|a: R, b: R| #[trigger]
        a.hypot_spec(b).times_spec(a.hypot_spec(b)) == a.times_spec(a).plus_spec(b.times_spec(b))
}

proof fn lemma_column_hypot<R: Real>(
    block: RowBlock,
    values: Seq<R>,
    c: int,
    length: R,
    n: int,
)
    requires
        ring::<R>(),
        lengths::<R>(),
    ensures
        ({
            let after = column_hypot(block, values, c, length, n);
            after.times_spec(after) == length.times_spec(length).plus_spec(
                sum(
                    n,
                    |k: int|
                        block.entry(values, k, c - block.col).times_spec(
                            block.entry(values, k, c - block.col),
                        ),
                ),
            )
        }),
    decreases n,
{
    let term = |k: int|
        block.entry(values, k, c - block.col).times_spec(block.entry(values, k, c - block.col));
    let square = length.times_spec(length);
    if n <= 0 {
        lemma_plus(square, square, square);
    } else {
        lemma_column_hypot(block, values, c, length, n - 1);
        let before = column_hypot(block, values, c, length, n - 1);
        let last = block.entry(values, n - 1, c - block.col);
        assert(before.hypot_spec(last).times_spec(before.hypot_spec(last)) == before.times_spec(
            before,
        ).plus_spec(last.times_spec(last)));
        lemma_plus(square, sum(n - 1, term), term(n - 1));
    }
}

proof fn lemma_column_norm<R: Real>(linear: LinearView<R>, c: int, n: int)
    requires
        ring::<R>(),
        lengths::<R>(),
        placed(linear),
        separate(linear),
        0 <= c < linear.cols,
        n <= linear.blocks.len(),
    ensures
        ({
            let norm = column_norm(linear.blocks, linear.values, c, n);
            norm.times_spec(norm) == sum(
                linear.rows as int,
                |r: int| dense(linear, n, r, c).times_spec(dense(linear, n, r, c)),
            )
        }),
    decreases n,
{
    let rows = linear.rows as int;
    let zero = R::zero_spec();
    let all = |r: int| dense(linear, n, r, c).times_spec(dense(linear, n, r, c));
    lemma_times_zero(zero);
    if n <= 0 {
        assert forall|r: int| 0 <= r < rows implies #[trigger] all(r) == zero by {}
        lemma_sum_zero(rows, all);
    } else {
        let b = n - 1;
        let block = linear.blocks[b];
        lemma_column_norm(linear, c, b);
        let before = |r: int| dense(linear, b, r, c).times_spec(dense(linear, b, r, c));
        let last = |r: int| stored_at(linear, b, r, c).times_spec(stored_at(linear, b, r, c));
        assert forall|r: int| 0 <= r < rows implies #[trigger] all(r) == before(r).plus_spec(
            last(r),
        ) by {
            lemma_dense_step(linear, n, r, c);
            let d = dense(linear, b, r, c);
            if block.has_row(r) && block.has_col(c) {
                lemma_alone(linear, b, b, r, c);
                lemma_plus(stored_at(linear, b, r, c), zero, zero);
                lemma_plus(last(r), zero, zero);
            } else {
                lemma_plus(d, zero, zero);
                lemma_plus(before(r), zero, zero);
            }
        }
        lemma_sum_plus(rows, before, last, all);
        let norm = column_norm(linear.blocks, linear.values, c, b);
        if block.has_col(c) {
            lemma_column_hypot(block, linear.values, c, norm, block.rows as int);
            let term = |k: int|
                block.entry(linear.values, k, c - block.col).times_spec(
                    block.entry(linear.values, k, c - block.col),
                );
            assert forall|k: int| 0 <= k < block.rows implies #[trigger] term(k) == last(
                block.row + k,
            ) by {}
            lemma_sum_window(rows, block.row as int, block.rows as int, last, term);
        } else {
            assert forall|r: int| 0 <= r < rows implies #[trigger] last(r) == zero by {}
            lemma_sum_zero(rows, last);
            lemma_plus(sum(rows, before), zero, zero);
        }
    }
}

/// Where one block has a coefficient, the others have none.
proof fn lemma_alone<R: Real>(linear: LinearView<R>, b: int, n: int, r: int, c: int)
    requires
        ring::<R>(),
        separate(linear),
        0 <= n <= b < linear.blocks.len(),
        linear.blocks[b].has_row(r),
        linear.blocks[b].has_col(c),
    ensures
        dense(linear, n, r, c) == R::zero_spec(),
    decreases n,
{
    if n > 0 {
        let k = n - 1;
        lemma_alone(linear, b, k, r, c);
        lemma_dense_step(linear, n, r, c);
        lemma_plus(R::zero_spec(), R::zero_spec(), R::zero_spec());
        assert(separated(linear, b, k));
        let other = linear.blocks[k];
        if aligned(linear, b, k) {
            let panel = stored(linear, k);
            assert(apart(
                stored(linear, b),
                linear.blocks[b].col as int,
                panel,
                other.col as int,
            ));
            assert(column_of(c, other.col as int, panel.cols as int) == other.has_col(c));
            assert(!other.has_col(c));
        } else {
            assert(!other.has_row(r));
        }
        assert(stored_at(linear, k, r, c) == R::zero_spec());
    }
}

/// The lengths that scale the damping are those of the columns of the Jacobian, raised to a
/// floor where they are below it.
pub proof fn lemma_scales_are_column_lengths<R: Real>(linear: LinearView<R>, floor: R, c: int)
    requires
        ordered_field::<R>(),
        lengths::<R>(),
        placed(linear),
        separate(linear),
        linear.scales(floor) is Ok,
        0 <= c < linear.cols,
    ensures
        ({
            let length = linear.column_norms()[c];
            let scale = linear.scales(floor)->Ok_0[c];
            &&& length.times_spec(length) == sum(
                linear.rows as int,
                |r: int| jacobian(linear, r, c).times_spec(jacobian(linear, r, c)),
            )
            &&& R::zero_spec().below_spec(floor)
            &&& floor.at_most_spec(scale)
            &&& length.at_most_spec(scale)
            &&& scale == length || scale == floor
        }),
{
    let n = linear.blocks.len() as int;
    lemma_column_norm(linear, c, n);
    lemma_sum_same(
        linear.rows as int,
        |r: int| dense(linear, n, r, c).times_spec(dense(linear, n, r, c)),
        |r: int| jacobian(linear, r, c).times_spec(jacobian(linear, r, c)),
    );
    let length = linear.column_norms()[c];
    lemma_order(length, floor, floor);
    lemma_order(floor, length, length);
    lemma_order(R::zero_spec(), floor, floor);
    lemma_order(floor, R::zero_spec(), floor);
}

} // verus!
