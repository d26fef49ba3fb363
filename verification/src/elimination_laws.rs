//! What elimination keeps: the least cost that the eliminated coordinates allow.
use crate::algebra::{
    lemma_order, lemma_plus, lemma_plus_order, lemma_square_order, lemma_sum_plus, lemma_sum_same,
    lemma_sum_swap, lemma_sum_window, lemma_sum_zero, lemma_times, lemma_times_zero, ordered_at,
    ordered_field, ring, sum,
};
use crate::elimination::{
    cell, factored_spec, leftover, rank_from, rank_spec, reduced_spec, reorders, separated,
    MatrixView, PivotedQr, RowsView,
};
use crate::linearization::BlockView;
use crate::matrix_laws::{apart, column_of, emission_fits};
use crate::normal::panel_spec;
use crate::priors::PriorView;
use crate::scalar::Real;
use vstd::prelude::*;

verus! {

/// What a residual costs.
pub open spec fn half_square<R: Real>(value: R) -> R {
    R::ratio_spec(1, 2).times_spec(value).times_spec(value)
}

/// A row of a table with weights on its columns from `from` to before `to`.
pub open spec fn line<R: Real>(
    entry: spec_fn(int, int) -> R,
    i: int,
    from: int,
    to: int,
    weights: spec_fn(int) -> R,
) -> R {
    sum(to - from, |j: int| entry(i, from + j).times_spec(weights(from + j)))
}

/// What the rows of a table from `row` to before `rows` cost with weights on columns.
pub open spec fn table_cost<R: Real>(
    entry: spec_fn(int, int) -> R,
    row: int,
    rows: int,
    from: int,
    to: int,
    weights: spec_fn(int) -> R,
) -> R {
    sum(rows - row, |i: int| half_square(line(entry, row + i, from, to, weights)))
}

/// The entries of a matrix.
pub open spec fn entries<R: Real>(matrix: MatrixView<R>) -> spec_fn(int, int) -> R {
    |i: int, j: int| matrix.at(i, j)
}

/// The entries of a matrix, some columns of which stand for a triangle from a row on.
pub open spec fn triangle<R: Real>(matrix: MatrixView<R>, row: int, column: int, width: int) -> spec_fn(
    int,
    int,
) -> R {
    |i: int, j: int|
        if column <= j < column + width && i - row > j - column {
            R::zero_spec()
        } else {
            matrix.at(i, j)
        }
}

/// Weights that follow columns to their places in an order.
pub open spec fn rearranged<R: Real>(
    weights: spec_fn(int) -> R,
    column: int,
    order: Seq<usize>,
) -> spec_fn(int) -> R {
    |j: int|
        if column <= j < column + order.len() {
            weights(column + order[j - column])
        } else {
            weights(j)
        }
}

/// A factorization keeps what rows cost, whatever the weights.
pub open spec fn keeps_cost<R: Real>(
    before: MatrixView<R>,
    after: MatrixView<R>,
    order: Seq<usize>,
    row: int,
    column: int,
    width: nat,
) -> bool {
    forall|weights: spec_fn(int) -> R| #[trigger]
        table_cost(entries(before), row, before.rows as int, column, before.cols as int, weights)
            == table_cost(
            triangle(after, row, column, width as int),
            row,
            before.rows as int,
            column,
            before.cols as int,
            rearranged(weights, column, order),
        )
}

/// A kernel whose transformations are orthogonal: they keep what rows cost.
pub open spec fn orthogonal<R: Real, Q: PivotedQr<R>>(kernel: Q) -> bool {
    forall|matrix: MatrixView<R>, row: usize, column: usize, width: usize|
        keeps_cost(
            matrix,
            MatrixView {
                values: (#[trigger] kernel.factor_spec(matrix, row, column, width)).0,
                ..matrix
            },
            kernel.factor_spec(matrix, row, column, width).1,
            row as int,
            column as int,
            width as nat,
        )
}

/// What collected rows cost at some coordinates.
pub open spec fn rows_cost<R: Real>(rows: RowsView<R>, x: spec_fn(int) -> R) -> R {
    sum(
        rows.height as int,
        |i: int|
            half_square(
                rows.at(i, rows.dimension as int).plus_spec(
                    sum(rows.dimension as int, |j: int| rows.at(i, j).times_spec(x(j))),
                ),
            ),
    )
}

/// What a prior costs where its coordinates have moved.
pub open spec fn prior_cost<R: Real>(prior: PriorView<R>, moved: spec_fn(int) -> R) -> R {
    sum(
        prior.rows as int,
        |row: int|
            half_square(
                prior.b[row].plus_spec(
                    sum(
                        prior.cols as int,
                        |c: int| prior.a[c * prior.rows + row].times_spec(moved(c)),
                    ),
                ),
            ),
    )
}

/// Nothing is left of the eliminated columns from the first place on the diagonal that does not
/// exceed a tolerance relative to the first place.
pub open spec fn exact<R: Real>(upper: MatrixView<R>, removed: int, tolerance: R) -> bool {
    forall|k: int, i: int, j: int|
        #![trigger upper.at(k, k), upper.at(i, j)]
        0 <= k <= i < upper.rows && i <= j < removed && !upper.at(0, 0).abs_spec().times_spec(
            tolerance,
        ).below_spec(upper.at(k, k).abs_spec()) ==> upper.at(i, j) == R::zero_spec()
}

proof fn lemma_sum_split<R: Real>(n: int, k: int, f: spec_fn(int) -> R, g: spec_fn(int) -> R)
    requires
        ring::<R>(),
        0 <= k <= n,
        forall|i: int| 0 <= i < n - k ==> #[trigger] g(i) == f(k + i),
    ensures
        sum(n, f) == sum(k, f).plus_spec(sum(n - k, g)),
    decreases n,
{
    if n == k {
        lemma_plus(sum(k, f), R::zero_spec(), R::zero_spec());
    } else {
        lemma_sum_split(n - 1, k, f, g);
        assert(g(n - 1 - k) == f(k + (n - 1 - k)));
        lemma_plus(sum(k, f), sum(n - 1 - k, g), f(n - 1));
    }
}

/// A sum does not depend on the order of its terms.
proof fn lemma_sum_reordered<R: Real>(n: int, order: Seq<usize>, f: spec_fn(int) -> R, g: spec_fn(int) -> R)
    requires
        ring::<R>(),
        0 <= n <= usize::MAX,
        reorders(order, n as nat),
        forall|p: int| 0 <= p < n ==> #[trigger] g(p) == f(order[p] as int),
    ensures
        sum(n, g) == sum(n, f),
{
    let grid = |p: int, c: int|
        if order[p] == c {
            f(c)
        } else {
            R::zero_spec()
        };
    let by_place = |p: int| sum(n, |c: int| grid(p, c));
    let by_column = |c: int| sum(n, |p: int| grid(p, c));
    lemma_sum_swap(n, n, grid);
    assert forall|p: int| 0 <= p < n implies #[trigger] g(p) == by_place(p) by {
        let across = |c: int| grid(p, c);
        let one = |k: int| f(order[p] as int);
        assert(order[p] < n);
        lemma_sum_window(n, order[p] as int, 1, across, one);
        assert(sum(1, one) == sum(0, one).plus_spec(one(0)));
        lemma_plus(one(0), one(0), one(0));
    }
    assert forall|c: int| 0 <= c < n implies #[trigger] f(c) == by_column(c) by {
        let down = |p: int| grid(p, c);
        let one = |k: int| f(c);
        assert(order.contains(c as usize));
        let p = choose|p: int| 0 <= p < order.len() && order[p] == c as usize;
        assert forall|q: int| 0 <= q < n && !(p <= q < p + 1) implies #[trigger] down(q)
            == R::zero_spec() by {
            assert(order[q] != order[p]);
        }
        lemma_sum_window(n, p, 1, down, one);
        assert(sum(1, one) == sum(0, one).plus_spec(one(0)));
        lemma_plus(one(0), one(0), one(0));
    }
    lemma_sum_same(n, g, by_place);
    lemma_sum_same(n, f, by_column);
}

proof fn lemma_line_same<R: Real>(
    a: spec_fn(int, int) -> R,
    b: spec_fn(int, int) -> R,
    i: int,
    from: int,
    to: int,
    v: spec_fn(int) -> R,
    w: spec_fn(int) -> R,
)
    requires
        forall|j: int| from <= j < to ==> #[trigger] a(i, j) == b(i, j),
        forall|j: int| from <= j < to ==> #[trigger] v(j) == w(j),
    ensures
        line(a, i, from, to, v) == line(b, i, from, to, w),
{
    let f = |j: int| a(i, from + j).times_spec(v(from + j));
    let g = |j: int| b(i, from + j).times_spec(w(from + j));
    assert forall|j: int| 0 <= j < to - from implies #[trigger] f(j) == g(j) by {
        assert(a(i, from + j) == b(i, from + j));
        assert(v(from + j) == w(from + j));
    }
    lemma_sum_same(to - from, f, g);
}

proof fn lemma_cost_same<R: Real>(
    a: spec_fn(int, int) -> R,
    b: spec_fn(int, int) -> R,
    row: int,
    rows: int,
    from: int,
    to: int,
    v: spec_fn(int) -> R,
    w: spec_fn(int) -> R,
)
    requires
        forall|i: int, j: int|
            row <= i < rows && from <= j < to ==> #[trigger] a(i, j) == b(i, j),
        forall|j: int| from <= j < to ==> #[trigger] v(j) == w(j),
    ensures
        table_cost(a, row, rows, from, to, v) == table_cost(b, row, rows, from, to, w),
{
    let f = |i: int| half_square(line(a, row + i, from, to, v));
    let g = |i: int| half_square(line(b, row + i, from, to, w));
    assert forall|i: int| 0 <= i < rows - row implies #[trigger] f(i) == g(i) by {
        lemma_line_same(a, b, row + i, from, to, v, w);
    }
    lemma_sum_same(rows - row, f, g);
}

proof fn lemma_factored_keeps_cost<R: Real, Q: PivotedQr<R>>(
    kernel: Q,
    matrix: MatrixView<R>,
    row: int,
    column: int,
    width: nat,
)
    requires
        ordered_field::<R>(),
        orthogonal::<R, Q>(kernel),
        0 <= row <= usize::MAX,
        0 <= column,
        column + width <= usize::MAX,
        column + width <= matrix.cols,
        factored_spec(kernel, matrix, row, column, width) is Ok,
    ensures
        ({
            let (after, order) = factored_spec(kernel, matrix, row, column, width)->Ok_0;
            &&& after.rows == matrix.rows
            &&& after.cols == matrix.cols
            &&& reorders(order, width)
            &&& keeps_cost(matrix, after, order, row, column, width)
        }),
{
    let (after, order) = factored_spec(kernel, matrix, row, column, width)->Ok_0;
    let rows = matrix.rows as int;
    let cols = matrix.cols as int;
    if row >= matrix.rows || width == 0 || matrix.vanishes(row, column, width as int) {
        assert forall|c: usize| c < width implies #[trigger] order.contains(c) by {
            assert(order[c as int] == c);
        }
        let table = triangle(after, row, column, width as int);
        assert forall|weights: spec_fn(int) -> R| #[trigger]
            table_cost(entries(matrix), row, rows, column, cols, weights) == table_cost(
                table,
                row,
                rows,
                column,
                cols,
                rearranged(weights, column, order),
            ) by {
            assert forall|i: int, j: int|
                row <= i < rows && column <= j < cols implies #[trigger] entries(matrix)(i, j)
                == table(i, j) by {
                if column <= j < column + width && i - row > j - column {
                    assert(matrix.at(i, j).same_spec(R::zero_spec()));
                    assert(ordered_at(matrix.at(i, j), R::zero_spec(), R::zero_spec()));
                }
            }
            lemma_cost_same(
                entries(matrix),
                table,
                row,
                rows,
                column,
                cols,
                weights,
                rearranged(weights, column, order),
            );
        }
    } else {
        assert(kernel.factor_spec(matrix, row as usize, column as usize, width as usize).1 == order);
    }
}

/// Rows that are split into those before `k` and those from it on.
proof fn lemma_cost_split<R: Real>(
    entry: spec_fn(int, int) -> R,
    row: int,
    k: int,
    rows: int,
    from: int,
    to: int,
    weights: spec_fn(int) -> R,
)
    requires
        ring::<R>(),
        row <= k <= rows,
    ensures
        table_cost(entry, row, rows, from, to, weights) == table_cost(
            entry,
            row,
            k,
            from,
            to,
            weights,
        ).plus_spec(table_cost(entry, k, rows, from, to, weights)),
{
    let f = |i: int| half_square(line(entry, row + i, from, to, weights));
    let g = |i: int| half_square(line(entry, k + i, from, to, weights));
    assert forall|i: int| 0 <= i < rows - k implies #[trigger] g(i) == f((k - row) + i) by {
        assert(row + ((k - row) + i) == k + i);
    }
    lemma_sum_split(rows - row, k - row, f, g);
}

/// A row whose first columns vanish is the row from the next column on.
proof fn lemma_line_tail<R: Real>(
    entry: spec_fn(int, int) -> R,
    i: int,
    from: int,
    k: int,
    to: int,
    weights: spec_fn(int) -> R,
)
    requires
        ring::<R>(),
        from <= k <= to,
        forall|j: int| from <= j < k ==> #[trigger] entry(i, j) == R::zero_spec(),
    ensures
        line(entry, i, from, to, weights) == line(entry, i, k, to, weights),
{
    let f = |j: int| entry(i, from + j).times_spec(weights(from + j));
    let g = |j: int| entry(i, k + j).times_spec(weights(k + j));
    assert forall|j: int| 0 <= j < to - from && !(k - from <= j < to - from) implies #[trigger] f(j)
        == R::zero_spec() by {
        assert(entry(i, from + j) == R::zero_spec());
        lemma_times_zero(weights(from + j));
    }
    assert forall|j: int| 0 <= j < to - k implies #[trigger] g(j) == f((k - from) + j) by {
        assert(from + ((k - from) + j) == k + j);
    }
    lemma_sum_window(to - from, k - from, to - k, f, g);
}

proof fn lemma_rows_tail<R: Real>(
    a: spec_fn(int, int) -> R,
    b: spec_fn(int, int) -> R,
    row: int,
    rows: int,
    from: int,
    k: int,
    to: int,
    v: spec_fn(int) -> R,
    w: spec_fn(int) -> R,
)
    requires
        ring::<R>(),
        from <= k <= to,
        forall|i: int, j: int|
            row <= i < rows && from <= j < k ==> #[trigger] a(i, j) == R::zero_spec(),
        forall|i: int, j: int| row <= i < rows && k <= j < to ==> #[trigger] a(i, j) == b(i, j),
        forall|j: int| k <= j < to ==> #[trigger] v(j) == w(j),
    ensures
        table_cost(a, row, rows, from, to, v) == table_cost(b, row, rows, k, to, w),
{
    let f = |i: int| half_square(line(a, row + i, from, to, v));
    let g = |i: int| half_square(line(b, row + i, k, to, w));
    assert forall|i: int| 0 <= i < rows - row implies #[trigger] f(i) == g(i) by {
        lemma_line_tail(a, row + i, from, k, to, v);
        lemma_line_same(a, b, row + i, k, to, v, w);
    }
    lemma_sum_same(rows - row, f, g);
}

/// A row with a weight of one on its last column.
proof fn lemma_line_last<R: Real>(
    entry: spec_fn(int, int) -> R,
    i: int,
    from: int,
    last: int,
    weights: spec_fn(int) -> R,
)
    requires
        ring::<R>(),
        from <= last,
        weights(last) == R::one_spec(),
    ensures
        line(entry, i, from, last + 1, weights) == entry(i, last).plus_spec(
            line(entry, i, from, last, weights),
        ),
{
    let f = |j: int| entry(i, from + j).times_spec(weights(from + j));
    assert(sum(last + 1 - from, f) == sum(last - from, f).plus_spec(f(last - from)));
    lemma_times(entry(i, last), R::one_spec(), R::one_spec());
    lemma_plus(entry(i, last), line(entry, i, from, last, weights), R::zero_spec());
}

/// A place in the matrix of collected rows.
proof fn lemma_of_rows<R: Real>(rows: RowsView<R>, i: int, j: int)
    requires
        rows.wf(),
        0 <= i < rows.height,
        0 <= j <= rows.dimension,
    ensures
        MatrixView::of_rows(rows).at(i, j) == rows.at(i, j),
{
    let h = rows.height as int;
    assert(0 <= j * h + i < h * (rows.dimension + 1)) by (nonlinear_arith)
        requires
            0 <= i < h,
            0 <= j <= rows.dimension,
    ;
    vstd::arithmetic::div_mod::lemma_fundamental_div_mod_converse(j * h + i, h, j, i);
}

proof fn lemma_rows_cost<R: Real>(rows: RowsView<R>, x: spec_fn(int) -> R)
    requires
        ring::<R>(),
        rows.wf(),
        x(rows.dimension as int) == R::one_spec(),
    ensures
        rows_cost(rows, x) == table_cost(
            entries(MatrixView::of_rows(rows)),
            0,
            rows.height as int,
            0,
            (rows.dimension + 1) as int,
            x,
        ),
{
    let n = rows.dimension as int;
    let table = entries(MatrixView::of_rows(rows));
    let f = |i: int|
        half_square(
            rows.at(i, n).plus_spec(sum(n, |j: int| rows.at(i, j).times_spec(x(j)))),
        );
    let g = |i: int| half_square(line(table, 0 + i, 0, n + 1, x));
    assert forall|i: int| 0 <= i < rows.height implies #[trigger] f(i) == g(i) by {
        lemma_line_last(table, i, 0, n, x);
        lemma_of_rows(rows, i, n);
        let given = |j: int| rows.at(i, j).times_spec(x(j));
        let held = |j: int| table(i, 0 + j).times_spec(x(0 + j));
        assert forall|j: int| 0 <= j < n implies #[trigger] given(j) == held(j) by {
            lemma_of_rows(rows, i, j);
        }
        lemma_sum_same(n, given, held);
    }
    lemma_sum_same(rows.height as int, f, g);
}

/// What is left of the last column costs what the rows cost whose other columns vanish.
proof fn lemma_leftover<R: Real>(
    matrix: MatrixView<R>,
    table: spec_fn(int, int) -> R,
    column: int,
    from: int,
    to: int,
    weights: spec_fn(int) -> R,
)
    requires
        ring::<R>(),
        column < matrix.cols,
        weights(matrix.cols - 1) == R::one_spec(),
        forall|i: int, j: int|
            from <= i < to && column <= j < matrix.cols - 1 ==> #[trigger] table(i, j)
                == R::zero_spec(),
        forall|i: int|
            from <= i < to ==> #[trigger] table(i, matrix.cols - 1) == matrix.at(
                i,
                matrix.cols - 1,
            ),
    ensures
        leftover(matrix, from, to) == table_cost(
            table,
            from,
            to,
            column,
            matrix.cols as int,
            weights,
        ),
    decreases to - from,
{
    if from < to {
        let last = matrix.cols - 1;
        let f = |i: int| half_square(line(table, from + i, column, matrix.cols as int, weights));
        lemma_leftover(matrix, table, column, from, to - 1, weights);
        assert(sum(to - from, f) == sum(to - 1 - from, f).plus_spec(f(to - 1 - from)));
        lemma_line_last(table, to - 1, column, last, weights);
        lemma_line_tail(table, to - 1, column, last, last, weights);
        assert(table(to - 1, last) == matrix.at(to - 1, last));
        lemma_plus(table(to - 1, last), R::zero_spec(), R::zero_spec());
    }
}

/// The rows of a separated prior cost what the rows that they come from cost.
proof fn lemma_separated_cost<R: Real>(
    matrix: MatrixView<R>,
    removed: nat,
    rank: int,
    order: Seq<usize>,
    x: spec_fn(int) -> R,
)
    requires
        ring::<R>(),
        0 <= rank <= matrix.rows,
        removed < matrix.cols,
        matrix.cols <= usize::MAX,
        reorders(order, (matrix.cols - 1 - removed) as nat),
        x(matrix.cols - 1) == R::one_spec(),
    ensures
        ({
            let separator = matrix.cols - 1 - removed;
            let prior = separated(matrix, removed, rank, order);
            &&& rank + prior.rows <= matrix.rows
            &&& prior.cols == separator
            &&& prior_cost(prior, |c: int| x(removed + c)) == table_cost(
                triangle(matrix, rank, removed as int, separator),
                rank,
                rank + prior.rows,
                removed as int,
                matrix.cols as int,
                rearranged(x, removed as int, order),
            )
        }),
{
    let separator = matrix.cols - 1 - removed;
    let last = matrix.cols - 1;
    let prior = separated(matrix, removed, rank, order);
    let rows = prior.rows as int;
    let table = triangle(matrix, rank, removed as int, separator);
    let weights = rearranged(x, removed as int, order);
    let moved = |c: int| x(removed + c);
    let f = |row: int|
        half_square(
            prior.b[row].plus_spec(
                sum(separator, |c: int| prior.a[c * prior.rows + row].times_spec(moved(c))),
            ),
        );
    let g = |i: int| half_square(line(table, rank + i, removed as int, last + 1, weights));
    assert forall|row: int| 0 <= row < rows implies #[trigger] f(row) == g(row) by {
        lemma_line_last(table, rank + row, removed as int, last, weights);
        let term = |c: int| prior.a[c * prior.rows + row].times_spec(moved(c));
        let placed = |j: int| table(rank + row, removed + j).times_spec(weights(removed + j));
        assert forall|p: int| 0 <= p < separator implies #[trigger] placed(p) == term(
            order[p] as int,
        ) by {
            let c = order[p] as int;
            assert(order[p] < separator);
            assert(0 <= c * rows + row < rows * separator) by (nonlinear_arith)
                requires
                    0 <= row < rows,
                    0 <= c < separator,
            ;
            vstd::arithmetic::div_mod::lemma_fundamental_div_mod_converse(
                c * rows + row,
                rows,
                c,
                row,
            );
            assert(order.contains(order[p]));
            assert(order.index_of(order[p]) == p);
        }
        lemma_sum_reordered(separator, order, term, placed);
        assert(prior.b[row] == table(rank + row, last));
    }
    lemma_sum_same(rows, f, g);
}

/// Weights that agree with others outside the columns from `k` on that have a row of their own,
/// and with which those rows vanish.
proof fn lemma_back_substitution<R: Real>(
    table: spec_fn(int, int) -> R,
    k: int,
    rank: int,
    to: int,
    given: spec_fn(int) -> R,
) -> (found: spec_fn(int) -> R)
    requires
        ordered_field::<R>(),
        0 <= k <= rank <= to,
        forall|i: int, j: int|
            0 <= j < i < rank ==> #[trigger] table(i, j) == R::zero_spec(),
        forall|i: int| 0 <= i < rank ==> #[trigger] table(i, i) != R::zero_spec(),
    ensures
        forall|j: int| !(k <= j < rank) ==> #[trigger] found(j) == given(j),
        forall|i: int|
            k <= i < rank ==> #[trigger] line(table, i, 0, to, found) == R::zero_spec(),
    decreases rank - k,
{
    if k == rank {
        given
    } else {
        let later = lemma_back_substitution(table, k + 1, rank, to, given);
        let zero = R::zero_spec();
        let d = table(k, k);
        let without = |j: int|
            if j == k {
                zero
            } else {
                later(j)
            };
        let rest = line(table, k, 0, to, without);
        let value = rest.negate_spec().over_spec(d);
        let found = |j: int|
            if j == k {
                value
            } else {
                later(j)
            };
        let f = |j: int| table(k, 0 + j).times_spec(without(0 + j));
        let g = |j: int|
            if j == k {
                d.times_spec(value)
            } else {
                zero
            };
        let h = |j: int| table(k, 0 + j).times_spec(found(0 + j));
        assert forall|j: int| 0 <= j < to implies #[trigger] h(j) == f(j).plus_spec(g(j)) by {
            if j == k {
                lemma_times_zero(d);
                lemma_plus(d.times_spec(value), zero, zero);
            } else {
                lemma_plus(f(j), zero, zero);
            }
        }
        lemma_sum_plus(to, f, g, h);
        let one = |j: int| d.times_spec(value);
        lemma_sum_window(to, k, 1, g, one);
        assert(sum(1, one) == sum(0, one).plus_spec(one(0)));
        lemma_plus(one(0), zero, zero);
        assert(ordered_at(rest.negate_spec(), d, d));
        lemma_times(d, value, value);
        lemma_plus(rest, zero, zero);
        assert forall|i: int| k <= i < rank implies #[trigger] line(table, i, 0, to, found)
            == zero by {
            if i > k {
                let a = |j: int| table(i, 0 + j).times_spec(found(0 + j));
                let b = |j: int| table(i, 0 + j).times_spec(later(0 + j));
                assert forall|j: int| 0 <= j < to implies #[trigger] a(j) == b(j) by {
                    if j == k {
                        assert(table(i, k) == zero);
                        lemma_times_zero(value);
                        lemma_times_zero(later(k));
                    }
                }
                lemma_sum_same(to, a, b);
                assert(line(table, i, 0, to, later) == zero);
            }
        }
        found
    }
}

/// The places on the diagonal that count exceed a threshold, and the first that does not count
/// does not.
proof fn lemma_rank<R: Real>(matrix: MatrixView<R>, threshold: R, limit: int, i: int)
    requires
        0 <= i <= limit,
    ensures
        ({
            let rank = rank_from(matrix, threshold, limit, i);
            &&& i <= rank <= limit
            &&& forall|k: int|
                i <= k < rank ==> threshold.below_spec((#[trigger] matrix.at(k, k)).abs_spec())
            &&& rank < limit ==> !threshold.below_spec(matrix.at(rank, rank).abs_spec())
        }),
    decreases limit - i,
{
    if i < limit && threshold.below_spec(matrix.at(i, i).abs_spec()) {
        lemma_rank(matrix, threshold, limit, i + 1);
    }
}

proof fn lemma_cost_positive<R: Real>(
    entry: spec_fn(int, int) -> R,
    row: int,
    rows: int,
    from: int,
    to: int,
    weights: spec_fn(int) -> R,
)
    requires
        ordered_field::<R>(),
    ensures
        R::zero_spec().at_most_spec(table_cost(entry, row, rows, from, to, weights)),
    decreases rows - row,
{
    let zero = R::zero_spec();
    lemma_order(zero, zero, zero);
    if row < rows {
        let f = |i: int| half_square(line(entry, row + i, from, to, weights));
        let value = line(entry, rows - 1, from, to, weights);
        let half = R::ratio_spec(1, 2);
        lemma_cost_positive(entry, row, rows - 1, from, to, weights);
        crate::algebra::lemma_small_ratios::<R>();
        lemma_order(zero, half, half);
        lemma_square_order(value);
        crate::algebra::lemma_times_order(zero, value.times_spec(value), half);
        lemma_times_zero(half);
        lemma_times(half, value, value);
        assert(f(rows - 1 - row) == half_square(value));
        let before = sum(rows - 1 - row, f);
        lemma_plus_order(zero, half_square(value), before);
        lemma_plus(before, zero, zero);
        lemma_order(zero, before, before.plus_spec(half_square(value)));
    }
}

/// What is left has no more rows than the coordinates that stay, and no more than there were beyond
/// those that were eliminated.
pub proof fn lemma_reduced_size<R: Real, Q: PivotedQr<R>>(
    kernel: Q,
    rows: RowsView<R>,
    removed: nat,
    tolerance: Option<R>,
)
    requires
        removed <= rows.dimension,
        reduced_spec(kernel, rows, removed, tolerance) is Ok,
    ensures
        ({
            let reduced = reduced_spec(kernel, rows, removed, tolerance)->Ok_0;
            &&& reduced.rank <= removed
            &&& reduced.prior.cols == rows.dimension - removed
            &&& reduced.prior.rows <= rows.dimension - removed
            &&& reduced.rank + reduced.prior.rows <= rows.height
        }),
{
    let (upper, order) = factored_spec(kernel, MatrixView::of_rows(rows), 0, 0, removed)->Ok_0;
    let scale = if upper.rows > 0 && removed > 0 {
        upper.at(0, 0).abs_spec()
    } else {
        R::zero_spec()
    };
    lemma_rank(
        upper,
        scale.times_spec(crate::elimination::cutoff(tolerance, upper.rows, removed)),
        crate::elimination::smaller(upper.rows as int, removed as int),
        0,
    );
}

/// What rows cost, in parts: the rows that are eliminated, the prior and the constant.
proof fn lemma_parts<R: Real, Q: PivotedQr<R>>(
    kernel: Q,
    rows: RowsView<R>,
    removed: nat,
    tolerance: R,
    x: spec_fn(int) -> R,
)
    requires
        ordered_field::<R>(),
        orthogonal::<R, Q>(kernel),
        rows.wf(),
        rows.dimension < usize::MAX,
        removed <= rows.dimension,
        x(rows.dimension as int) == R::one_spec(),
        reduced_spec(kernel, rows, removed, Some(tolerance)) is Ok,
        exact(
            factored_spec(kernel, MatrixView::of_rows(rows), 0, 0, removed)->Ok_0.0,
            removed as int,
            tolerance,
        ),
    ensures
        ({
            let (upper, order) = factored_spec(
                kernel,
                MatrixView::of_rows(rows),
                0,
                0,
                removed,
            )->Ok_0;
            let reduced = reduced_spec(kernel, rows, removed, Some(tolerance))->Ok_0;
            &&& reorders(order, removed)
            &&& reduced.rank <= removed
            &&& upper.rows == rows.height
            &&& reduced.rank <= upper.rows
            &&& forall|k: int|
                0 <= k < reduced.rank ==> upper.at(0, 0).abs_spec().times_spec(
                    tolerance,
                ).below_spec((#[trigger] upper.at(k, k)).abs_spec())
            &&& rows_cost(rows, x) == table_cost(
                triangle(upper, 0, 0, removed as int),
                0,
                reduced.rank as int,
                0,
                (rows.dimension + 1) as int,
                rearranged(x, 0, order),
            ).plus_spec(
                prior_cost(reduced.prior, |c: int| x(removed + c)).plus_spec(reduced.constant),
            )
        }),
{
    let matrix = MatrixView::of_rows(rows);
    let n = rows.dimension as int;
    let cols = n + 1;
    let height = rows.height as int;
    let separator = (n - removed) as nat;
    let (upper, order) = factored_spec(kernel, matrix, 0, 0, removed)->Ok_0;
    let rank = rank_spec(upper, removed, Some(tolerance));
    let (last, later) = factored_spec(kernel, upper, rank, removed as int, separator)->Ok_0;
    let prior = separated(last, removed, rank, later);
    let weights = rearranged(x, 0, order);
    lemma_factored_keeps_cost(kernel, matrix, 0, 0, removed);
    let scale = if upper.rows > 0 && removed > 0 {
        upper.at(0, 0).abs_spec()
    } else {
        R::zero_spec()
    };
    lemma_rank(
        upper,
        scale.times_spec(tolerance),
        crate::elimination::smaller(upper.rows as int, removed as int),
        0,
    );
    lemma_factored_keeps_cost(kernel, upper, rank, removed as int, separator);
    lemma_rows_cost(rows, x);
    let table = triangle(upper, 0, 0, removed as int);
    assert(table_cost(entries(matrix), 0, height, 0, cols, x) == table_cost(
        table,
        0,
        height,
        0,
        cols,
        weights,
    ));
    lemma_cost_split(table, 0, rank, height, 0, cols, weights);
    assert forall|i: int, j: int|
        rank <= i < height && 0 <= j < removed implies #[trigger] table(i, j)
        == R::zero_spec() by {
        if i <= j {
            assert(upper.at(rank, rank) == upper.at(rank, rank));
            assert(upper.at(i, j) == R::zero_spec());
        }
    }
    lemma_rows_tail(
        table,
        entries(upper),
        rank,
        height,
        0,
        removed as int,
        cols,
        weights,
        x,
    );
    let low = triangle(last, rank, removed as int, separator as int);
    let rest = rearranged(x, removed as int, later);
    assert(table_cost(entries(upper), rank, height, removed as int, cols, x) == table_cost(
        low,
        rank,
        height,
        removed as int,
        cols,
        rest,
    ));
    lemma_separated_cost(last, removed, rank, later, x);
    lemma_cost_split(low, rank, rank + prior.rows, height, removed as int, cols, rest);
    lemma_leftover(last, low, removed as int, rank + prior.rows, height, rest);
}

/// Whatever values the eliminated coordinates take, the rows cost at least what the prior and
/// the constant cost at the coordinates that stay.
pub proof fn lemma_elimination_bounds_cost<R: Real, Q: PivotedQr<R>>(
    kernel: Q,
    rows: RowsView<R>,
    removed: nat,
    tolerance: R,
    x: spec_fn(int) -> R,
)
    requires
        ordered_field::<R>(),
        orthogonal::<R, Q>(kernel),
        rows.wf(),
        rows.dimension < usize::MAX,
        removed <= rows.dimension,
        reduced_spec(kernel, rows, removed, Some(tolerance)) is Ok,
        exact(
            factored_spec(kernel, MatrixView::of_rows(rows), 0, 0, removed)->Ok_0.0,
            removed as int,
            tolerance,
        ),
    ensures
        ({
            let reduced = reduced_spec(kernel, rows, removed, Some(tolerance))->Ok_0;
            prior_cost(reduced.prior, |c: int| x(removed + c)).plus_spec(
                reduced.constant,
            ).at_most_spec(rows_cost(rows, x))
        }),
{
    let n = rows.dimension as int;
    let (upper, order) = factored_spec(kernel, MatrixView::of_rows(rows), 0, 0, removed)->Ok_0;
    let reduced = reduced_spec(kernel, rows, removed, Some(tolerance))->Ok_0;
    let y = with_one(x, n);
    lemma_parts(kernel, rows, removed, tolerance, y);
    lemma_with_one(rows, reduced.prior, removed, x);
    let head = table_cost(
        triangle(upper, 0, 0, removed as int),
        0,
        reduced.rank as int,
        0,
        n + 1,
        rearranged(y, 0, order),
    );
    let left = prior_cost(reduced.prior, |c: int| y(removed + c)).plus_spec(reduced.constant);
    lemma_cost_positive(
        triangle(upper, 0, 0, removed as int),
        0,
        reduced.rank as int,
        0,
        n + 1,
        rearranged(y, 0, order),
    );
    lemma_plus_order(R::zero_spec(), head, left);
    lemma_plus(left, R::zero_spec(), R::zero_spec());
}

/// For all values of the coordinates that stay there are values of the eliminated ones at which
/// the rows cost what the prior and the constant cost.
pub proof fn lemma_elimination_attains_cost<R: Real, Q: PivotedQr<R>>(
    kernel: Q,
    rows: RowsView<R>,
    removed: nat,
    tolerance: R,
    x: spec_fn(int) -> R,
) -> (best: spec_fn(int) -> R)
    requires
        ordered_field::<R>(),
        orthogonal::<R, Q>(kernel),
        rows.wf(),
        rows.dimension < usize::MAX,
        removed <= rows.dimension,
        R::zero_spec().at_most_spec(tolerance),
        reduced_spec(kernel, rows, removed, Some(tolerance)) is Ok,
        exact(
            factored_spec(kernel, MatrixView::of_rows(rows), 0, 0, removed)->Ok_0.0,
            removed as int,
            tolerance,
        ),
    ensures
        forall|j: int| removed <= j < rows.dimension ==> #[trigger] best(j) == x(j),
        ({
            let reduced = reduced_spec(kernel, rows, removed, Some(tolerance))->Ok_0;
            rows_cost(rows, best) == prior_cost(
                reduced.prior,
                |c: int| x(removed + c),
            ).plus_spec(reduced.constant)
        }),
{
    let n = rows.dimension as int;
    let zero = R::zero_spec();
    let (upper, order) = factored_spec(kernel, MatrixView::of_rows(rows), 0, 0, removed)->Ok_0;
    let reduced = reduced_spec(kernel, rows, removed, Some(tolerance))->Ok_0;
    let y = with_one(x, n);
    lemma_parts(kernel, rows, removed, tolerance, y);
    let rank = reduced.rank as int;
    let table = triangle(upper, 0, 0, removed as int);
    assert forall|i: int| 0 <= i < rank implies #[trigger] table(i, i) != zero by {
        let d = upper.at(i, i);
        let first = upper.at(0, 0);
        assert(ordered_at(first, first, first));
        assert(ordered_at(d, d, d));
        lemma_order(first, zero, first);
        crate::algebra::lemma_negate_order(first, zero);
        crate::algebra::lemma_negate(first, first);
        crate::algebra::lemma_times_order(zero, first.abs_spec(), tolerance);
        lemma_times_zero(tolerance);
        lemma_order(zero, first.abs_spec().times_spec(tolerance), d.abs_spec());
    }
    let solved = lemma_back_substitution(table, 0, rank, n + 1, rearranged(y, 0, order));
    let best = |j: int|
        if 0 <= j < removed {
            solved(order.index_of(j as usize))
        } else {
            y(j)
        };
    let weights = rearranged(best, 0, order);
    assert forall|j: int| 0 <= j < n + 1 implies #[trigger] weights(j) == solved(j) by {
        if j < removed {
            assert(order.contains(order[j]));
            assert(order.index_of(order[j]) == j);
            assert(order[j] < removed);
        }
    }
    lemma_parts(kernel, rows, removed, tolerance, best);
    let f = |i: int| half_square(line(table, 0 + i, 0, n + 1, weights));
    assert forall|i: int| 0 <= i < rank implies #[trigger] f(i) == zero by {
        lemma_line_same(table, table, i, 0, n + 1, weights, solved);
        assert(line(table, i, 0, n + 1, solved) == zero);
        lemma_times_zero(R::ratio_spec(1, 2).times_spec(zero));
    }
    lemma_sum_zero(rank, f);
    lemma_with_one(rows, reduced.prior, removed, x);
    lemma_prior_cost_same(
        reduced.prior,
        |c: int| best(removed + c),
        |c: int| x(removed + c),
        (n - removed) as int,
    );
    let left = prior_cost(reduced.prior, |c: int| x(removed + c)).plus_spec(reduced.constant);
    lemma_plus(left, zero, zero);
    best
}

/// Without a tolerance, the cutoff is machine epsilon times the larger dimension of the
/// eliminated columns.
pub proof fn lemma_default_tolerance<R: Real, Q: PivotedQr<R>>(
    kernel: Q,
    rows: RowsView<R>,
    removed: nat,
)
    ensures
        rows.height >= removed && removed >= 1 ==> reduced_spec(kernel, rows, removed, None)
            == reduced_spec(
            kernel,
            rows,
            removed,
            Some(R::epsilon_spec().times_spec(R::ratio_spec(rows.height as u64, 1))),
        ),
        removed > rows.height ==> reduced_spec(kernel, rows, removed, None) == reduced_spec(
            kernel,
            rows,
            removed,
            Some(R::epsilon_spec().times_spec(R::ratio_spec(removed as u64, 1))),
        ),
{
}

/// Coordinates followed by a one for the residual.
spec fn with_one<R: Real>(x: spec_fn(int) -> R, n: int) -> spec_fn(int) -> R {
    |j: int|
        if j == n {
            R::one_spec()
        } else {
            x(j)
        }
}

proof fn lemma_prior_cost_same<R: Real>(
    prior: PriorView<R>,
    v: spec_fn(int) -> R,
    w: spec_fn(int) -> R,
    cols: int,
)
    requires
        prior.cols == cols,
        forall|c: int| 0 <= c < cols ==> #[trigger] v(c) == w(c),
    ensures
        prior_cost(prior, v) == prior_cost(prior, w),
{
    let f = |row: int|
        half_square(
            prior.b[row].plus_spec(
                sum(
                    prior.cols as int,
                    |c: int| prior.a[c * prior.rows + row].times_spec(v(c)),
                ),
            ),
        );
    let g = |row: int|
        half_square(
            prior.b[row].plus_spec(
                sum(
                    prior.cols as int,
                    |c: int| prior.a[c * prior.rows + row].times_spec(w(c)),
                ),
            ),
        );
    assert forall|row: int| 0 <= row < prior.rows implies #[trigger] f(row) == g(row) by {
        lemma_sum_same(
            cols,
            |c: int| prior.a[c * prior.rows + row].times_spec(v(c)),
            |c: int| prior.a[c * prior.rows + row].times_spec(w(c)),
        );
    }
    lemma_sum_same(prior.rows as int, f, g);
}

proof fn lemma_with_one<R: Real>(
    rows: RowsView<R>,
    prior: PriorView<R>,
    removed: nat,
    x: spec_fn(int) -> R,
)
    requires
        prior.cols == rows.dimension - removed,
    ensures
        rows_cost(rows, with_one(x, rows.dimension as int)) == rows_cost(rows, x),
        prior_cost(prior, |c: int| with_one(x, rows.dimension as int)(removed + c)) == prior_cost(
            prior,
            |c: int| x(removed + c),
        ),
{
    let n = rows.dimension as int;
    let y = with_one(x, n);
    lemma_prior_cost_same(
        prior,
        |c: int| y(removed + c),
        |c: int| x(removed + c),
        prior.cols as int,
    );
    let f = |i: int|
        half_square(
            rows.at(i, n).plus_spec(sum(n, |j: int| rows.at(i, j).times_spec(x(j)))),
        );
    let g = |i: int|
        half_square(
            rows.at(i, n).plus_spec(sum(n, |j: int| rows.at(i, j).times_spec(y(j)))),
        );
    assert forall|i: int| 0 <= i < rows.height implies #[trigger] f(i) == g(i) by {
        lemma_sum_same(
            n,
            |j: int| rows.at(i, j).times_spec(x(j)),
            |j: int| rows.at(i, j).times_spec(y(j)),
        );
    }
    lemma_sum_same(rows.height as int, f, g);
}

/// The value that blocks give to a place, if one of them covers it.
proof fn lemma_cell<R: Real>(
    dimension: nat,
    residual: Seq<R>,
    blocks: Seq<BlockView<R>>,
    columns: Seq<usize>,
    row: int,
    col: int,
    n: int,
    k: int,
)
    requires
        emission_fits(dimension, residual, blocks, columns),
        0 <= n <= blocks.len(),
        col < dimension,
    ensures
        0 <= k < n && columns[k] <= col < columns[k] + blocks[k].cols ==> cell(
            dimension,
            residual,
            blocks,
            columns,
            row,
            col,
            n,
        ) == blocks[k].values[(col - columns[k]) * blocks[k].rows + row],
        (forall|l: int|
            0 <= l < n ==> !column_of(
                col,
                (#[trigger] columns[l]) as int,
                blocks[l].cols as int,
            )) ==> cell(dimension, residual, blocks, columns, row, col, n) == R::zero_spec(),
    decreases n,
{
    if n > 0 {
        lemma_cell(dimension, residual, blocks, columns, row, col, n - 1, k);
        if column_of(col, columns[n - 1] as int, blocks[n - 1].cols as int) && 0 <= k < n - 1 {
            let panel = panel_spec(blocks[n - 1]);
            assert(apart(
                panel_spec(blocks[k]),
                columns[k] as int,
                panel,
                columns[n - 1] as int,
            ));
            assert(column_of(col, columns[n - 1] as int, panel.cols as int));
            assert(panel_spec(blocks[k]).cols == blocks[k].cols);
        }
    }
}

/// Collected rows hold each residual behind its row, each block at its column, and zeros
/// where there is no block. The rows before stay as they are.
pub proof fn lemma_collected_rows<R: Real>(
    rows: RowsView<R>,
    residual: Seq<R>,
    blocks: Seq<BlockView<R>>,
    columns: Seq<usize>,
    row: int,
)
    requires
        rows.wf(),
        emission_fits(rows.dimension, residual, blocks, columns),
        rows.extended(residual, blocks, columns) is Ok,
        0 <= row < residual.len(),
    ensures
        ({
            let after = rows.extended(residual, blocks, columns)->Ok_0;
            &&& after.wf()
            &&& after.dimension == rows.dimension
            &&& after.height == rows.height + residual.len()
            &&& after.at(rows.height + row, rows.dimension as int) == residual[row]
            &&& forall|k: int, c: int|
                0 <= k < blocks.len() && 0 <= c < blocks[k].cols ==> after.at(
                    rows.height + row,
                    columns[k] + c,
                ) == #[trigger] blocks[k].values[c * blocks[k].rows + row]
            &&& forall|col: int|
                0 <= col < rows.dimension && (forall|l: int|
                    0 <= l < blocks.len() ==> !column_of(
                        col,
                        (#[trigger] columns[l]) as int,
                        blocks[l].cols as int,
                    )) ==> #[trigger] after.at(rows.height + row, col) == R::zero_spec()
            &&& forall|i: int, j: int|
                0 <= i < rows.height && 0 <= j <= rows.dimension ==> #[trigger] after.at(i, j)
                    == rows.at(i, j)
        }),
{
    let after = rows.extended(residual, blocks, columns)->Ok_0;
    let stride = (rows.dimension + 1) as int;
    let height = rows.height as int;
    let n = blocks.len() as int;
    assert((height + residual.len()) * stride == height * stride + residual.len() * stride)
        by (nonlinear_arith);
    assert forall|col: int| 0 <= col <= rows.dimension implies #[trigger] after.at(
        height + row,
        col,
    ) == cell(rows.dimension, residual, blocks, columns, row, col, n) by {
        assert((height + row) * stride == height * stride + row * stride) by (nonlinear_arith);
        assert(0 <= row * stride + col < residual.len() * stride) by (nonlinear_arith)
            requires
                0 <= row < residual.len(),
                0 <= col < stride,
        ;
        vstd::arithmetic::div_mod::lemma_fundamental_div_mod_converse(
            row * stride + col,
            stride,
            row,
            col,
        );
    }
    assert forall|k: int, c: int| 0 <= k < n && 0 <= c < blocks[k].cols implies after.at(
        height + row,
        columns[k] + c,
    ) == #[trigger] blocks[k].values[c * blocks[k].rows + row] by {
        lemma_cell(rows.dimension, residual, blocks, columns, row, columns[k] + c, n, k);
    }
    assert forall|col: int|
        0 <= col < rows.dimension && (forall|l: int|
            0 <= l < n ==> !column_of(
                col,
                (#[trigger] columns[l]) as int,
                blocks[l].cols as int,
            )) implies #[trigger] after.at(height + row, col) == R::zero_spec() by {
        lemma_cell(rows.dimension, residual, blocks, columns, row, col, n, 0);
    }
    assert forall|i: int, j: int| 0 <= i < height && 0 <= j <= rows.dimension implies #[trigger] after.at(
        i,
        j,
    ) == rows.at(i, j) by {
        assert(0 <= i * stride + j < height * stride) by (nonlinear_arith)
            requires
                0 <= i < height,
                0 <= j < stride,
        ;
    }
}

} // verus!
