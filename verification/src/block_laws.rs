//! What Gram matrices of variable blocks and their factors are.
use crate::algebra::{
    lemma_plus, lemma_sum_same, lemma_sum_zero, lemma_times, ordered_at, ordered_field, ring, sum,
};
use crate::block_factors::{
    gram_dot, in_lower, lemma_square_offset, BlockFactors, GramView, VariableBlock,
};
use crate::direct_laws::{
    factors, is_exact, lemma_cholesky_solves, low, row_times, solves_lower, solves_upper, symmetric,
};
use crate::kernels::{lower_triangle, Triangular};
use crate::linear_model::RowBlock;
use crate::scalar::Real;
use vstd::prelude::*;

verus! {

/// What a Jacobian block adds to an entry of the Gram matrix of a variable: the product of two of
/// its columns, each divided by its scale, where it is a block of that variable.
pub open spec fn share<R: Real>(
    block: RowBlock,
    variable: VariableBlock,
    values: Seq<R>,
    scales: Seq<R>,
    row: int,
    col: int,
) -> R {
    if block.col == variable.col && block.cols == variable.width {
        sum(
            block.rows as int,
            |r: int|
                values[block.start + col * block.rows + r].over_spec(
                    scales[variable.col + col],
                ).times_spec(
                    values[block.start + row * block.rows + r].over_spec(
                        scales[variable.col + row],
                    ),
                ),
        )
    } else {
        R::zero_spec()
    }
}

/// Every variable owns its columns, and matrices are stored one after the other.
pub open spec fn owns<R: Real>(grams: GramView<R>) -> bool {
    &&& grams.blocks.len() <= grams.gram.len() <= usize::MAX
    &&& forall|v: int|
        0 <= v < grams.blocks.len() ==> {
            &&& (#[trigger] grams.blocks[v]).width > 0
            &&& grams.blocks[v].col + grams.blocks[v].width <= grams.owners.len()
            &&& grams.blocks[v].start + grams.blocks[v].width * grams.blocks[v].width
                <= grams.gram.len()
        }
    &&& forall|v: int, c: int|
        0 <= v < grams.blocks.len() && grams.blocks[v].col <= c < grams.blocks[v].col
            + grams.blocks[v].width ==> #[trigger] owned(grams, v, c)
    &&& forall|c: int|
        0 <= c < grams.owners.len() ==> (#[trigger] grams.owners[c] matches Some(v) ==> v
            < grams.blocks.len() && grams.blocks[v as int].col <= c < grams.blocks[v as int].col
            + grams.blocks[v as int].width)
    &&& forall|a: int, b: int|
        0 <= a < b < grams.blocks.len() ==> (#[trigger] grams.blocks[a]).start
            + grams.blocks[a].width * grams.blocks[a].width <= (#[trigger] grams.blocks[b]).start
}

/// A variable owns a column.
pub open spec fn owned<R: Real>(grams: GramView<R>, v: int, c: int) -> bool {
    grams.owners[c] == Some(v as usize)
}

/// A Jacobian block with columns is a block of one of the variables.
pub open spec fn belongs<R: Real>(grams: GramView<R>, block: RowBlock) -> bool {
    block.cols > 0 ==> exists|v: int|
        0 <= v < grams.blocks.len() && (#[trigger] grams.blocks[v]).col == block.col
            && grams.blocks[v].width == block.cols
}

/// An entry on or below the diagonal of the Gram matrix of a variable.
pub open spec fn gram_at<R: Real>(grams: GramView<R>, v: int, row: int, col: int) -> R {
    grams.gram[grams.blocks[v].start + col * grams.blocks[v].width + row]
}

proof fn lemma_gram_dot<R: Real>(
    block: RowBlock,
    values: Seq<R>,
    scales: Seq<R>,
    left: int,
    right: int,
    n: int,
)
    ensures
        gram_dot(block, values, scales, left, right, n) == sum(
            n,
            |r: int|
                values[block.start + left * block.rows + r].over_spec(
                    scales[block.col + left],
                ).times_spec(
                    values[block.start + right * block.rows + r].over_spec(
                        scales[block.col + right],
                    ),
                ),
        ),
    decreases n,
{
    if n > 0 {
        lemma_gram_dot(block, values, scales, left, right, n - 1);
    }
}

/// Variables that own a column in common are one.
proof fn lemma_one_owner<R: Real>(grams: GramView<R>, a: int, b: int)
    requires
        owns(grams),
        0 <= a < grams.blocks.len(),
        0 <= b < grams.blocks.len(),
        grams.blocks[a].col == grams.blocks[b].col,
    ensures
        a == b,
{
    assert(owned(grams, a, grams.blocks[a].col as int));
    assert(owned(grams, b, grams.blocks[b].col as int));
}

proof fn lemma_registered<R: Real>(grams: GramView<R>, block: RowBlock)
    requires
        owns(grams),
        block.cols > 0,
        grams.owners.len() <= usize::MAX,
        grams.assigned(block) is Ok,
    ensures
        ({
            let (after, id) = grams.assigned(block)->Ok_0;
            &&& owns(after)
            &&& after.owners.len() == grams.owners.len()
            &&& id < after.blocks.len()
            &&& grams.blocks.len() <= after.blocks.len()
            &&& after.blocks[id as int].col == block.col
            &&& after.blocks[id as int].width == block.cols
            &&& forall|v: int|
                0 <= v < grams.blocks.len() ==> #[trigger] after.blocks[v] == grams.blocks[v]
            &&& forall|k: int| 0 <= k < grams.gram.len() ==> after.gram[k] == grams.gram[k]
            &&& forall|k: int|
                grams.gram.len() <= k < after.gram.len() ==> after.gram[k] == R::zero_spec()
            &&& forall|v: int|
                grams.blocks.len() <= v < after.blocks.len() ==> v == id && (
                #[trigger] after.blocks[v]).start == grams.gram.len() && forall|w: int|
                    0 <= w < grams.blocks.len() ==> (#[trigger] grams.blocks[w]).col != block.col
        }),
{
    let (after, id) = grams.assigned(block)->Ok_0;
    match grams.owners[block.col as int] {
        Some(owner) => {
        },
        None => {
            assert(block.cols * block.cols >= 1) by (nonlinear_arith)
                requires
                    block.cols >= 1,
            ;
            assert forall|v: int, c: int|
                0 <= v < after.blocks.len() && after.blocks[v].col <= c < after.blocks[v].col
                    + after.blocks[v].width implies #[trigger] owned(after, v, c) by {
                if v < grams.blocks.len() {
                    assert(owned(grams, v, c));
                    assert(after.blocks[v] == grams.blocks[v]);
                    if block.has_col(c) {
                        assert(grams.owners[c] is Some);
                    }
                }
            }
            assert forall|w: int| 0 <= w < grams.blocks.len() implies (#[trigger] grams.blocks[w]).col
                != block.col by {
                assert(owned(grams, w, grams.blocks[w].col as int));
            }
        },
    }
}

proof fn lemma_added<R: Real>(
    grams: GramView<R>,
    block: RowBlock,
    values: Seq<R>,
    scales: Seq<R>,
    id: usize,
    v: int,
    row: int,
    col: int,
)
    requires
        owns(grams),
        id < grams.blocks.len(),
        grams.blocks[id as int].width == block.cols,
        0 <= v < grams.blocks.len(),
        0 <= col <= row < grams.blocks[v].width,
    ensures
        gram_at(grams.added(block, values, scales, id), v, row, col) == if v == id {
            gram_at(grams, v, row, col).plus_spec(
                gram_dot(block, values, scales, col, row, block.rows as int),
            )
        } else {
            gram_at(grams, v, row, col)
        },
{
    let width = grams.blocks[v].width as int;
    let start = grams.blocks[v].start as int;
    lemma_square_offset(col, row, width);
    let offset = col * width + row;
    assert(grams.blocks[v].start + grams.blocks[v].width * grams.blocks[v].width
        <= grams.gram.len());
    if v != id {
        let other = grams.blocks[id as int];
        let k = start + offset - other.start;
        if v < id {
            assert(grams.blocks[v].start + width * width <= other.start);
        } else {
            assert(other.start + other.width * other.width <= grams.blocks[v].start);
        }
        assert(!in_lower(k, block.cols as int));
    } else {
        assert(in_lower(offset, width));
    }
}

/// The Gram matrices of variables gather the products of normalized columns of all Jacobian
/// blocks that belong to them, and every block with columns belongs to one.
pub proof fn lemma_gram_matrices<R: Real>(
    cols: nat,
    blocks: Seq<RowBlock>,
    values: Seq<R>,
    scales: Seq<R>,
    n: int,
)
    requires
        ring::<R>(),
        cols <= usize::MAX,
        0 <= n <= blocks.len(),
        GramView::<R>::empty(cols).run(blocks, values, scales, n) is Ok,
    ensures
        ({
            let grams = GramView::<R>::empty(cols).run(blocks, values, scales, n)->Ok_0;
            &&& owns(grams)
            &&& grams.owners.len() == cols
            &&& forall|b: int| 0 <= b < n ==> belongs(grams, #[trigger] blocks[b])
            &&& forall|v: int, row: int, col: int|
                0 <= v < grams.blocks.len() && 0 <= col <= row < grams.blocks[v].width
                    ==> #[trigger] gram_at(grams, v, row, col) == sum(
                    n,
                    |b: int| share(blocks[b], grams.blocks[v], values, scales, row, col),
                )
        }),
    decreases n,
{
    let empty = GramView::<R>::empty(cols);
    if n > 0 {
        lemma_gram_matrices(cols, blocks, values, scales, n - 1);
        let before = empty.run(blocks, values, scales, n - 1)->Ok_0;
        let block = blocks[n - 1];
        let after = empty.run(blocks, values, scales, n)->Ok_0;
        if block.cols == 0 {
            assert forall|v: int, row: int, col: int|
                0 <= v < after.blocks.len() && 0 <= col <= row
                    < after.blocks[v].width implies #[trigger] gram_at(after, v, row, col) == sum(
                n,
                |b: int| share(blocks[b], after.blocks[v], values, scales, row, col),
            ) by {
                let f = |b: int| share(blocks[b], after.blocks[v], values, scales, row, col);
                assert(gram_at(before, v, row, col) == sum(n - 1, f));
                assert(f(n - 1) == R::zero_spec());
                lemma_plus(sum(n - 1, f), R::zero_spec(), R::zero_spec());
            }
        } else {
            lemma_registered(before, block);
            let (found, id) = before.assigned(block)->Ok_0;
            assert(after == found.added(block, values, scales, id));
            assert forall|b: int| 0 <= b < n implies belongs(after, #[trigger] blocks[b]) by {
                if b < n - 1 {
                    if blocks[b].cols > 0 {
                        assert(belongs(before, blocks[b]));
                        let v = choose|v: int|
                            0 <= v < before.blocks.len() && (#[trigger] before.blocks[v]).col
                                == blocks[b].col && before.blocks[v].width == blocks[b].cols;
                        assert(after.blocks[v] == before.blocks[v]);
                    }
                } else {
                    assert(after.blocks[id as int].col == block.col);
                }
            }
            assert(owns(after)) by {
                assert forall|v: int, c: int|
                    0 <= v < after.blocks.len() && after.blocks[v].col <= c < after.blocks[v].col
                        + after.blocks[v].width implies #[trigger] owned(after, v, c) by {
                    assert(owned(found, v, c));
                }
            }
            assert forall|v: int, row: int, col: int|
                0 <= v < after.blocks.len() && 0 <= col <= row
                    < after.blocks[v].width implies #[trigger] gram_at(after, v, row, col) == sum(
                n,
                |b: int| share(blocks[b], after.blocks[v], values, scales, row, col),
            ) by {
                let f = |b: int| share(blocks[b], after.blocks[v], values, scales, row, col);
                let width = after.blocks[v].width as int;
                lemma_added(found, block, values, scales, id, v, row, col);
                lemma_gram_dot(block, values, scales, col, row, block.rows as int);
                lemma_square_offset(col, row, width);
                assert(found.blocks[v].start + found.blocks[v].width * found.blocks[v].width
                    <= found.gram.len());
                if v < before.blocks.len() {
                    assert(found.blocks[v] == before.blocks[v]);
                    assert(before.blocks[v].start + before.blocks[v].width
                        * before.blocks[v].width <= before.gram.len());
                    assert(gram_at(before, v, row, col) == sum(n - 1, f));
                    assert(gram_at(found, v, row, col) == gram_at(before, v, row, col));
                } else {
                    assert forall|b: int| 0 <= b < n - 1 implies #[trigger] f(b)
                        == R::zero_spec() by {
                        if blocks[b].cols > 0 {
                            assert(belongs(before, blocks[b]));
                        }
                    }
                    lemma_sum_zero(n - 1, f);
                    assert(gram_at(found, v, row, col) == R::zero_spec());
                }
                if v == id {
                    assert(f(n - 1) == gram_dot(
                        block,
                        values,
                        scales,
                        col,
                        row,
                        block.rows as int,
                    ));
                } else {
                    if after.blocks[v].col == block.col {
                        lemma_one_owner(found, v, id as int);
                    }
                    assert(f(n - 1) == R::zero_spec());
                    lemma_plus(sum(n - 1, f), R::zero_spec(), R::zero_spec());
                }
            }
        }
    }
}

/// An entry of the damped Gram matrix of a variable.
pub open spec fn damped_at<R: Real>(grams: GramView<R>, v: int, lambda: R, row: int, col: int) -> R {
    if row == col {
        gram_at(grams, v, row, col).plus_spec(lambda)
    } else if col < row {
        gram_at(grams, v, row, col)
    } else {
        gram_at(grams, v, col, row)
    }
}

/// The factor of a block that did not fail is the Cholesky factor of its Gram matrix with the
/// damping on the diagonal.
pub proof fn lemma_block_factor<R: Real, K: Triangular<R>>(
    blocks: BlockFactors<R>,
    kernel: K,
    lambda: R,
    n: int,
    b: int,
)
    requires
        ring::<R>(),
        is_exact::<R, K>(kernel),
        owns(blocks.grams()),
        blocks.factored(kernel, lambda, n),
        0 <= b < n <= blocks.blocks@.len(),
        !blocks.blocks@[b].fallback,
    ensures
        ({
            let width = blocks.blocks@[b].width;
            let damped = lower_triangle(width as nat, blocks.grams().damped(b, lambda));
            &&& factors(width as int, damped, blocks.block_factor(b))
            &&& forall|row: int, col: int|
                0 <= row < width && 0 <= col < width ==> #[trigger] symmetric(damped, row, col)
                    == damped_at(blocks.grams(), b, lambda, row, col)
        }),
{
    let width = blocks.blocks@[b].width as int;
    let grams = blocks.grams();
    let input = grams.damped(b, lambda);
    let damped = lower_triangle(width as nat, input);
    assert(blocks.blocks@[b].fallback == grams.fails(kernel, b, lambda));
    assert(kernel.cholesky_spec(blocks.blocks@[b].width, damped) == Some(blocks.block_factor(b)));
    assert forall|row: int, col: int|
        0 <= row < width && 0 <= col < width implies #[trigger] symmetric(damped, row, col)
        == damped_at(grams, b, lambda, row, col) by {
        if col <= row {
            lemma_square_offset(col, row, width);
        } else {
            lemma_square_offset(row, col, width);
        }
    }
}

/// A coordinate among some that start at `offset` that lies in one of the first `n` blocks.
pub open spec fn reached<R: Real>(blocks: BlockFactors<R>, offset: int, n: int, i: int) -> bool {
    exists|b: int| 0 <= b < n && #[trigger] within(blocks, offset, b, i)
}

/// A coordinate among some that start at `offset` that lies in a block.
pub open spec fn within<R: Real>(blocks: BlockFactors<R>, offset: int, b: int, i: int) -> bool {
    blocks.blocks@[b].col <= offset + i < blocks.blocks@[b].col + blocks.blocks@[b].width
}

proof fn lemma_disjoint<R: Real>(blocks: BlockFactors<R>, offset: int, a: int, b: int, i: int)
    requires
        owns(blocks.grams()),
        0 <= a < blocks.blocks@.len(),
        0 <= b < blocks.blocks@.len(),
        within(blocks, offset, a, i),
        within(blocks, offset, b, i),
    ensures
        a == b,
{
    assert(owned(blocks.grams(), a, offset + i));
    assert(owned(blocks.grams(), b, offset + i));
}

/// The row of a block's damped equations.
pub open spec fn block_row<R: Real>(
    blocks: BlockFactors<R>,
    lambda: R,
    b: int,
    at: int,
    x: Seq<R>,
    row: int,
) -> R {
    sum(
        blocks.blocks@[b].width as int,
        |j: int| damped_at(blocks.grams(), b, lambda, row, j).times_spec(x[at + j]),
    )
}

proof fn lemma_eliminated<R: Real, K: Triangular<R>>(
    blocks: BlockFactors<R>,
    kernel: K,
    rhs: Seq<R>,
    offset: int,
    lambda: R,
    n: int,
)
    requires
        ring::<R>(),
        is_exact::<R, K>(kernel),
        owns(blocks.grams()),
        blocks.factored(kernel, lambda, blocks.blocks@.len() as int),
        blocks.separates(offset, rhs.len() as int),
        0 <= offset,
        0 <= n <= blocks.blocks@.len(),
        forall|b: int| 0 <= b < blocks.blocks@.len() ==> !(#[trigger] blocks.blocks@[b]).fallback,
    ensures
        ({
            let x = blocks.eliminated(kernel, rhs, offset, n);
            &&& x.len() == rhs.len()
            &&& forall|i: int|
                0 <= i < rhs.len() && !reached(blocks, offset, n, i) ==> #[trigger] x[i] == rhs[i]
            &&& forall|b: int, row: int|
                0 <= b < n && offset <= blocks.blocks@[b].col < offset + rhs.len() && 0 <= row
                    < blocks.blocks@[b].width ==> #[trigger] block_row(
                    blocks,
                    lambda,
                    b,
                    blocks.blocks@[b].col - offset,
                    x,
                    row,
                ) == rhs[blocks.blocks@[b].col - offset + row]
        }),
    decreases n,
{
    if n > 0 {
        lemma_eliminated(blocks, kernel, rhs, offset, lambda, n - 1);
        let before = blocks.eliminated(kernel, rhs, offset, n - 1);
        let block = blocks.blocks@[n - 1];
        let x = blocks.eliminated(kernel, rhs, offset, n);
        let at = block.col - offset;
        let width = block.width as int;
        assert forall|i: int|
            0 <= i < rhs.len() && !reached(blocks, offset, n, i) implies #[trigger] x[i]
            == rhs[i] by {
            assert(!within(blocks, offset, n - 1, i));
            assert(!reached(blocks, offset, n - 1, i)) by {
                if reached(blocks, offset, n - 1, i) {
                    let b = choose|b: int| 0 <= b < n - 1 && #[trigger] within(blocks, offset, b, i);
                    assert(within(blocks, offset, b, i));
                }
            }
            assert(before[i] == rhs[i]);
        }
        if offset <= block.col < offset + rhs.len() {
            let part = before.subrange(at, at + width);
            let factor = blocks.block_factor(n - 1);
            let triangle = lower_triangle(width as nat, factor);
            let solution = kernel.upper_spec(
                block.width,
                triangle,
                kernel.lower_spec(block.width, triangle, part, 1),
                1,
            );
            lemma_block_factor(blocks, kernel, lambda, blocks.blocks@.len() as int, n - 1);
            let damped = lower_triangle(width as nat, blocks.grams().damped(n - 1, lambda));
            assert(blocks.blocks@[n - 1].col + blocks.blocks@[n - 1].width <= offset + rhs.len());
            assert forall|i: int| 0 <= i < rhs.len() && within(blocks, offset, n - 1, i) implies before[i]
                == rhs[i] by {
                assert(!reached(blocks, offset, n - 1, i)) by {
                    if reached(blocks, offset, n - 1, i) {
                        let b = choose|b: int|
                            0 <= b < n - 1 && #[trigger] within(blocks, offset, b, i);
                        lemma_disjoint(blocks, offset, b, n - 1, i);
                    }
                }
            }
            assert forall|b: int, row: int|
                0 <= b < n && offset <= blocks.blocks@[b].col < offset + rhs.len() && 0 <= row
                    < blocks.blocks@[b].width implies #[trigger] block_row(
                blocks,
                lambda,
                b,
                blocks.blocks@[b].col - offset,
                x,
                row,
            ) == rhs[blocks.blocks@[b].col - offset + row] by {
                if b == n - 1 {
                    lemma_cholesky_solves(kernel, block.width, damped, factor, part, row);
                    let f = |j: int|
                        damped_at(blocks.grams(), b, lambda, row, j).times_spec(x[at + j]);
                    let a = |i: int, j: int| symmetric(damped, i, j);
                    let y = |j: int| solution[j];
                    let g = |j: int| a(row, j).times_spec(y(j));
                    assert(part[row] == row_times(width, a, row, y));
                    assert(part[row] == sum(width, g));
                    assert forall|j: int| 0 <= j < width implies #[trigger] f(j) == g(j) by {
                        assert(symmetric(damped, row, j) == a(row, j));
                    }
                    lemma_sum_same(width, f, g);
                    assert(within(blocks, offset, b, at + row));
                } else {
                    let other = blocks.blocks@[b].col - offset;
                    assert(block_row(blocks, lambda, b, other, before, row) == rhs[other + row]);
                    let f = |j: int|
                        damped_at(blocks.grams(), b, lambda, row, j).times_spec(x[other + j]);
                    let g = |j: int|
                        damped_at(blocks.grams(), b, lambda, row, j).times_spec(before[other + j]);
                    assert forall|j: int| 0 <= j < blocks.blocks@[b].width implies #[trigger] f(j)
                        == g(j) by {
                        assert(blocks.blocks@[b].col + blocks.blocks@[b].width <= offset
                            + rhs.len());
                        assert(within(blocks, offset, b, other + j));
                        if within(blocks, offset, n - 1, other + j) {
                            lemma_disjoint(blocks, offset, b, n - 1, other + j);
                        }
                    }
                    lemma_sum_same(blocks.blocks@[b].width as int, f, g);
                }
            }
        }
    }
}

/// The inverse damped normal blocks take numbers to where the damped Gram matrices take them from,
/// block by block; a coordinate that no block owns is divided by the damping, if there is any.
pub proof fn lemma_blocks_solve<R: Real, K: Triangular<R>>(
    blocks: BlockFactors<R>,
    kernel: K,
    rhs: Seq<R>,
    offset: int,
    lambda: R,
)
    requires
        ordered_field::<R>(),
        is_exact::<R, K>(kernel),
        owns(blocks.grams()),
        blocks.factored(kernel, lambda, blocks.blocks@.len() as int),
        blocks.separates(offset, rhs.len() as int),
        0 <= offset,
        offset + rhs.len() <= blocks.owners@.len(),
        forall|b: int| 0 <= b < blocks.blocks@.len() ==> !(#[trigger] blocks.blocks@[b]).fallback,
    ensures
        ({
            let x = blocks.solved(kernel, rhs, offset, lambda);
            &&& x.len() == rhs.len()
            &&& forall|b: int, row: int|
                0 <= b < blocks.blocks@.len() && offset <= blocks.blocks@[b].col < offset
                    + rhs.len() && 0 <= row < blocks.blocks@[b].width ==> #[trigger] block_row(
                    blocks,
                    lambda,
                    b,
                    blocks.blocks@[b].col - offset,
                    x,
                    row,
                ) == rhs[blocks.blocks@[b].col - offset + row]
            &&& forall|i: int|
                0 <= i < rhs.len() && blocks.owners@[offset + i] is None ==> if lambda
                    == R::zero_spec() {
                    #[trigger] x[i] == rhs[i]
                } else {
                    lambda.times_spec(x[i]) == rhs[i]
                }
        }),
{
    let n = blocks.blocks@.len() as int;
    let before = blocks.eliminated(kernel, rhs, offset, n);
    let x = blocks.solved(kernel, rhs, offset, lambda);
    lemma_eliminated(blocks, kernel, rhs, offset, lambda, n);
    assert forall|b: int, row: int|
        0 <= b < n && offset <= blocks.blocks@[b].col < offset + rhs.len() && 0 <= row
            < blocks.blocks@[b].width implies #[trigger] block_row(
        blocks,
        lambda,
        b,
        blocks.blocks@[b].col - offset,
        x,
        row,
    ) == rhs[blocks.blocks@[b].col - offset + row] by {
        let at = blocks.blocks@[b].col - offset;
        let f = |j: int| damped_at(blocks.grams(), b, lambda, row, j).times_spec(x[at + j]);
        let g = |j: int| damped_at(blocks.grams(), b, lambda, row, j).times_spec(before[at + j]);
        assert(block_row(blocks, lambda, b, at, before, row) == rhs[at + row]);
        assert(blocks.blocks@[b].col + blocks.blocks@[b].width <= offset + rhs.len());
        assert forall|j: int| 0 <= j < blocks.blocks@[b].width implies #[trigger] f(j) == g(j) by {
            assert(owned(blocks.grams(), b, offset + at + j));
        }
        lemma_sum_same(blocks.blocks@[b].width as int, f, g);
    }
    assert forall|i: int| 0 <= i < rhs.len() && blocks.owners@[offset + i] is None implies if lambda
        == R::zero_spec() {
        #[trigger] x[i] == rhs[i]
    } else {
        lambda.times_spec(x[i]) == rhs[i]
    } by {
        assert(!reached(blocks, offset, n, i)) by {
            if reached(blocks, offset, n, i) {
                let b = choose|b: int| 0 <= b < n && #[trigger] within(blocks, offset, b, i);
                assert(owned(blocks.grams(), b, offset + i));
            }
        }
        assert(before[i] == rhs[i]);
        assert(ordered_at(lambda, R::zero_spec(), lambda));
        assert(ordered_at(lambda, lambda, lambda));
        assert(ordered_at(rhs[i], lambda, lambda));
        lemma_times(lambda, x[i], lambda);
    }
}

/// An entry of the factor of a block, or of its transpose.
pub open spec fn factor_at<R: Real>(
    blocks: BlockFactors<R>,
    b: int,
    transpose: bool,
    row: int,
    k: int,
) -> R {
    let triangle = lower_triangle(blocks.blocks@[b].width as nat, blocks.block_factor(b));
    if transpose {
        low(triangle, row, k)
    } else {
        low(triangle, k, row)
    }
}

/// A row of the factor of a block, or of its transpose, times numbers.
pub open spec fn factor_row<R: Real>(
    blocks: BlockFactors<R>,
    b: int,
    transpose: bool,
    x: Seq<R>,
    row: int,
) -> R {
    sum(
        blocks.blocks@[b].width as int,
        |k: int|
            factor_at(blocks, b, transpose, row, k).times_spec(x[blocks.blocks@[b].col + k]),
    )
}

/// Preconditioning by block factors solves by the transpose of each factor, and the transpose of
/// it by the factor itself. Coordinates of failed blocks and those of none stay as they are.
pub proof fn lemma_blocks_transform<R: Real, K: Triangular<R>>(
    blocks: BlockFactors<R>,
    kernel: K,
    rhs: Seq<R>,
    transpose: bool,
    lambda: R,
    n: int,
)
    requires
        ring::<R>(),
        is_exact::<R, K>(kernel),
        owns(blocks.grams()),
        blocks.factored(kernel, lambda, blocks.blocks@.len() as int),
        rhs.len() == blocks.owners@.len(),
        0 <= n <= blocks.blocks@.len(),
    ensures
        ({
            let x = blocks.transformed(kernel, rhs, transpose, n);
            &&& x.len() == rhs.len()
            &&& forall|i: int|
                0 <= i < rhs.len() && (forall|b: int|
                    0 <= b < n && #[trigger] within(blocks, 0, b, i)
                        ==> blocks.blocks@[b].fallback) ==> #[trigger] x[i] == rhs[i]
            &&& forall|b: int, row: int|
                0 <= b < n && !blocks.blocks@[b].fallback && 0 <= row < blocks.blocks@[b].width
                    ==> #[trigger] factor_row(blocks, b, transpose, x, row)
                    == rhs[blocks.blocks@[b].col + row]
        }),
    decreases n,
{
    if n > 0 {
        lemma_blocks_transform(blocks, kernel, rhs, transpose, lambda, n - 1);
        let before = blocks.transformed(kernel, rhs, transpose, n - 1);
        let x = blocks.transformed(kernel, rhs, transpose, n);
        let block = blocks.blocks@[n - 1];
        let at = block.col as int;
        let width = block.width as int;
        assert(blocks.grams().blocks[n - 1] == block);
        assert forall|i: int|
            0 <= i < rhs.len() && (forall|b: int|
                0 <= b < n && #[trigger] within(blocks, 0, b, i)
                    ==> blocks.blocks@[b].fallback) implies #[trigger] x[i] == rhs[i] by {
            assert(within(blocks, 0, n - 1, i) ==> block.fallback);
            assert(before[i] == rhs[i]);
        }
        if !block.fallback {
            let part = before.subrange(at, at + width);
            let triangle = lower_triangle(width as nat, blocks.block_factor(n - 1));
            lemma_block_factor(blocks, kernel, lambda, blocks.blocks@.len() as int, n - 1);
            let solution = if transpose {
                kernel.lower_spec(block.width, triangle, part, 1)
            } else {
                kernel.upper_spec(block.width, triangle, part, 1)
            };
            assert(width * 1 == width);
            assert(solves_lower(
                width,
                triangle,
                part,
                1,
                kernel.lower_spec(block.width, triangle, part, 1),
            ));
            assert(solves_upper(
                width,
                triangle,
                part,
                1,
                kernel.upper_spec(block.width, triangle, part, 1),
            ));
            assert(solution.len() == width);
            assert forall|i: int| 0 <= i < rhs.len() && within(blocks, 0, n - 1, i) implies before[i]
                == rhs[i] by {
                assert forall|b: int| 0 <= b < n - 1 && #[trigger] within(
                    blocks,
                    0,
                    b,
                    i,
                ) implies blocks.blocks@[b].fallback by {
                    lemma_disjoint(blocks, 0, b, n - 1, i);
                }
            }
            assert forall|b: int, row: int|
                0 <= b < n && !blocks.blocks@[b].fallback && 0 <= row
                    < blocks.blocks@[b].width implies #[trigger] factor_row(
                blocks,
                b,
                transpose,
                x,
                row,
            ) == rhs[blocks.blocks@[b].col + row] by {
                let f = |k: int|
                    factor_at(blocks, b, transpose, row, k).times_spec(
                        x[blocks.blocks@[b].col + k],
                    );
                if b == n - 1 {
                    assert(within(blocks, 0, b, at + row));
                    assert(part[0 * width + row] == rhs[at + row]);
                    let l = |r: int, k: int| low(triangle, r, k);
                    let u = |r: int, k: int| low(triangle, k, r);
                    let y = |k: int| solution[0 * width + k];
                    if transpose {
                        assert(part[0 * width + row] == row_times(width, l, row, y));
                        let g = |k: int| l(row, k).times_spec(y(k));
                        assert forall|k: int| 0 <= k < width implies #[trigger] f(k) == g(k) by {
                            assert(within(blocks, 0, b, at + k));
                        }
                        lemma_sum_same(width, f, g);
                    } else {
                        assert(part[0 * width + row] == row_times(width, u, row, y));
                        let g = |k: int| u(row, k).times_spec(y(k));
                        assert forall|k: int| 0 <= k < width implies #[trigger] f(k) == g(k) by {
                            assert(within(blocks, 0, b, at + k));
                        }
                        lemma_sum_same(width, f, g);
                    }
                } else {
                    let g = |k: int|
                        factor_at(blocks, b, transpose, row, k).times_spec(
                            before[blocks.blocks@[b].col + k],
                        );
                    assert(factor_row(blocks, b, transpose, before, row)
                        == rhs[blocks.blocks@[b].col + row]);
                    assert(blocks.grams().blocks[b] == blocks.blocks@[b]);
                    assert forall|k: int| 0 <= k < blocks.blocks@[b].width implies #[trigger] f(k)
                        == g(k) by {
                        assert(within(blocks, 0, b, blocks.blocks@[b].col + k));
                        if within(blocks, 0, n - 1, blocks.blocks@[b].col + k) {
                            lemma_disjoint(blocks, 0, b, n - 1, blocks.blocks@[b].col + k);
                        }
                    }
                    lemma_sum_same(blocks.blocks@[b].width as int, f, g);
                }
            }
        }
    }
}

} // verus!
