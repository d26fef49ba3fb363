//! The cached linearization that matrix-free backends share, and the check of a step
//! against it in the unscaled coordinates.
use crate::backend::{admissible, all_finite, norm_inf};
use crate::error::{EvaluationError, SolverError};
use crate::linearization::{block_views, lemma_entry_index, BlockView, JacobianBlock};
use crate::scalar::Real;
use vstd::prelude::*;

verus! {

/// A dense block of a sparse Jacobian: its place there, and where its coefficients
/// start, stored column by column.
#[derive(Debug, Clone, Copy, PartialEq, Eq, Structural)]
pub struct RowBlock {
    pub row: usize,
    pub col: usize,
    pub rows: usize,
    pub cols: usize,
    pub start: usize,
}

impl RowBlock {
    /// Whether a row of the whole matrix passes through this block.
    pub open spec fn has_row(self, i: int) -> bool {
        self.row <= i < self.row + self.rows
    }

    /// Whether a column of the whole matrix passes through this block.
    pub open spec fn has_col(self, j: int) -> bool {
        self.col <= j < self.col + self.cols
    }

    /// The coefficient in a row and column of this block.
    pub open spec fn entry<R>(self, values: Seq<R>, row: int, col: int) -> R {
        values[self.start + col * self.rows + row]
    }
}

/// A sparse matrix of dense blocks. Blocks may share rows and columns; coefficients at
/// one place add up.
pub struct Jacobian<R> {
    pub rows: usize,
    pub cols: usize,
    pub blocks: Vec<RowBlock>,
    pub values: Vec<R>,
}

/// Blocks that lie within a matrix and its coefficients.
pub open spec fn blocks_fit(rows: int, cols: int, blocks: Seq<RowBlock>, len: int) -> bool {
    forall|b: int|
        0 <= b < blocks.len() ==> {
            &&& (#[trigger] blocks[b]).row + blocks[b].rows <= rows
            &&& blocks[b].col + blocks[b].cols <= cols
            &&& blocks[b].start + blocks[b].rows * blocks[b].cols <= len
        }
}

/// A running sum extended by the first `n` products of a block's row with a vector.
pub open spec fn row_dot<R: Real>(
    block: RowBlock,
    values: Seq<R>,
    rhs: Seq<R>,
    i: int,
    sum: R,
    n: int,
) -> R
    decreases n,
{
    if n <= 0 {
        sum
    } else {
        row_dot(block, values, rhs, i, sum, n - 1).plus_spec(
            block.entry(values, i - block.row, n - 1).times_spec(rhs[block.col + n - 1]),
        )
    }
}

/// Row `i` of the product of the first `n` blocks with a vector.
pub open spec fn row_product<R: Real>(
    blocks: Seq<RowBlock>,
    values: Seq<R>,
    rhs: Seq<R>,
    i: int,
    n: int,
) -> R
    decreases n,
{
    if n <= 0 {
        R::zero_spec()
    } else {
        let before = row_product(blocks, values, rhs, i, n - 1);
        if blocks[n - 1].has_row(i) {
            row_dot(blocks[n - 1], values, rhs, i, before, blocks[n - 1].cols as int)
        } else {
            before
        }
    }
}

/// The first `n` products of a block's column with a vector, summed from zero.
pub open spec fn col_dot<R: Real>(
    block: RowBlock,
    values: Seq<R>,
    rhs: Seq<R>,
    j: int,
    n: int,
) -> R
    decreases n,
{
    if n <= 0 {
        R::zero_spec()
    } else {
        col_dot(block, values, rhs, j, n - 1).plus_spec(
            block.entry(values, n - 1, j - block.col).times_spec(rhs[block.row + n - 1]),
        )
    }
}

/// Row `j` of the product of the first `n` transposed blocks with a vector.
pub open spec fn col_product<R: Real>(
    blocks: Seq<RowBlock>,
    values: Seq<R>,
    rhs: Seq<R>,
    j: int,
    n: int,
) -> R
    decreases n,
{
    if n <= 0 {
        R::zero_spec()
    } else {
        let before = col_product(blocks, values, rhs, j, n - 1);
        if blocks[n - 1].has_col(j) {
            before.plus_spec(
                col_dot(blocks[n - 1], values, rhs, j, blocks[n - 1].rows as int),
            )
        } else {
            before
        }
    }
}

/// Set every item to zero.
pub fn fill_zero<R: Real>(values: &mut Vec<R>)
    ensures
        final(values)@ == Seq::new(old(values)@.len(), |i: int| R::zero_spec()),
{
    let mut i: usize = 0;
    while i < values.len()
        invariant
            i <= values@.len(),
            values@.len() == old(values)@.len(),
            forall|j: int| 0 <= j < i ==> #[trigger] values@[j] == R::zero_spec(),
        decreases values@.len() - i,
    {
        values.set(i, R::zero());
        i += 1;
    }
    assert(values@ =~= Seq::new(old(values)@.len(), |i: int| R::zero_spec()));
}

/// As much of a sequence as fits, padded with zeros.
pub open spec fn padded<R: Real>(values: Seq<R>, len: nat) -> Seq<R> {
    Seq::new(
        len,
        |i: int|
            if i < values.len() {
                values[i]
            } else {
                R::zero_spec()
            },
    )
}

/// Resize to a length, padding with zeros and keeping what fits.
pub fn resize_zero<R: Real>(values: &mut Vec<R>, len: usize)
    ensures
        final(values)@ == padded(old(values)@, len as nat),
{
    values.truncate(len);
    while values.len() < len
        invariant
            values@.len() <= len,
            forall|j: int|
                0 <= j < values@.len() ==> #[trigger] values@[j] == if j < old(values)@.len() {
                    old(values)@[j]
                } else {
                    R::zero_spec()
                },
            old(values)@.len() <= values@.len() || values@.len() == len,
        decreases len - values@.len(),
    {
        values.push(R::zero());
    }
    assert(values@ =~= padded(old(values)@, len as nat));
}

impl<R: Real> Jacobian<R> {
    /// Every block lies within the matrix and its coefficients.
    pub open spec fn wf(&self) -> bool {
        blocks_fit(
            self.rows as int,
            self.cols as int,
            self.blocks@,
            self.values@.len() as int,
        )
    }

    /// A coefficient of one block.
    pub fn entry(&self, b: usize, row: usize, col: usize) -> (value: R)
        requires
            self.wf(),
            b < self.blocks@.len(),
            row < self.blocks@[b as int].rows,
            col < self.blocks@[b as int].cols,
        ensures
            value == self.blocks@[b as int].entry(self.values@, row as int, col as int),
    {
        let block = self.blocks[b];
        proof {
            lemma_entry_index(block.rows as nat, block.cols as nat, row as int, col as int);
            assert(self.values@.len() == self.values.len());
        }
        self.values[block.start + col * block.rows + row]
    }

    /// The product with a vector.
    pub fn apply(&self, out: &mut Vec<R>, rhs: &[R])
        requires
            self.wf(),
            old(out)@.len() == self.rows,
            rhs@.len() == self.cols,
        ensures
            final(out)@ == Seq::new(
                self.rows as nat,
                |i: int|
                    row_product(self.blocks@, self.values@, rhs@, i, self.blocks@.len() as int),
            ),
    {
        fill_zero(out);
        let mut b: usize = 0;
        while b < self.blocks.len()
            invariant
                self.wf(),
                rhs@.len() == self.cols,
                b <= self.blocks@.len(),
                out@.len() == self.rows,
                forall|i: int|
                    0 <= i < self.rows ==> #[trigger] out@[i] == row_product(
                        self.blocks@,
                        self.values@,
                        rhs@,
                        i,
                        b as int,
                    ),
            decreases self.blocks@.len() - b,
        {
            let block = self.blocks[b];
            assert(self.blocks@[b as int] == block);
            let ghost before = out@;
            let mut j: usize = 0;
            while j < block.cols
                invariant
                    self.wf(),
                    rhs@.len() == self.cols,
                    b < self.blocks@.len(),
                    block == self.blocks@[b as int],
                    j <= block.cols,
                    before.len() == self.rows,
                    out@.len() == self.rows,
                    forall|i: int|
                        0 <= i < self.rows ==> #[trigger] out@[i] == if block.has_row(i) {
                            row_dot(block, self.values@, rhs@, i, before[i], j as int)
                        } else {
                            before[i]
                        },
                decreases block.cols - j,
            {
                let x = rhs[block.col + j];
                let mut i: usize = 0;
                while i < block.rows
                    invariant
                        self.wf(),
                        rhs@.len() == self.cols,
                        b < self.blocks@.len(),
                        block == self.blocks@[b as int],
                        j < block.cols,
                        x == rhs@[block.col + j],
                        i <= block.rows,
                        before.len() == self.rows,
                        out@.len() == self.rows,
                        forall|r: int|
                            0 <= r < self.rows ==> #[trigger] out@[r] == if block.has_row(r) {
                                row_dot(
                                    block,
                                    self.values@,
                                    rhs@,
                                    r,
                                    before[r],
                                    if r < block.row + i {
                                        j + 1
                                    } else {
                                        j as int
                                    },
                                )
                            } else {
                                before[r]
                            },
                    decreases block.rows - i,
                {
                    let r: usize = block.row + i;
                    let sum = out[r].plus(self.entry(b, i, j).times(x));
                    out.set(r, sum);
                    i += 1;
                }
                j += 1;
            }
            b += 1;
        }
        assert(out@ =~= Seq::new(
            self.rows as nat,
            |i: int| row_product(self.blocks@, self.values@, rhs@, i, self.blocks@.len() as int),
        ));
    }

    /// The product of the transpose with a vector.
    pub fn transpose_apply(&self, out: &mut Vec<R>, rhs: &[R])
        requires
            self.wf(),
            old(out)@.len() == self.cols,
            rhs@.len() == self.rows,
        ensures
            final(out)@ == Seq::new(
                self.cols as nat,
                |j: int|
                    col_product(self.blocks@, self.values@, rhs@, j, self.blocks@.len() as int),
            ),
    {
        fill_zero(out);
        let mut b: usize = 0;
        while b < self.blocks.len()
            invariant
                self.wf(),
                rhs@.len() == self.rows,
                b <= self.blocks@.len(),
                out@.len() == self.cols,
                forall|j: int|
                    0 <= j < self.cols ==> #[trigger] out@[j] == col_product(
                        self.blocks@,
                        self.values@,
                        rhs@,
                        j,
                        b as int,
                    ),
            decreases self.blocks@.len() - b,
        {
            let block = self.blocks[b];
            assert(self.blocks@[b as int] == block);
            let ghost before = out@;
            let mut j: usize = 0;
            while j < block.cols
                invariant
                    self.wf(),
                    rhs@.len() == self.rows,
                    b < self.blocks@.len(),
                    block == self.blocks@[b as int],
                    j <= block.cols,
                    before.len() == self.cols,
                    out@.len() == self.cols,
                    forall|c: int|
                        0 <= c < self.cols ==> #[trigger] out@[c] == if block.has_col(c) && c
                            < block.col + j {
                            before[c].plus_spec(
                                col_dot(block, self.values@, rhs@, c, block.rows as int),
                            )
                        } else {
                            before[c]
                        },
                decreases block.cols - j,
            {
                let c: usize = block.col + j;
                let mut sum = R::zero();
                let mut i: usize = 0;
                while i < block.rows
                    invariant
                        self.wf(),
                        rhs@.len() == self.rows,
                        b < self.blocks@.len(),
                        block == self.blocks@[b as int],
                        j < block.cols,
                        c == block.col + j,
                        i <= block.rows,
                        sum == col_dot(block, self.values@, rhs@, c as int, i as int),
                    decreases block.rows - i,
                {
                    sum = sum.plus(self.entry(b, i, j).times(rhs[block.row + i]));
                    i += 1;
                }
                let updated = out[c].plus(sum);
                out.set(c, updated);
                j += 1;
            }
            b += 1;
        }
        assert(out@ =~= Seq::new(
            self.cols as nat,
            |j: int| col_product(self.blocks@, self.values@, rhs@, j, self.blocks@.len() as int),
        ));
    }
}

/// What rows contribute to a cached linearization.
#[verifier::ext_equal]
pub struct LinearView<R> {
    pub rows: nat,
    pub cols: nat,
    pub blocks: Seq<RowBlock>,
    pub values: Seq<R>,
    pub negative_residual: Seq<R>,
    pub gradient: Seq<R>,
}

/// The first `n` products of a column of a block with a residual, summed from zero.
pub open spec fn gradient_dot<R: Real>(
    block: BlockView<R>,
    residual: Seq<R>,
    col: int,
    n: int,
) -> R
    decreases n,
{
    if n <= 0 {
        R::zero_spec()
    } else {
        gradient_dot(block, residual, col, n - 1).plus_spec(
            block.entry(n - 1, col).times_spec(residual[n - 1]),
        )
    }
}

impl<R: Real> LinearView<R> {
    /// A linearization without rows.
    pub open spec fn empty(cols: nat) -> Self {
        LinearView {
            rows: 0,
            cols,
            blocks: Seq::empty(),
            values: Seq::empty(),
            negative_residual: Seq::empty(),
            gradient: Seq::new(cols, |c: int| R::zero_spec()),
        }
    }

    /// The coefficients of one more block, at the given rows and column.
    pub open spec fn with_block(self, row: nat, residual: Seq<R>, block: BlockView<R>, col: usize)
        -> Self {
        LinearView {
            blocks: self.blocks.push(
                RowBlock {
                    row: row as usize,
                    col,
                    rows: block.rows as usize,
                    cols: block.cols as usize,
                    start: self.values.len() as usize,
                },
            ),
            values: self.values + block.values,
            gradient: Seq::new(
                self.gradient.len(),
                |c: int|
                    if col <= c < col + block.cols {
                        self.gradient[c].plus_spec(
                            gradient_dot(block, residual, c - col, block.rows as int),
                        )
                    } else {
                        self.gradient[c]
                    },
            ),
            ..self
        }
    }

    /// The first `n` blocks of an emission.
    pub open spec fn with_blocks(
        self,
        row: nat,
        residual: Seq<R>,
        blocks: Seq<BlockView<R>>,
        columns: Seq<usize>,
        n: int,
    ) -> Self
        decreases n,
    {
        if n <= 0 {
            self
        } else {
            self.with_blocks(row, residual, blocks, columns, n - 1).with_block(
                row,
                residual,
                blocks[n - 1],
                columns[n - 1],
            )
        }
    }

    /// The same rows over another number of coordinates. The gradient keeps what fits, padded
    /// with zeros.
    pub open spec fn resized(self, dimension: nat) -> Self {
        LinearView {
            cols: dimension,
            gradient: padded(self.gradient, dimension),
            ..self
        }
    }

    /// The linearization with the rows of one more emission, if they can be counted.
    pub open spec fn extended(
        self,
        residual: Seq<R>,
        blocks: Seq<BlockView<R>>,
        columns: Seq<usize>,
    ) -> Result<Self, EvaluationError> {
        if self.rows + residual.len() > usize::MAX {
            Err(EvaluationError::DimensionMismatch)
        } else {
            let taller = LinearView {
                rows: self.rows + residual.len(),
                negative_residual: self.negative_residual + Seq::new(
                    residual.len(),
                    |i: int| residual[i].negate_spec(),
                ),
                ..self
            };
            Ok(taller.with_blocks(self.rows, residual, blocks, columns, blocks.len() as int))
        }
    }
}

/// A linearization `J * step + r`, kept as blocks of `J` with `-r` and `J^T r`.
pub struct LinearizedModel<R> {
    pub jacobian: Jacobian<R>,
    pub negative_residual: Vec<R>,
    pub gradient: Vec<R>,
    pub scales: Vec<R>,
}

impl<R: Real> View for LinearizedModel<R> {
    type V = LinearView<R>;

    open spec fn view(&self) -> LinearView<R> {
        LinearView {
            rows: self.jacobian.rows as nat,
            cols: self.jacobian.cols as nat,
            blocks: self.jacobian.blocks@,
            values: self.jacobian.values@,
            negative_residual: self.negative_residual@,
            gradient: self.gradient@,
        }
    }
}

impl<R: Real> LinearizedModel<R> {
    /// A sound Jacobian, one residual coordinate per row, one gradient coordinate per
    /// column.
    pub open spec fn wf(&self) -> bool {
        &&& self.jacobian.wf()
        &&& self.negative_residual@.len() == self.jacobian.rows
        &&& self.gradient@.len() == self.jacobian.cols
    }

    /// The same of the rows alone: blocks may lie beyond the columns.
    pub open spec fn sized(&self) -> bool {
        &&& blocks_fit(
            self.jacobian.rows as int,
            usize::MAX as int,
            self.jacobian.blocks@,
            self.jacobian.values@.len() as int,
        )
        &&& self.negative_residual@.len() == self.jacobian.rows
        &&& self.gradient@.len() == self.jacobian.cols
    }

    /// A model without coordinates.
    pub fn new() -> (model: Self)
        ensures
            model.wf(),
            model@ == LinearView::<R>::empty(0),
            model.scales@ == Seq::<R>::empty(),
    {
        let model = LinearizedModel {
            jacobian: Jacobian { rows: 0, cols: 0, blocks: Vec::new(), values: Vec::new() },
            negative_residual: Vec::new(),
            gradient: Vec::new(),
            scales: Vec::new(),
        };
        assert(model@ =~= LinearView::<R>::empty(0));
        model
    }

    /// Forget all rows.
    pub fn clear(&mut self)
        requires
            old(self).gradient@.len() == old(self).jacobian.cols,
        ensures
            final(self).wf(),
            final(self)@ == LinearView::<R>::empty(old(self).jacobian.cols as nat),
            final(self).scales == old(self).scales,
    {
        self.jacobian.rows = 0;
        self.jacobian.blocks.clear();
        self.jacobian.values.clear();
        self.negative_residual.clear();
        fill_zero(&mut self.gradient);
        assert(self@ =~= LinearView::<R>::empty(old(self).jacobian.cols as nat));
    }

    /// Set the number of coordinates. Rows stay as they are until they are cleared, even those
    /// that reach beyond the coordinates.
    pub fn prepare(&mut self, dimension: usize)
        ensures
            final(self)@ == old(self)@.resized(dimension as nat),
            final(self).scales == old(self).scales,
            old(self).sized() ==> final(self).sized(),
            old(self).wf() && old(self).jacobian.cols <= dimension ==> final(self).wf(),
    {
        self.jacobian.cols = dimension;
        resize_zero(&mut self.gradient, dimension);
    }

    /// Append the coefficients of one block and add its share of the gradient.
    fn push_block(&mut self, row: usize, residual: &[R], block: &JacobianBlock<R>, col: usize)
        requires
            blocks_fit(
                old(self).jacobian.rows as int,
                usize::MAX as int,
                old(self).jacobian.blocks@,
                old(self).jacobian.values@.len() as int,
            ),
            old(self).gradient@.len() == old(self).jacobian.cols,
            row + residual@.len() == old(self).jacobian.rows,
            block@.wf(),
            block.rows == residual@.len(),
            col + block.cols <= old(self).jacobian.cols,
        ensures
            blocks_fit(
                final(self).jacobian.rows as int,
                usize::MAX as int,
                final(self).jacobian.blocks@,
                final(self).jacobian.values@.len() as int,
            ),
            old(self).jacobian.wf() ==> final(self).jacobian.wf(),
            final(self).gradient@.len() == final(self).jacobian.cols,
            final(self).scales == old(self).scales,
            final(self)@ == old(self)@.with_block(row as nat, residual@, block@, col),
    {
        let start: usize = self.jacobian.values.len();
        self.jacobian.blocks.push(
            RowBlock { row, col, rows: block.rows, cols: block.cols, start },
        );
        let ghost before = self.jacobian.values@;
        let ghost gradient = self.gradient@;
        let mut k: usize = 0;
        while k < block.values.len()
            invariant
                k <= block.values@.len(),
                self.jacobian.rows == old(self).jacobian.rows,
                self.jacobian.cols == old(self).jacobian.cols,
                self.jacobian.blocks@ == old(self).jacobian.blocks@.push(
                    RowBlock { row, col, rows: block.rows, cols: block.cols, start },
                ),
                self.jacobian.values@ == before + block.values@.take(k as int),
                self.negative_residual == old(self).negative_residual,
                self.gradient == old(self).gradient,
                self.scales == old(self).scales,
            decreases block.values@.len() - k,
        {
            self.jacobian.values.push(block.values[k]);
            k += 1;
            assert(self.jacobian.values@ =~= before + block.values@.take(k as int));
        }
        assert(block.values@.take(k as int) =~= block.values@);
        let mut j: usize = 0;
        while j < block.cols
            invariant
                block@.wf(),
                block.rows == residual@.len(),
                col + block.cols <= self.jacobian.cols,
                j <= block.cols,
                self.jacobian.rows == old(self).jacobian.rows,
                self.jacobian.cols == old(self).jacobian.cols,
                self.jacobian.blocks@ == old(self).jacobian.blocks@.push(
                    RowBlock { row, col, rows: block.rows, cols: block.cols, start },
                ),
                self.jacobian.values@ == before + block.values@,
                self.negative_residual == old(self).negative_residual,
                self.scales == old(self).scales,
                gradient.len() == self.jacobian.cols,
                self.gradient@.len() == gradient.len(),
                forall|c: int|
                    0 <= c < gradient.len() ==> #[trigger] self.gradient@[c] == if col <= c < col
                        + j {
                        gradient[c].plus_spec(
                            gradient_dot(block@, residual@, c - col, block.rows as int),
                        )
                    } else {
                        gradient[c]
                    },
            decreases block.cols - j,
        {
            let mut dot = R::zero();
            let mut i: usize = 0;
            while i < residual.len()
                invariant
                    block@.wf(),
                    block.rows == residual@.len(),
                    j < block.cols,
                    i <= residual@.len(),
                    dot == gradient_dot(block@, residual@, j as int, i as int),
                decreases residual@.len() - i,
            {
                dot = dot.plus(block.entry(i, j).times(residual[i]));
                i += 1;
            }
            let updated = self.gradient[col + j].plus(dot);
            self.gradient.set(col + j, updated);
            j += 1;
        }
        proof {
            assert(self@ =~= old(self)@.with_block(row as nat, residual@, block@, col));
            assert forall|b: int| 0 <= b < self.jacobian.blocks@.len() implies {
                let placed = #[trigger] self.jacobian.blocks@[b];
                &&& placed.row + placed.rows <= self.jacobian.rows
                &&& old(self).jacobian.wf() ==> placed.col + placed.cols <= self.jacobian.cols
                &&& placed.col + placed.cols <= usize::MAX
                &&& placed.start + placed.rows * placed.cols <= self.jacobian.values@.len()
            } by {
                if b < old(self).jacobian.blocks@.len() {
                    assert(self.jacobian.blocks@[b] == old(self).jacobian.blocks@[b]);
                }
            }
        }
    }

    /// Add the rows of one emission.
    pub fn accumulate(
        &mut self,
        residual: &[R],
        blocks: &[JacobianBlock<R>],
        columns: &[usize],
    ) -> (added: Result<(), EvaluationError>)
        requires
            old(self).sized(),
            admissible(
                old(self).jacobian.cols as nat,
                residual@,
                block_views(blocks@),
                columns@,
            ),
        ensures
            final(self).sized(),
            old(self).wf() ==> final(self).wf(),
            final(self).scales == old(self).scales,
            final(self).jacobian.cols == old(self).jacobian.cols,
            match added {
                Ok(_) => {
                    &&& old(self)@.extended(residual@, block_views(blocks@), columns@) == Ok::<
                        LinearView<R>,
                        EvaluationError,
                    >(final(self)@)
                    &&& final(self).jacobian.blocks@.len() == old(self).jacobian.blocks@.len()
                        + blocks@.len()
                },
                Err(error) => {
                    &&& old(self)@.extended(residual@, block_views(blocks@), columns@) == Err::<
                        LinearView<R>,
                        EvaluationError,
                    >(error)
                    &&& *final(self) == *old(self)
                },
            },
    {
        let ghost views = block_views(blocks@);
        let row: usize = self.jacobian.rows;
        self.jacobian.rows = match row.checked_add(residual.len()) {
            Some(rows) => rows,
            None => {
                return Err(EvaluationError::DimensionMismatch);
            },
        };
        let ghost negated = Seq::new(residual@.len(), |i: int| residual@[i].negate_spec());
        let mut i: usize = 0;
        while i < residual.len()
            invariant
                i <= residual@.len(),
                negated == Seq::new(residual@.len(), |i: int| residual@[i].negate_spec()),
                self.jacobian.rows == old(self).jacobian.rows + residual@.len(),
                self.jacobian.cols == old(self).jacobian.cols,
                self.jacobian.blocks == old(self).jacobian.blocks,
                self.jacobian.values == old(self).jacobian.values,
                self.gradient == old(self).gradient,
                self.scales == old(self).scales,
                self.negative_residual@ == old(self).negative_residual@ + negated.take(i as int),
            decreases residual@.len() - i,
        {
            self.negative_residual.push(residual[i].negate());
            i += 1;
            assert(self.negative_residual@ =~= old(self).negative_residual@ + negated.take(
                i as int,
            ));
        }
        assert(negated.take(i as int) =~= negated);
        let ghost taller = self@;
        assert forall|b: int| 0 <= b < self.jacobian.blocks@.len() implies (
        #[trigger] self.jacobian.blocks@[b]).row + self.jacobian.blocks@[b].rows
            <= self.jacobian.rows by {
            assert(old(self).jacobian.blocks@[b].row + old(self).jacobian.blocks@[b].rows <= old(
                self,
            ).jacobian.rows);
        }
        let mut k: usize = 0;
        while k < blocks.len()
            invariant
                views == block_views(blocks@),
                admissible(old(self).jacobian.cols as nat, residual@, views, columns@),
                row + residual@.len() == self.jacobian.rows,
                self.jacobian.cols == old(self).jacobian.cols,
                blocks_fit(
                    self.jacobian.rows as int,
                    usize::MAX as int,
                    self.jacobian.blocks@,
                    self.jacobian.values@.len() as int,
                ),
                old(self).jacobian.wf() ==> self.jacobian.wf(),
                self.gradient@.len() == self.jacobian.cols,
                self.scales == old(self).scales,
                self.negative_residual@.len() == self.jacobian.rows,
                k <= blocks@.len(),
                self.jacobian.blocks@.len() == old(self).jacobian.blocks@.len() + k,
                self@ == taller.with_blocks(row as nat, residual@, views, columns@, k as int),
            decreases blocks@.len() - k,
        {
            assert(views[k as int] == blocks@[k as int]@);
            assert(views[k as int].wf());
            self.push_block(row, residual, &blocks[k], columns[k]);
            k += 1;
        }
        assert(taller =~= LinearView {
            rows: old(self)@.rows + residual@.len(),
            negative_residual: old(self)@.negative_residual + negated,
            ..old(self)@
        });
        Ok(())
    }
}

/// A running length extended by the first `n` coefficients of a block's column.
pub open spec fn column_hypot<R: Real>(
    block: RowBlock,
    values: Seq<R>,
    col: int,
    length: R,
    n: int,
) -> R
    decreases n,
{
    if n <= 0 {
        length
    } else {
        column_hypot(block, values, col, length, n - 1).hypot_spec(
            block.entry(values, n - 1, col - block.col),
        )
    }
}

/// Euclidean length of a column of the first `n` blocks.
pub open spec fn column_norm<R: Real>(
    blocks: Seq<RowBlock>,
    values: Seq<R>,
    col: int,
    n: int,
) -> R
    decreases n,
{
    if n <= 0 {
        R::zero_spec()
    } else {
        let before = column_norm(blocks, values, col, n - 1);
        if blocks[n - 1].has_col(col) {
            column_hypot(blocks[n - 1], values, col, before, blocks[n - 1].rows as int)
        } else {
            before
        }
    }
}

impl<R: Real> LinearView<R> {
    /// Euclidean lengths of all columns.
    pub open spec fn column_norms(self) -> Seq<R> {
        Seq::new(
            self.cols,
            |c: int| column_norm(self.blocks, self.values, c, self.blocks.len() as int),
        )
    }

    /// Column lengths raised to a positive finite floor; nonfinite lengths are refused.
    pub open spec fn scales(self, floor: R) -> Result<Seq<R>, SolverError> {
        if !floor.finite_spec() || floor.at_most_spec(R::zero_spec()) {
            Err(SolverError::InvalidOptions)
        } else if !all_finite(self.column_norms()) {
            Err(SolverError::Evaluation(EvaluationError::InvalidEvaluation))
        } else {
            Ok(Seq::new(self.cols, |c: int| self.column_norms()[c].max_spec(floor)))
        }
    }
}

impl<R: Real> LinearizedModel<R> {
    /// Derive damping scales: column lengths with a floor.
    pub fn prepare_scales(&mut self, floor: R) -> (prepared: Result<(), SolverError>)
        requires
            old(self).wf(),
        ensures
            final(self).wf(),
            final(self)@ == old(self)@,
            match prepared {
                Ok(_) => old(self)@.scales(floor) == Ok::<Seq<R>, SolverError>(
                    final(self).scales@,
                ),
                Err(error) => old(self)@.scales(floor) == Err::<Seq<R>, SolverError>(error),
            },
    {
        if !floor.is_finite() || floor.at_most(R::zero()) {
            return Err(SolverError::InvalidOptions);
        }
        let cols: usize = self.jacobian.cols;
        resize_zero(&mut self.scales, cols);
        fill_zero(&mut self.scales);
        let mut b: usize = 0;
        while b < self.jacobian.blocks.len()
            invariant
                self.wf(),
                self@ == old(self)@,
                cols == self.jacobian.cols,
                self.scales@.len() == cols,
                b <= self.jacobian.blocks@.len(),
                forall|c: int|
                    0 <= c < cols ==> #[trigger] self.scales@[c] == column_norm(
                        self.jacobian.blocks@,
                        self.jacobian.values@,
                        c,
                        b as int,
                    ),
            decreases self.jacobian.blocks@.len() - b,
        {
            let block = self.jacobian.blocks[b];
            assert(self.jacobian.blocks@[b as int] == block);
            let ghost before = self.scales@;
            let mut j: usize = 0;
            while j < block.cols
                invariant
                    self.wf(),
                    self@ == old(self)@,
                    cols == self.jacobian.cols,
                    self.scales@.len() == cols,
                    before.len() == cols,
                    b < self.jacobian.blocks@.len(),
                    block == self.jacobian.blocks@[b as int],
                    j <= block.cols,
                    forall|c: int|
                        0 <= c < cols ==> #[trigger] self.scales@[c] == if block.has_col(c) && c
                            < block.col + j {
                            column_hypot(
                                block,
                                self.jacobian.values@,
                                c,
                                before[c],
                                block.rows as int,
                            )
                        } else {
                            before[c]
                        },
                decreases block.cols - j,
            {
                let c: usize = block.col + j;
                let mut length = self.scales[c];
                let mut i: usize = 0;
                while i < block.rows
                    invariant
                        self.wf(),
                        b < self.jacobian.blocks@.len(),
                        block == self.jacobian.blocks@[b as int],
                        j < block.cols,
                        c == block.col + j,
                        c < before.len(),
                        i <= block.rows,
                        length == column_hypot(
                            block,
                            self.jacobian.values@,
                            c as int,
                            before[c as int],
                            i as int,
                        ),
                    decreases block.rows - i,
                {
                    length = length.hypot(self.jacobian.entry(b, i, j));
                    i += 1;
                }
                self.scales.set(c, length);
                j += 1;
            }
            b += 1;
        }
        assert(self.scales@ =~= self@.column_norms());
        let ghost norms = self.scales@;
        match norm_inf(self.scales.as_slice()) {
            Ok(_) => {},
            Err(error) => {
                return Err(error);
            },
        }
        let mut c: usize = 0;
        while c < self.scales.len()
            invariant
                self.wf(),
                self@ == old(self)@,
                c <= self.scales@.len(),
                self.scales@.len() == norms.len(),
                forall|d: int|
                    0 <= d < norms.len() ==> #[trigger] self.scales@[d] == if d < c {
                        norms[d].max_spec(floor)
                    } else {
                        norms[d]
                    },
            decreases self.scales@.len() - c,
        {
            let raised = self.scales[c].max(floor);
            self.scales.set(c, raised);
            c += 1;
        }
        assert(self.scales@ =~= Seq::new(
            self@.cols,
            |c: int| self@.column_norms()[c].max_spec(floor),
        ));
        Ok(())
    }
}

/// Euclidean length of the first `n` values.
pub open spec fn hypot_sum<R: Real>(values: Seq<R>, n: int) -> R
    decreases n,
{
    if n <= 0 {
        R::zero_spec()
    } else {
        hypot_sum(values, n - 1).hypot_spec(values[n - 1])
    }
}

/// Euclidean length of the values.
pub fn norm_l2<R: Real>(values: &[R]) -> (norm: R)
    ensures
        norm == hypot_sum(values@, values@.len() as int),
{
    let mut norm = R::zero();
    let mut i: usize = 0;
    while i < values.len()
        invariant
            i <= values@.len(),
            norm == hypot_sum(values@, i as int),
        decreases values@.len() - i,
    {
        norm = norm.hypot(values[i]);
        i += 1;
    }
    norm
}

/// A norm relative to a reference, or the norm itself if the reference is zero.
pub open spec fn relative_spec<R: Real>(norm: R, reference: R) -> R {
    if reference.same_spec(R::zero_spec()) {
        norm
    } else {
        norm.over_spec(reference)
    }
}

/// A norm relative to a reference, or the norm itself if the reference is zero.
pub fn relative<R: Real>(norm: R, reference: R) -> (ratio: R)
    ensures
        ratio == relative_spec(norm, reference),
{
    if reference.same(R::zero()) {
        norm
    } else {
        norm.over(reference)
    }
}

/// Euclidean length of values relative to that of reference values.
pub fn relative_norm<R: Real>(values: &[R], reference: &[R]) -> (ratio: R)
    ensures
        ratio == relative_spec(
            hypot_sum(values@, values@.len() as int),
            hypot_sum(reference@, reference@.len() as int),
        ),
{
    relative(norm_l2(values), norm_l2(reference))
}

/// Buffers for checking a step; the model stays untouched.
pub struct StepWorkspace<R> {
    pub step: Vec<R>,
    pub product: Vec<R>,
    pub normal_residual: Vec<R>,
    pub reference: Vec<R>,
}

/// What a step is worth to the undamped model, and how well it solves the damped one.
pub struct StepVerification<R> {
    pub predicted_reduction: R,
    pub finite_step: bool,
    pub residual_norm: R,
    pub reference_norm: R,
}

impl<R: Real> StepWorkspace<R> {
    /// Empty buffers.
    pub fn new() -> (work: Self)
        ensures
            work.step@ == Seq::<R>::empty(),
            work.product@ == Seq::<R>::empty(),
            work.normal_residual@ == Seq::<R>::empty(),
            work.reference@ == Seq::<R>::empty(),
    {
        StepWorkspace {
            step: Vec::new(),
            product: Vec::new(),
            normal_residual: Vec::new(),
            reference: Vec::new(),
        }
    }

    /// Size the buffers for a model; the step stays.
    pub fn prepare_verification(&mut self, rows: usize, cols: usize)
        ensures
            final(self).step == old(self).step,
            final(self).product@.len() == rows,
            final(self).normal_residual@.len() == cols,
            final(self).reference@.len() == cols,
            forall|i: int|
                0 <= i < rows ==> #[trigger] final(self).product@[i] == if i < old(
                    self,
                ).product@.len() {
                    old(self).product@[i]
                } else {
                    R::zero_spec()
                },
            forall|j: int|
                0 <= j < cols ==> #[trigger] final(self).normal_residual@[j] == if j < old(
                    self,
                ).normal_residual@.len() {
                    old(self).normal_residual@[j]
                } else {
                    R::zero_spec()
                },
            forall|j: int|
                0 <= j < cols ==> #[trigger] final(self).reference@[j] == if j < old(
                    self,
                ).reference@.len() {
                    old(self).reference@[j]
                } else {
                    R::zero_spec()
                },
    {
        resize_zero(&mut self.product, rows);
        resize_zero(&mut self.normal_residual, cols);
        resize_zero(&mut self.reference, cols);
    }

    /// Express the residual and its reference in scaled coordinates, as far as all three
    /// lists reach.
    pub fn scale_residual(&mut self, scales: &[R])
        ensures
            final(self).step == old(self).step,
            final(self).product == old(self).product,
            final(self).normal_residual@ == scaled(
                old(self).normal_residual@,
                old(self).reference@.len(),
                scales@,
            ),
            final(self).reference@ == scaled(
                old(self).reference@,
                old(self).normal_residual@.len(),
                scales@,
            ),
    {
        let mut j: usize = 0;
        while j < scales.len() && j < self.normal_residual.len() && j < self.reference.len()
            invariant
                j <= scales@.len(),
                j <= self.normal_residual@.len(),
                j <= self.reference@.len(),
                self.step == old(self).step,
                self.product == old(self).product,
                self.normal_residual@.len() == old(self).normal_residual@.len(),
                self.reference@.len() == old(self).reference@.len(),
                forall|c: int|
                    0 <= c < self.normal_residual@.len() ==> #[trigger] self.normal_residual@[c]
                        == if c < j {
                        old(self).normal_residual@[c].over_spec(scales@[c])
                    } else {
                        old(self).normal_residual@[c]
                    },
                forall|c: int|
                    0 <= c < self.reference@.len() ==> #[trigger] self.reference@[c] == if c < j {
                        old(self).reference@[c].over_spec(scales@[c])
                    } else {
                        old(self).reference@[c]
                    },
            decreases scales@.len() - j,
        {
            let residual = self.normal_residual[j].over(scales[j]);
            self.normal_residual.set(j, residual);
            let reference = self.reference[j].over(scales[j]);
            self.reference.set(j, reference);
            j += 1;
        }
        assert(self.normal_residual@ =~= scaled(
            old(self).normal_residual@,
            old(self).reference@.len(),
            scales@,
        ));
        assert(self.reference@ =~= scaled(
            old(self).reference@,
            old(self).normal_residual@.len(),
            scales@,
        ));
    }
}

/// Values divided by scales, as far as the values, the scales and a third list reach.
pub open spec fn scaled<R: Real>(values: Seq<R>, other: nat, scales: Seq<R>) -> Seq<R> {
    Seq::new(
        values.len(),
        |j: int|
            if j < scales.len() && j < other {
                values[j].over_spec(scales[j])
            } else {
                values[j]
            },
    )
}

/// A running value lowered by the first `n` products of two vectors.
pub open spec fn minus_products<R: Real>(value: R, a: Seq<R>, b: Seq<R>, n: int) -> R
    decreases n,
{
    if n <= 0 {
        value
    } else {
        minus_products(value, a, b, n - 1).minus_spec(a[n - 1].times_spec(b[n - 1]))
    }
}

/// A running value lowered by half the squares of the first `n` values.
pub open spec fn minus_half_squares<R: Real>(value: R, values: Seq<R>, n: int) -> R
    decreases n,
{
    if n <= 0 {
        value
    } else {
        minus_half_squares(value, values, n - 1).minus_spec(
            R::ratio_spec(1, 2).times_spec(values[n - 1]).times_spec(values[n - 1]),
        )
    }
}

impl<R: Real> LinearView<R> {
    /// `J * step`.
    pub open spec fn product(self, step: Seq<R>) -> Seq<R> {
        Seq::new(
            self.rows,
            |i: int| row_product(self.blocks, self.values, step, i, self.blocks.len() as int),
        )
    }

    /// `J^T * rows`.
    pub open spec fn transposed(self, rows: Seq<R>) -> Seq<R> {
        Seq::new(
            self.cols,
            |j: int| col_product(self.blocks, self.values, rows, j, self.blocks.len() as int),
        )
    }

    /// Decrease of half the squared residual that a step brings to this model.
    pub open spec fn predicted(self, step: Seq<R>) -> R {
        minus_half_squares(
            minus_products(R::zero_spec(), self.gradient, step, self.cols as int),
            self.product(step),
            self.rows as int,
        )
    }

    /// `J * step + r`.
    pub open spec fn remainder(self, step: Seq<R>) -> Seq<R> {
        Seq::new(
            self.rows,
            |i: int| self.product(step)[i].minus_spec(self.negative_residual[i]),
        )
    }

    /// `J^T (J * step + r) + lambda * D^2 * step`.
    pub open spec fn normal_residual(self, step: Seq<R>, scales: Seq<R>, lambda: R) -> Seq<R> {
        Seq::new(
            self.cols,
            |j: int|
                self.transposed(self.remainder(step))[j].plus_spec(
                    lambda.times_spec(scales[j].times_spec(step[j])).times_spec(scales[j]),
                ),
        )
    }
}

impl<R: Real> LinearizedModel<R> {
    /// Evaluate a step on the cached model: the decrease predicted without damping, and
    /// the residual left in the damped normal equations beside its initial value.
    pub fn verify_step(&self, work: &mut StepWorkspace<R>, lambda: R) -> (verified:
        StepVerification<R>)
        requires
            self.wf(),
            self.scales@.len() == self.jacobian.cols,
            old(work).step@.len() == self.jacobian.cols,
            old(work).product@.len() == self.jacobian.rows,
            old(work).normal_residual@.len() == self.jacobian.cols,
            old(work).reference@.len() == self.jacobian.cols,
        ensures
            final(work).step == old(work).step,
            final(work).product@ == self@.remainder(old(work).step@),
            final(work).normal_residual@ == self@.normal_residual(
                old(work).step@,
                self.scales@,
                lambda,
            ),
            final(work).reference@ == self.gradient@,
            verified.predicted_reduction == self@.predicted(old(work).step@),
            verified.finite_step == all_finite(old(work).step@),
            verified.residual_norm == hypot_sum(
                self@.normal_residual(old(work).step@, self.scales@, lambda),
                self@.cols as int,
            ),
            verified.reference_norm == hypot_sum(self.gradient@, self@.cols as int),
    {
        let m: usize = self.jacobian.rows;
        let n: usize = self.jacobian.cols;
        let ghost step = work.step@;
        let finite_step = norm_inf(work.step.as_slice()).is_ok();
        self.jacobian.apply(&mut work.product, work.step.as_slice());
        assert(work.product@ =~= self@.product(step));
        let half = R::ratio(1, 2);
        let mut predicted_reduction = R::zero();
        let mut j: usize = 0;
        while j < n
            invariant
                n == self.gradient@.len(),
                n == work.step@.len(),
                work.step@ == step,
                j <= n,
                predicted_reduction == minus_products(
                    R::zero_spec(),
                    self.gradient@,
                    step,
                    j as int,
                ),
            decreases n - j,
        {
            predicted_reduction = predicted_reduction.minus(
                self.gradient[j].times(work.step[j]),
            );
            j += 1;
        }
        let ghost linear = predicted_reduction;
        let mut i: usize = 0;
        while i < m
            invariant
                m == work.product@.len(),
                half == R::ratio_spec(1, 2),
                i <= m,
                predicted_reduction == minus_half_squares(linear, work.product@, i as int),
            decreases m - i,
        {
            let v = work.product[i];
            predicted_reduction = predicted_reduction.minus(half.times(v).times(v));
            i += 1;
        }
        let ghost product = work.product@;
        i = 0;
        while i < m
            invariant
                m == product.len(),
                m == work.product@.len(),
                m == self.negative_residual@.len(),
                work.step@ == step,
                work.step == old(work).step,
                work.normal_residual@.len() == old(work).normal_residual@.len(),
                work.reference@.len() == old(work).reference@.len(),
                i <= m,
                forall|k: int|
                    0 <= k < m ==> #[trigger] work.product@[k] == if k < i {
                        product[k].minus_spec(self.negative_residual@[k])
                    } else {
                        product[k]
                    },
            decreases m - i,
        {
            let shifted = work.product[i].minus(self.negative_residual[i]);
            work.product.set(i, shifted);
            i += 1;
        }
        assert(work.product@ =~= self@.remainder(step));
        self.jacobian.transpose_apply(&mut work.normal_residual, work.product.as_slice());
        assert(work.normal_residual@ =~= self@.transposed(self@.remainder(step)));
        let ghost transposed = work.normal_residual@;
        let ghost wanted = self@.normal_residual(step, self.scales@, lambda);
        let mut residual_norm = R::zero();
        let mut reference_norm = R::zero();
        j = 0;
        while j < n
            invariant
                n == self.gradient@.len(),
                n == self.scales@.len(),
                n == work.step@.len(),
                n == transposed.len(),
                n == work.normal_residual@.len(),
                n == work.reference@.len(),
                n == self@.cols,
                transposed == self@.transposed(self@.remainder(step)),
                wanted == self@.normal_residual(step, self.scales@, lambda),
                work.step@ == step,
                work.step == old(work).step,
                work.product@ == self@.remainder(step),
                j <= n,
                forall|k: int|
                    0 <= k < n ==> #[trigger] work.normal_residual@[k] == if k < j {
                        wanted[k]
                    } else {
                        transposed[k]
                    },
                forall|k: int| 0 <= k < j ==> #[trigger] work.reference@[k] == self.gradient@[k],
                residual_norm == hypot_sum(wanted, j as int),
                reference_norm == hypot_sum(self.gradient@, j as int),
            decreases n - j,
        {
            let s = self.scales[j];
            let updated = work.normal_residual[j].plus(lambda.times(s.times(work.step[j])).times(s));
            work.normal_residual.set(j, updated);
            residual_norm = residual_norm.hypot(updated);
            reference_norm = reference_norm.hypot(self.gradient[j]);
            work.reference.set(j, self.gradient[j]);
            j += 1;
        }
        assert(work.normal_residual@ =~= wanted);
        assert(work.reference@ =~= self.gradient@);
        StepVerification { predicted_reduction, finite_step, residual_norm, reference_norm }
    }
}

} // verus!
