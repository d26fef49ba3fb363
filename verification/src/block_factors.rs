//! Normalized Gram matrices of the variable blocks of a Jacobian, and the bookkeeping
//! of their factorizations.
use crate::backend::{all_finite, norm_inf};
use crate::error::{EvaluationError, SolverError};
use crate::kernels::{lower_triangle, Triangular};
use crate::linear_model::{Jacobian, RowBlock};
use crate::linearization::lemma_entry_index;
use crate::scalar::Real;
use vstd::prelude::*;
use vstd::slice::slice_subrange;

verus! {

/// One variable's columns, where its square matrices start, and whether its last
/// factorization failed.
#[derive(Debug, Clone, Copy, PartialEq, Eq, Structural)]
pub struct VariableBlock {
    pub col: usize,
    pub width: usize,
    pub start: usize,
    pub fallback: bool,
}

/// Square matrices, one per variable block, stored column by column one after the other.
pub struct BlockFactors<R> {
    pub blocks: Vec<VariableBlock>,
    pub owners: Vec<Option<usize>>,
    pub gram: Vec<R>,
    pub factors: Vec<R>,
}

/// Blocks found so far, who owns each column, and their Gram matrices.
#[verifier::ext_equal]
pub struct GramView<R> {
    pub blocks: Seq<VariableBlock>,
    pub owners: Seq<Option<usize>>,
    pub gram: Seq<R>,
}

/// The first `n` products of two normalized columns of a block, summed from zero.
pub open spec fn gram_dot<R: Real>(
    block: RowBlock,
    values: Seq<R>,
    scales: Seq<R>,
    left: int,
    right: int,
    n: int,
) -> R
    decreases n,
{
    if n <= 0 {
        R::zero_spec()
    } else {
        gram_dot(block, values, scales, left, right, n - 1).plus_spec(
            block.entry(values, n - 1, left).over_spec(scales[block.col + left]).times_spec(
                block.entry(values, n - 1, right).over_spec(scales[block.col + right]),
            ),
        )
    }
}

impl<R: Real> GramView<R> {
    /// Nothing found yet.
    pub open spec fn empty(cols: nat) -> Self {
        GramView {
            blocks: Seq::empty(),
            owners: Seq::new(cols, |c: int| None),
            gram: Seq::empty(),
        }
    }

    /// Which variable block a Jacobian block belongs to, registering it if its columns
    /// are new. Columns that only partly coincide with a known block are refused.
    pub open spec fn assigned(self, block: RowBlock) -> Result<(Self, usize), EvaluationError> {
        if block.col + block.cols > self.owners.len() {
            Err(EvaluationError::DimensionMismatch)
        } else {
            match self.owners[block.col as int] {
                Some(owner) => if self.blocks[owner as int].col != block.col
                    || self.blocks[owner as int].width != block.cols {
                    Err(EvaluationError::DimensionMismatch)
                } else {
                    Ok((self, owner))
                },
                None => if exists|c: int|
                    block.col <= c < block.col + block.cols && #[trigger] self.owners[c] is Some {
                    Err(EvaluationError::DimensionMismatch)
                } else if self.gram.len() + block.cols * block.cols > usize::MAX {
                    Err(EvaluationError::DimensionMismatch)
                } else {
                    let id = self.blocks.len() as usize;
                    Ok(
                        (
                            GramView {
                                blocks: self.blocks.push(
                                    VariableBlock {
                                        col: block.col,
                                        width: block.cols,
                                        start: self.gram.len() as usize,
                                        fallback: false,
                                    },
                                ),
                                owners: Seq::new(
                                    self.owners.len(),
                                    |c: int|
                                        if block.has_col(c) {
                                            Some(id)
                                        } else {
                                            self.owners[c]
                                        },
                                ),
                                gram: self.gram + Seq::new(
                                    (block.cols * block.cols) as nat,
                                    |i: int| R::zero_spec(),
                                ),
                            },
                            id,
                        ),
                    )
                },
            }
        }
    }

    /// The Gram matrices after adding the products of one block to its lower triangle.
    pub open spec fn added(self, block: RowBlock, values: Seq<R>, scales: Seq<R>, id: usize)
        -> Self {
        let start = self.blocks[id as int].start;
        GramView {
            gram: Seq::new(
                self.gram.len(),
                |k: int|
                    if in_lower(k - start, block.cols as int) {
                        self.gram[k].plus_spec(
                            gram_dot(
                                block,
                                values,
                                scales,
                                (k - start) / block.cols as int,
                                (k - start) % block.cols as int,
                                block.rows as int,
                            ),
                        )
                    } else {
                        self.gram[k]
                    },
            ),
            ..self
        }
    }

    /// The effect of one Jacobian block; blocks without columns have none.
    pub open spec fn step(self, block: RowBlock, values: Seq<R>, scales: Seq<R>) -> Result<
        Self,
        EvaluationError,
    > {
        if block.cols == 0 {
            Ok(self)
        } else {
            match self.assigned(block) {
                Err(error) => Err(error),
                Ok((found, id)) => Ok(found.added(block, values, scales, id)),
            }
        }
    }

    /// The effect of the first `n` Jacobian blocks.
    pub open spec fn run(self, blocks: Seq<RowBlock>, values: Seq<R>, scales: Seq<R>, n: int)
        -> Result<Self, EvaluationError>
        decreases n,
    {
        if n <= 0 {
            Ok(self)
        } else {
            match self.run(blocks, values, scales, n - 1) {
                Err(error) => Err(error),
                Ok(before) => before.step(blocks[n - 1], values, scales),
            }
        }
    }

    proof fn lemma_refused(
        self,
        blocks: Seq<RowBlock>,
        values: Seq<R>,
        scales: Seq<R>,
        n: int,
        m: int,
    )
        requires
            0 <= n <= m,
            self.run(blocks, values, scales, n) is Err,
        ensures
            self.run(blocks, values, scales, m) == self.run(blocks, values, scales, n),
        decreases m,
    {
        if n < m {
            self.lemma_refused(blocks, values, scales, n, m - 1);
        }
    }

    /// Owned columns lie in the block that owns them, and every matrix is stored, one after
    /// the other.
    pub open spec fn wf(self) -> bool {
        &&& forall|c: int|
            0 <= c < self.owners.len() ==> (#[trigger] self.owners[c] matches Some(owner) ==> {
                &&& owner < self.blocks.len()
                &&& self.blocks[owner as int].col <= c < self.blocks[owner as int].col
                    + self.blocks[owner as int].width
            })
        &&& forall|b: int|
            0 <= b < self.blocks.len() ==> {
                &&& (#[trigger] self.blocks[b]).start + self.blocks[b].width * self.blocks[b].width
                    <= self.gram.len()
                &&& self.blocks[b].col + self.blocks[b].width <= self.owners.len()
            }
        &&& forall|a: int, b: int|
            0 <= a < b < self.blocks.len() ==> (#[trigger] self.blocks[a]).start
                + self.blocks[a].width * self.blocks[a].width <= (#[trigger] self.blocks[b]).start
    }
}

/// Whether an offset into a square matrix stored by columns is on or below the diagonal.
pub open spec fn in_lower(k: int, width: int) -> bool {
    0 <= k < width * width && k / width <= k % width
}

/// Offsets of a square matrix stored by columns split into column and row.
pub proof fn lemma_square_offset(col: int, row: int, width: int)
    requires
        0 <= col < width,
        0 <= row < width,
    ensures
        0 <= col * width + row < width * width,
        0 <= col * width,
        (col * width + row) / width == col,
        (col * width + row) % width == row,
{
    assert(col * width + width <= width * width && 0 <= col * width) by (nonlinear_arith)
        requires
            0 <= col < width,
    ;
    vstd::arithmetic::div_mod::lemma_fundamental_div_mod_converse(
        col * width + row,
        width,
        col,
        row,
    );
}

impl<R: Real> BlockFactors<R> {
    /// The blocks, owners and Gram matrices.
    pub open spec fn grams(&self) -> GramView<R> {
        GramView { blocks: self.blocks@, owners: self.owners@, gram: self.gram@ }
    }

    /// No blocks.
    pub fn new() -> (factors: Self)
        ensures
            factors.grams() == GramView::<R>::empty(0),
            factors.factors@ == Seq::<R>::empty(),
    {
        let factors = BlockFactors {
            blocks: Vec::new(),
            owners: Vec::new(),
            gram: Vec::new(),
            factors: Vec::new(),
        };
        assert(factors.grams() =~= GramView::<R>::empty(0));
        factors
    }

    /// Find or register the variable block of a Jacobian block.
    fn assign(&mut self, block: RowBlock) -> (assigned: Result<usize, EvaluationError>)
        requires
            old(self).grams().wf(),
            block.cols > 0,
        ensures
            final(self).factors == old(self).factors,
            match assigned {
                Ok(id) => {
                    &&& old(self).grams().assigned(block) == Ok::<
                        (GramView<R>, usize),
                        EvaluationError,
                    >((final(self).grams(), id))
                    &&& final(self).grams().wf()
                    &&& id < final(self).blocks@.len()
                    &&& final(self).blocks@[id as int].width == block.cols
                    &&& final(self).blocks@[id as int].col == block.col
                },
                Err(error) => {
                    &&& old(self).grams().assigned(block) == Err::<
                        (GramView<R>, usize),
                        EvaluationError,
                    >(error)
                    &&& *final(self) == *old(self)
                },
            },
    {
        let cols: usize = self.owners.len();
        let end: usize = match block.col.checked_add(block.cols) {
            Some(end) => end,
            None => {
                return Err(EvaluationError::DimensionMismatch);
            },
        };
        if end > cols {
            return Err(EvaluationError::DimensionMismatch);
        }
        match self.owners[block.col] {
            Some(owner) => {
                assert(self.owners@[block.col as int] == Some(owner));
                if self.blocks[owner].col != block.col || self.blocks[owner].width != block.cols {
                    return Err(EvaluationError::DimensionMismatch);
                }
                Ok(owner)
            },
            None => {
                let mut c: usize = block.col;
                while c < end
                    invariant
                        block.col <= c <= end <= self.owners@.len(),
                        end == block.col + block.cols,
                        *self == *old(self),
                        old(self).owners@[block.col as int] is None,
                        end <= old(self).owners@.len(),
                        forall|d: int| block.col <= d < c ==> #[trigger] self.owners@[d] is None,
                    decreases end - c,
                {
                    if self.owners[c].is_some() {
                        assert(self.owners@[c as int] is Some);
                        return Err(EvaluationError::DimensionMismatch);
                    }
                    c += 1;
                }
                let start: usize = self.gram.len();
                let size: usize = match block.cols.checked_mul(block.cols) {
                    Some(size) => size,
                    None => {
                        return Err(EvaluationError::DimensionMismatch);
                    },
                };
                let total: usize = match start.checked_add(size) {
                    Some(total) => total,
                    None => {
                        return Err(EvaluationError::DimensionMismatch);
                    },
                };
                let ghost before = *self;
                while self.gram.len() < total
                    invariant
                        start <= self.gram@.len() <= total,
                        start == before.gram@.len(),
                        self.blocks == before.blocks,
                        self.owners == before.owners,
                        self.factors == before.factors,
                        self.gram@ == before.gram@ + Seq::new(
                            (self.gram@.len() - start) as nat,
                            |i: int| R::zero_spec(),
                        ),
                    decreases total - self.gram@.len(),
                {
                    self.gram.push(R::zero());
                    assert(self.gram@ =~= before.gram@ + Seq::new(
                        (self.gram@.len() - start) as nat,
                        |i: int| R::zero_spec(),
                    ));
                }
                let id: usize = self.blocks.len();
                self.blocks.push(
                    VariableBlock { col: block.col, width: block.cols, start, fallback: false },
                );
                let ghost owners = self.owners@;
                c = block.col;
                while c < end
                    invariant
                        block.col <= c <= end <= self.owners@.len(),
                        end == block.col + block.cols,
                        owners.len() == self.owners@.len(),
                        owners == before.owners@,
                        self.blocks@ == before.blocks@.push(
                            VariableBlock {
                                col: block.col,
                                width: block.cols,
                                start,
                                fallback: false,
                            },
                        ),
                        self.factors == before.factors,
                        self.gram@ == before.gram@ + Seq::new(
                            size as nat,
                            |i: int| R::zero_spec(),
                        ),
                        forall|d: int|
                            0 <= d < owners.len() ==> #[trigger] self.owners@[d] == if block.col
                                <= d < c {
                                Some(id)
                            } else {
                                owners[d]
                            },
                    decreases end - c,
                {
                    self.owners.set(c, Some(id));
                    c += 1;
                }
                proof {
                    assert(self.grams() =~= before.grams().assigned(block)->Ok_0.0);
                    assert forall|b: int| 0 <= b < self.blocks@.len() implies {
                        &&& (#[trigger] self.blocks@[b]).start + self.blocks@[b].width
                            * self.blocks@[b].width <= self.gram@.len()
                        &&& self.blocks@[b].col + self.blocks@[b].width <= self.owners@.len()
                    } by {
                        if b < before.blocks@.len() {
                            assert(self.blocks@[b] == before.blocks@[b]);
                        }
                    }
                    assert forall|d: int| 0 <= d < self.owners@.len() implies (
                    #[trigger] self.owners@[d] matches Some(owner) ==> {
                        &&& owner < self.blocks@.len()
                        &&& self.blocks@[owner as int].col <= d < self.blocks@[owner as int].col
                            + self.blocks@[owner as int].width
                    }) by {
                        assert(before.owners@[d] == owners[d]);
                    }
                }
                Ok(id)
            },
        }
    }
}

/// Offsets on or below the diagonal that come before a column and row.
spec fn passed(k: int, width: int, col: int, row: int) -> bool {
    in_lower(k, width) && (k / width < col || (k / width == col && k % width < row))
}

proof fn lemma_passed_step(k: int, width: int, col: int, row: int)
    requires
        0 <= col <= row < width,
    ensures
        passed(k, width, col, row + 1) <==> passed(k, width, col, row) || k == col * width + row,
{
    lemma_square_offset(col, row, width);
    if in_lower(k, width) {
        vstd::arithmetic::div_mod::lemma_fundamental_div_mod(k, width);
        if k / width == col && k % width == row {
            assert(width * col == col * width) by (nonlinear_arith);
        }
    }
}

proof fn lemma_passed_column(k: int, width: int, col: int)
    requires
        0 <= col < width,
    ensures
        passed(k, width, col, width) <==> passed(k, width, col + 1, col + 1),
        passed(k, width, col, col) <==> passed(k, width, col, 0),
{
    if in_lower(k, width) {
        vstd::arithmetic::div_mod::lemma_mod_bound(k, width);
    }
}

impl<R: Real> BlockFactors<R> {
    /// Add the products of one Jacobian block to the lower triangle of its Gram matrix.
    fn add_products(&mut self, jacobian: &Jacobian<R>, scales: &[R], b: usize, id: usize)
        requires
            old(self).grams().wf(),
            b < jacobian.blocks@.len(),
            jacobian.blocks@[b as int].cols > 0,
            jacobian.blocks@[b as int].start + jacobian.blocks@[b as int].rows
                * jacobian.blocks@[b as int].cols <= jacobian.values@.len(),
            jacobian.blocks@[b as int].col + jacobian.blocks@[b as int].cols <= scales@.len(),
            id < old(self).blocks@.len(),
            old(self).blocks@[id as int].width == jacobian.blocks@[b as int].cols,
        ensures
            final(self).grams().wf(),
            final(self).factors == old(self).factors,
            final(self).grams() == old(self).grams().added(
                jacobian.blocks@[b as int],
                jacobian.values@,
                scales@,
                id,
            ),
    {
        let block = jacobian.blocks[b];
        let ghost values = jacobian.values@;
        let width: usize = block.cols;
        let start: usize = self.blocks[id].start;
        let ghost before = self.gram@;
        let count: usize = scales.len();
        assert(self.grams().blocks[id as int].width == width);
        assert(self.gram@.len() == self.gram.len());
        assert(jacobian.values@.len() == jacobian.values.len());
        let mut col: usize = 0;
        while col < width
            invariant
                block == jacobian.blocks@[b as int],
                values == jacobian.values@,
                values.len() == jacobian.values.len(),
                width == block.cols,
                width > 0,
                block.start + block.rows * width <= values.len(),
                count == scales@.len(),
                block.col + width <= count,
                self.blocks == old(self).blocks,
                self.owners == old(self).owners,
                self.factors == old(self).factors,
                start + width * width <= self.gram@.len(),
                self.gram@.len() == before.len(),
                before.len() <= usize::MAX,
                col <= width,
                forall|k: int|
                    0 <= k < before.len() ==> #[trigger] self.gram@[k] == if passed(
                        k - start,
                        width as int,
                        col as int,
                        col as int,
                    ) {
                        before[k].plus_spec(
                            gram_dot(
                                block,
                                values,
                                scales@,
                                (k - start) / width as int,
                                (k - start) % width as int,
                                block.rows as int,
                            ),
                        )
                    } else {
                        before[k]
                    },
            decreases width - col,
        {
            let mut row: usize = col;
            while row < width
                invariant
                    block == jacobian.blocks@[b as int],
                    values == jacobian.values@,
                    values.len() == jacobian.values.len(),
                    width == block.cols,
                    block.start + block.rows * width <= values.len(),
                    count == scales@.len(),
                block.col + width <= count,
                    self.blocks == old(self).blocks,
                    self.owners == old(self).owners,
                    self.factors == old(self).factors,
                    start + width * width <= self.gram@.len(),
                    self.gram@.len() == before.len(),
                    before.len() <= usize::MAX,
                    col < width,
                    col <= row <= width,
                    forall|k: int|
                        0 <= k < before.len() ==> #[trigger] self.gram@[k] == if passed(
                            k - start,
                            width as int,
                            col as int,
                            row as int,
                        ) {
                            before[k].plus_spec(
                                gram_dot(
                                    block,
                                    values,
                                    scales@,
                                    (k - start) / width as int,
                                    (k - start) % width as int,
                                    block.rows as int,
                                ),
                            )
                        } else {
                            before[k]
                        },
                decreases width - row,
            {
                let mut sum = R::zero();
                let mut k: usize = 0;
                while k < block.rows
                    invariant
                        values == jacobian.values@,
                        values.len() == jacobian.values.len(),
                        width == block.cols,
                        block.start + block.rows * width <= values.len(),
                        count == scales@.len(),
                block.col + width <= count,
                        col < width,
                        row < width,
                        k <= block.rows,
                        sum == gram_dot(
                            block,
                            values,
                            scales@,
                            col as int,
                            row as int,
                            k as int,
                        ),
                    decreases block.rows - k,
                {
                    proof {
                        lemma_entry_index(
                            block.rows as nat,
                            width as nat,
                            k as int,
                            col as int,
                        );
                        lemma_entry_index(
                            block.rows as nat,
                            width as nat,
                            k as int,
                            row as int,
                        );
                    }
                    let left = jacobian.values[block.start + col * block.rows + k].over(
                        scales[block.col + col],
                    );
                    let right = jacobian.values[block.start + row * block.rows + k].over(
                        scales[block.col + row],
                    );
                    sum = sum.plus(left.times(right));
                    k += 1;
                }
                proof {
                    lemma_square_offset(col as int, row as int, width as int);
                    assert forall|k: int| passed(
                        k,
                        width as int,
                        col as int,
                        row + 1,
                    ) <==> #[trigger] passed(k, width as int, col as int, row as int) || k == col
                        * width + row by {
                        lemma_passed_step(k, width as int, col as int, row as int);
                    }
                }
                let place: usize = start + col * width + row;
                let updated = self.gram[place].plus(sum);
                let ghost was = self.gram@;
                self.gram.set(place, updated);
                proof {
                    assert forall|k: int| 0 <= k < before.len() implies #[trigger] self.gram@[k]
                        == if passed(k - start, width as int, col as int, row + 1) {
                        before[k].plus_spec(
                            gram_dot(
                                block,
                                values,
                                scales@,
                                (k - start) / width as int,
                                (k - start) % width as int,
                                block.rows as int,
                            ),
                        )
                    } else {
                        before[k]
                    } by {
                        lemma_passed_step(k - start, width as int, col as int, row as int);
                        if k == place {
                            assert(!passed(k - start, width as int, col as int, row as int));
                            assert(was[k] == before[k]);
                        } else {
                            assert(self.gram@[k] == was[k]);
                        }
                    }
                }
                row += 1;
            }
            proof {
                assert forall|k: int| 0 <= k < before.len() implies #[trigger] self.gram@[k]
                    == if passed(k - start, width as int, col + 1, col + 1) {
                    before[k].plus_spec(
                        gram_dot(
                            block,
                            values,
                            scales@,
                            (k - start) / width as int,
                            (k - start) % width as int,
                            block.rows as int,
                        ),
                    )
                } else {
                    before[k]
                } by {
                    lemma_passed_column(k - start, width as int, col as int);
                }
            }
            col += 1;
        }
        proof {
            let wanted = old(self).grams().added(block, values, scales@, id);
            assert forall|k: int| 0 <= k < before.len() implies self.gram@[k] == wanted.gram[k] by {
                if in_lower(k - start, width as int) {
                    vstd::arithmetic::div_mod::lemma_mod_bound(k - start, width as int);
                }
            }
            assert(self.grams() =~= wanted);
        }
    }

    /// Collect the normalized Gram matrix of every variable block of a Jacobian.
    ///
    /// Blocks must either share all their columns or none.
    pub fn prepare(&mut self, jacobian: &Jacobian<R>, scales: &[R]) -> (prepared: Result<
        (),
        SolverError,
    >)
        requires
            scales@.len() == jacobian.cols,
            forall|b: int|
                0 <= b < jacobian.blocks@.len() ==> (#[trigger] jacobian.blocks@[b]).start
                    + jacobian.blocks@[b].rows * jacobian.blocks@[b].cols <= jacobian.values@.len(),
        ensures
            match prepared {
                Ok(_) => {
                    &&& GramView::<R>::empty(jacobian.cols as nat).run(
                        jacobian.blocks@,
                        jacobian.values@,
                        scales@,
                        jacobian.blocks@.len() as int,
                    ) == Ok::<GramView<R>, EvaluationError>(final(self).grams())
                    &&& final(self).grams().wf()
                    &&& final(self).factors@.len() == final(self).gram@.len()
                },
                Err(error) => {
                    exists|reason: EvaluationError|
                        error == SolverError::Evaluation(reason) && #[trigger] GramView::<
                            R,
                        >::empty(jacobian.cols as nat).run(
                            jacobian.blocks@,
                            jacobian.values@,
                            scales@,
                            jacobian.blocks@.len() as int,
                        ) == Err::<GramView<R>, EvaluationError>(reason)
                },
            },
    {
        self.blocks.clear();
        self.gram.clear();
        self.owners.clear();
        while self.owners.len() < jacobian.cols
            invariant
                self.owners@.len() <= jacobian.cols,
                self.blocks@.len() == 0,
                self.gram@.len() == 0,
                forall|c: int| 0 <= c < self.owners@.len() ==> #[trigger] self.owners@[c] is None,
            decreases jacobian.cols - self.owners@.len(),
        {
            self.owners.push(None);
        }
        let ghost begun = GramView::<R>::empty(jacobian.cols as nat);
        assert(self.grams() =~= begun);
        let mut b: usize = 0;
        while b < jacobian.blocks.len()
            invariant
                scales@.len() == jacobian.cols,
                forall|b: int|
                    0 <= b < jacobian.blocks@.len() ==> (#[trigger] jacobian.blocks@[b]).start
                        + jacobian.blocks@[b].rows * jacobian.blocks@[b].cols
                        <= jacobian.values@.len(),
                begun == GramView::<R>::empty(jacobian.cols as nat),
                b <= jacobian.blocks@.len(),
                self.owners@.len() == jacobian.cols,
                self.grams().wf(),
                begun.run(jacobian.blocks@, jacobian.values@, scales@, b as int) == Ok::<
                    GramView<R>,
                    EvaluationError,
                >(self.grams()),
            decreases jacobian.blocks@.len() - b,
        {
            let block = jacobian.blocks[b];
            assert(jacobian.blocks@[b as int] == block);
            if block.cols > 0 {
                match self.assign(block) {
                    Ok(id) => {
                        self.add_products(jacobian, scales, b, id);
                    },
                    Err(error) => {
                        proof {
                            begun.lemma_refused(
                                jacobian.blocks@,
                                jacobian.values@,
                                scales@,
                                b + 1,
                                jacobian.blocks@.len() as int,
                            );
                        }
                        return Err(SolverError::Evaluation(error));
                    },
                }
            }
            b += 1;
        }
        self.factors.clear();
        while self.factors.len() < self.gram.len()
            invariant
                self.factors@.len() <= self.gram@.len(),
                self.grams().wf(),
                begun.run(
                    jacobian.blocks@,
                    jacobian.values@,
                    scales@,
                    jacobian.blocks@.len() as int,
                ) == Ok::<GramView<R>, EvaluationError>(self.grams()),
            decreases self.gram@.len() - self.factors@.len(),
        {
            self.factors.push(R::zero());
        }
        Ok(())
    }
}

/// The diagonal of a square matrix stored by columns is finite and positive.
pub open spec fn positive_diagonal<R: Real>(values: Seq<R>, width: int) -> bool {
    forall|j: int|
        0 <= j < width ==> {
            &&& (#[trigger] values[j * width + j]).finite_spec()
            &&& !values[j * width + j].at_most_spec(R::zero_spec())
        }
}

impl<R: Real> GramView<R> {
    /// A Gram matrix with `lambda` added along its diagonal.
    pub open spec fn damped(self, b: int, lambda: R) -> Seq<R> {
        let block = self.blocks[b];
        let width = block.width as int;
        Seq::new(
            (width * width) as nat,
            |k: int|
                if k / width == k % width {
                    self.gram[block.start + k].plus_spec(lambda)
                } else {
                    self.gram[block.start + k]
                },
        )
    }

    /// The coefficient of a symmetric Gram matrix, read from its lower triangle.
    pub open spec fn symmetric(self, b: int, row: int, col: int) -> R {
        let block = self.blocks[b];
        if row >= col {
            self.gram[block.start + col * block.width + row]
        } else {
            self.gram[block.start + row * block.width + col]
        }
    }
}

/// Whether a factorization can be used: it succeeded, with a finite positive diagonal.
pub open spec fn usable<R: Real>(factored: Option<Seq<R>>, width: int) -> bool {
    match factored {
        None => false,
        Some(values) => positive_diagonal(values, width),
    }
}

impl<R: Real> BlockFactors<R> {
    /// Sound Gram matrices, and as much room for their factors.
    pub open spec fn wf(&self) -> bool {
        self.grams().wf() && self.factors@.len() == self.gram@.len()
    }

    /// The damped Gram matrix to factor for one block, unless it is nonfinite.
    pub fn factor_input(&self, b: usize, lambda: R) -> (input: Option<Vec<R>>)
        requires
            self.wf(),
            b < self.blocks@.len(),
        ensures
            match input {
                Some(values) => {
                    &&& values@ == self.grams().damped(b as int, lambda)
                    &&& all_finite(values@)
                },
                None => !all_finite(self.grams().damped(b as int, lambda)),
            },
    {
        let block = self.blocks[b];
        let width: usize = block.width;
        assert(self.grams().blocks[b as int] == block);
        assert(self.gram@.len() == self.gram.len());
        let ghost wanted = self.grams().damped(b as int, lambda);
        proof {
            assert(0 <= width * width) by (nonlinear_arith);
        }
        let mut values: Vec<R> = Vec::new();
        let mut col: usize = 0;
        let mut k: usize = 0;
        while col < width
            invariant
                self.wf(),
                b < self.blocks@.len(),
                block == self.blocks@[b as int],
                width == block.width,
                block.start + width * width <= self.gram@.len(),
                self.gram@.len() <= usize::MAX,
                wanted == self.grams().damped(b as int, lambda),
                wanted.len() == width * width,
                col <= width,
                k == col * width,
                values@.len() == k,
                k <= width * width,
                forall|i: int| 0 <= i < k ==> #[trigger] values@[i] == wanted[i],
            decreases width - col,
        {
            let mut row: usize = 0;
            proof {
                assert(col * width + width <= width * width) by (nonlinear_arith)
                    requires
                        col < width,
                ;
            }
            while row < width
                invariant
                    self.wf(),
                    b < self.blocks@.len(),
                    block == self.blocks@[b as int],
                    width == block.width,
                    block.start + width * width <= self.gram@.len(),
                    self.gram@.len() <= usize::MAX,
                    wanted == self.grams().damped(b as int, lambda),
                    wanted.len() == width * width,
                    col < width,
                    row <= width,
                    k == col * width + row,
                    values@.len() == k,
                    col * width + width <= width * width,
                    forall|i: int| 0 <= i < k ==> #[trigger] values@[i] == wanted[i],
                decreases width - row,
            {
                proof {
                    lemma_square_offset(col as int, row as int, width as int);
                }
                let stored = self.gram[block.start + k];
                if row == col {
                    values.push(stored.plus(lambda));
                } else {
                    values.push(stored);
                }
                row += 1;
                k += 1;
            }
            proof {
                assert(col * width + width == (col + 1) * width) by (nonlinear_arith);
            }
            col += 1;
            proof {
                if col < width {
                    lemma_square_offset(col as int, 0, width as int);
                }
            }
        }
        assert(values@ =~= wanted);
        if norm_inf(values.as_slice()).is_ok() {
            Some(values)
        } else {
            None
        }
    }

    /// Keep the factorization of one block, or mark the block as failed.
    ///
    /// A missing factorization, or one whose diagonal is not finite and positive, fails.
    pub fn settle(&mut self, b: usize, factored: Option<Vec<R>>)
        requires
            old(self).wf(),
            b < old(self).blocks@.len(),
            factored matches Some(values) ==> values@.len() == old(self).blocks@[b as int].width
                * old(self).blocks@[b as int].width,
        ensures
            final(self).wf(),
            final(self).owners == old(self).owners,
            final(self).gram == old(self).gram,
            final(self).blocks@ == old(self).blocks@.update(
                b as int,
                VariableBlock {
                    fallback: !usable(
                        match factored {
                            Some(values) => Some(values@),
                            None => None,
                        },
                        old(self).blocks@[b as int].width as int,
                    ),
                    ..old(self).blocks@[b as int]
                },
            ),
            final(self).factors@.len() == old(self).factors@.len(),
            forall|k: int|
                0 <= k < old(self).factors@.len() ==> #[trigger] final(self).factors@[k] == (if
                !final(self).blocks@[b as int].fallback && 0 <= k - old(self).blocks@[b as int].start
                    < factored->0@.len() {
                    factored->0@[k - old(self).blocks@[b as int].start]
                } else {
                    old(self).factors@[k]
                }),
    {
        let block = self.blocks[b];
        let width: usize = block.width;
        assert(self.grams().blocks[b as int] == block);
        assert(self.factors@.len() == self.factors.len());
        let mut fallback = true;
        match &factored {
            None => {},
            Some(values) => {
                assert(values@.len() == values.len());
                fallback = false;
                let mut j: usize = 0;
                while j < width
                    invariant
                        values@.len() == width * width,
                        values@.len() <= usize::MAX,
                        j <= width,
                        fallback <==> (exists|i: int|
                            0 <= i < j && !({
                                &&& (#[trigger] values@[i * width + i]).finite_spec()
                                &&& !values@[i * width + i].at_most_spec(R::zero_spec())
                            })),
                    decreases width - j,
                {
                    proof {
                        lemma_square_offset(j as int, j as int, width as int);
                    }
                    let pivot = values[j * width + j];
                    if !pivot.is_finite() || pivot.at_most(R::zero()) {
                        fallback = true;
                        assert(!({
                            &&& values@[j * width + j].finite_spec()
                            &&& !values@[j * width + j].at_most_spec(R::zero_spec())
                        }));
                    }
                    j += 1;
                }
                assert(fallback == !positive_diagonal(values@, width as int));
                if !fallback {
                    let ghost before = self.factors@;
                    let mut k: usize = 0;
                    while k < values.len()
                        invariant
                            k <= values@.len(),
                            block.start + values@.len() <= self.factors@.len(),
                            self.factors@.len() == before.len(),
                            before.len() <= usize::MAX,
                            self.blocks == old(self).blocks,
                            self.owners == old(self).owners,
                            self.gram == old(self).gram,
                            forall|i: int|
                                0 <= i < before.len() ==> #[trigger] self.factors@[i] == if 0 <= i
                                    - block.start < k {
                                    values@[i - block.start]
                                } else {
                                    before[i]
                                },
                        decreases values@.len() - k,
                    {
                        self.factors.set(block.start + k, values[k]);
                        k += 1;
                    }
                }
            },
        }
        self.blocks.set(
            b,
            VariableBlock { col: block.col, width: block.width, start: block.start, fallback },
        );
        proof {
            assert forall|c: int| 0 <= c < self.owners@.len() implies (
            #[trigger] self.grams().owners[c] matches Some(owner) ==> {
                &&& owner < self.blocks@.len()
                &&& self.blocks@[owner as int].col <= c < self.blocks@[owner as int].col
                    + self.blocks@[owner as int].width
            }) by {
                assert(old(self).grams().owners[c] == self.owners@[c]);
            }
            assert forall|c: int| 0 <= c < self.blocks@.len() implies {
                &&& (#[trigger] self.grams().blocks[c]).start + self.blocks@[c].width
                    * self.blocks@[c].width <= self.gram@.len()
                &&& self.blocks@[c].col + self.blocks@[c].width <= self.owners@.len()
            } by {
                assert(old(self).grams().blocks[c].col == self.blocks@[c].col);
            }
        }
    }

    /// Number of blocks whose last factorization failed.
    pub fn fallbacks(&self) -> (count: usize)
        ensures
            count == self.blocks@.filter(|block: VariableBlock| block.fallback).len(),
    {
        let ghost failed = |block: VariableBlock| block.fallback;
        let mut count: usize = 0;
        let mut b: usize = 0;
        proof {
            reveal(Seq::filter);
            assert(self.blocks@.take(0) =~= Seq::<VariableBlock>::empty());
        }
        while b < self.blocks.len()
            invariant
                failed == (|block: VariableBlock| block.fallback),
                b <= self.blocks@.len(),
                count == self.blocks@.take(b as int).filter(failed).len(),
                count <= b,
            decreases self.blocks@.len() - b,
        {
            proof {
                reveal(Seq::filter);
                assert(self.blocks@.take(b + 1).drop_last() =~= self.blocks@.take(b as int));
            }
            if self.blocks[b].fallback {
                count += 1;
            }
            b += 1;
        }
        assert(self.blocks@.take(b as int) =~= self.blocks@);
        count
    }

    /// Coordinates with those that no block owns divided by the damping, unless that is zero.
    pub open spec fn divided(&self, rhs: Seq<R>, offset: int, lambda: R) -> Seq<R> {
        Seq::new(
            rhs.len(),
            |i: int|
                if self.owners@[offset + i] is None && !lambda.same_spec(R::zero_spec()) {
                    rhs[i].over_spec(lambda)
                } else {
                    rhs[i]
                },
        )
    }

    /// Divide the coordinates that no block owns by the damping, unless that is zero.
    ///
    /// Nothing couples to such a coordinate, so its share of the damped normal equations
    /// is `lambda` alone; without damping its increment stays zero.
    pub fn divide_unowned(&self, rhs: &mut Vec<R>, offset: usize, lambda: R)
        requires
            offset + old(rhs)@.len() <= self.owners@.len(),
        ensures
            final(rhs)@ == self.divided(old(rhs)@, offset as int, lambda),
    {
        let damped = !lambda.same(R::zero());
        assert(self.owners@.len() == self.owners.len());
        let mut i: usize = 0;
        while i < rhs.len()
            invariant
                i <= rhs@.len(),
                rhs@.len() == old(rhs)@.len(),
                offset + rhs@.len() <= self.owners@.len(),
                self.owners@.len() <= usize::MAX,
                damped == !lambda.same_spec(R::zero_spec()),
                forall|k: int|
                    0 <= k < rhs@.len() ==> #[trigger] rhs@[k] == if k < i
                        && self.owners@[offset + k] is None && damped {
                        old(rhs)@[k].over_spec(lambda)
                    } else {
                        old(rhs)@[k]
                    },
            decreases rhs@.len() - i,
        {
            if damped && self.owners[offset + i].is_none() {
                let quotient = rhs[i].over(lambda);
                rhs.set(i, quotient);
            }
            i += 1;
        }
        assert(rhs@ =~= Seq::new(
            old(rhs)@.len(),
            |i: int|
                if self.owners@[offset + i] is None && !lambda.same_spec(R::zero_spec()) {
                    old(rhs)@[i].over_spec(lambda)
                } else {
                    old(rhs)@[i]
                },
        ));
    }
}

/// Values replaced from `at` on by as many of some others as both lists have, but at most
/// `width`.
pub open spec fn overlaid<R>(values: Seq<R>, at: int, width: int, part: Seq<R>) -> Seq<R> {
    Seq::new(
        values.len(),
        |i: int|
            if at <= i < at + width && i - at < part.len() {
                part[i - at]
            } else {
                values[i]
            },
    )
}

/// Replace values from `at` on.
fn overlay<R: Real>(values: &mut Vec<R>, at: usize, width: usize, part: &[R])
    requires
        at + width <= old(values)@.len(),
    ensures
        final(values)@ == overlaid(old(values)@, at as int, width as int, part@),
{
    assert(values@.len() == values.len());
    let mut i: usize = 0;
    while i < width && i < part.len()
        invariant
            at + width <= values@.len(),
            values@.len() <= usize::MAX,
            values@.len() == old(values)@.len(),
            i <= width,
            i <= part@.len(),
            values@ == overlaid(old(values)@, at as int, i as int, part@),
        decreases width - i,
    {
        values.set(at + i, part[i]);
        i += 1;
        assert(values@ =~= overlaid(old(values)@, at as int, i as int, part@));
    }
    assert(values@ =~= overlaid(old(values)@, at as int, width as int, part@));
}

impl<R: Real> GramView<R> {
    /// The factor of a damped Gram matrix, where that is finite and has one.
    pub open spec fn attempted<K: Triangular<R>>(self, kernel: K, b: int, lambda: R) -> Option<
        Seq<R>,
    > {
        let width = self.blocks[b].width;
        let input = self.damped(b, lambda);
        if !all_finite(input) {
            None
        } else {
            match kernel.cholesky_spec(width, lower_triangle(width as nat, input)) {
                Some(values) => if values.len() == width * width {
                    Some(values)
                } else {
                    None
                },
                None => None,
            }
        }
    }

    /// A block without a usable factor.
    pub open spec fn fails<K: Triangular<R>>(self, kernel: K, b: int, lambda: R) -> bool {
        !usable(self.attempted(kernel, b, lambda), self.blocks[b].width as int)
    }
}

impl<R: Real> BlockFactors<R> {
    /// The same columns, owners and Gram matrices.
    pub open spec fn same_blocks(&self, other: &Self) -> bool {
        &&& self.owners == other.owners
        &&& self.gram == other.gram
        &&& self.blocks@.len() == other.blocks@.len()
        &&& forall|b: int|
            0 <= b < self.blocks@.len() ==> {
                &&& (#[trigger] self.blocks@[b]).col == other.blocks@[b].col
                &&& self.blocks@[b].width == other.blocks@[b].width
                &&& self.blocks@[b].start == other.blocks@[b].start
            }
    }

    /// The stored factor of one block.
    pub open spec fn block_factor(&self, b: int) -> Seq<R> {
        let block = self.blocks@[b];
        self.factors@.subrange(
            block.start as int,
            block.start + block.width * block.width,
        )
    }

    /// The first `n` blocks hold their factors under some damping, or are marked as failed.
    pub open spec fn factored<K: Triangular<R>>(&self, kernel: K, lambda: R, n: int) -> bool {
        forall|b: int|
            0 <= b < n ==> {
                &&& (#[trigger] self.blocks@[b]).fallback == self.grams().fails(kernel, b, lambda)
                &&& !self.blocks@[b].fallback ==> self.grams().attempted(kernel, b, lambda)
                    == Some(self.block_factor(b))
            }
    }

    /// The input of a factorization depends on the Gram matrices alone.
    proof fn lemma_same_attempts<K: Triangular<R>>(&self, other: &Self, kernel: K, lambda: R)
        requires
            self.same_blocks(other),
        ensures
            forall|b: int|
                0 <= b < self.blocks@.len() ==> #[trigger] self.grams().attempted(kernel, b, lambda)
                    == other.grams().attempted(kernel, b, lambda),
    {
        assert forall|b: int| 0 <= b < self.blocks@.len() implies #[trigger] self.grams().attempted(
            kernel,
            b,
            lambda,
        ) == other.grams().attempted(kernel, b, lambda) by {
            assert(self.blocks@[b].width == other.blocks@[b].width);
            assert(self.grams().damped(b, lambda) =~= other.grams().damped(b, lambda));
        }
    }

    /// Factor one damped block, or mark it as failed.
    fn factor_block<K: Triangular<R>>(&mut self, kernel: &K, lambda: R, b: usize)
        requires
            old(self).wf(),
            b < old(self).blocks@.len(),
            old(self).factored(*kernel, lambda, b as int),
        ensures
            final(self).wf(),
            final(self).same_blocks(old(self)),
            final(self).factored(*kernel, lambda, b + 1),
    {
        let width: usize = self.blocks[b].width;
        let factored = match self.factor_input(b, lambda) {
            None => None,
            Some(input) => match kernel.cholesky(width, input.as_slice()) {
                None => None,
                Some(values) => if values.len() == input.len() {
                    Some(values)
                } else {
                    None
                },
            },
        };
        assert(match factored {
            Some(values) => self.grams().attempted(*kernel, b as int, lambda) == Some(values@),
            None => self.grams().attempted(*kernel, b as int, lambda) is None,
        });
        self.settle(b, factored);
        proof {
            self.lemma_same_attempts(old(self), *kernel, lambda);
            assert forall|a: int| 0 <= a < b + 1 implies {
                &&& (#[trigger] self.blocks@[a]).fallback == self.grams().fails(*kernel, a, lambda)
                &&& !self.blocks@[a].fallback ==> self.grams().attempted(*kernel, a, lambda)
                    == Some(self.block_factor(a))
            } by {
                assert(self.grams().attempted(*kernel, a, lambda) == old(self).grams().attempted(
                    *kernel,
                    a,
                    lambda,
                ));
                if a < b {
                    assert(old(self).blocks@[a].start + old(self).blocks@[a].width
                        * old(self).blocks@[a].width <= old(self).blocks@[b as int].start);
                    assert(self.block_factor(a) =~= old(self).block_factor(a));
                } else if !self.blocks@[a].fallback {
                    assert(self.block_factor(a) =~= factored->0@);
                }
            }
        }
    }

    /// Factor all blocks under some damping, and count those that failed.
    pub fn factor<K: Triangular<R>>(&mut self, kernel: &K, lambda: R) -> (failures: usize)
        requires
            old(self).wf(),
        ensures
            final(self).wf(),
            final(self).same_blocks(old(self)),
            final(self).factored(*kernel, lambda, final(self).blocks@.len() as int),
            failures == final(self).blocks@.filter(|block: VariableBlock| block.fallback).len(),
            failures == 0 <==> (forall|b: int|
                0 <= b < old(self).blocks@.len() ==> !#[trigger] old(self).grams().fails(
                    *kernel,
                    b,
                    lambda,
                )),
    {
        let mut b: usize = 0;
        while b < self.blocks.len()
            invariant
                self.wf(),
                self.same_blocks(old(self)),
                b <= self.blocks@.len(),
                self.factored(*kernel, lambda, b as int),
            decreases self.blocks@.len() - b,
        {
            self.factor_block(kernel, lambda, b);
            b += 1;
        }
        proof {
            self.lemma_same_attempts(old(self), *kernel, lambda);
            let failed = |block: VariableBlock| block.fallback;
            let all = self.blocks@.filter(failed);
            if all.len() > 0 {
                self.blocks@.lemma_filter_pred(failed, 0);
                self.blocks@.lemma_filter_contains_rev(failed, all[0]);
                let b = self.blocks@.index_of(all[0]);
                assert(old(self).grams().fails(*kernel, b, lambda));
            } else {
                assert forall|b: int| 0 <= b < old(self).blocks@.len() implies !#[trigger] old(
                    self,
                ).grams().fails(*kernel, b, lambda) by {
                    if self.blocks@[b].fallback {
                        self.blocks@.lemma_filter_contains(failed, b);
                        assert(all.contains(self.blocks@[b]));
                    }
                }
            }
        }
        self.fallbacks()
    }

    /// Values with the part of each of the first `n` blocks that did not fail solved by its
    /// factor, or by the transpose of it.
    pub open spec fn transformed<K: Triangular<R>>(
        &self,
        kernel: K,
        rhs: Seq<R>,
        transpose: bool,
        n: int,
    ) -> Seq<R>
        decreases n,
    {
        if n <= 0 {
            rhs
        } else {
            let before = self.transformed(kernel, rhs, transpose, n - 1);
            let block = self.blocks@[n - 1];
            let part = before.subrange(block.col as int, block.col + block.width);
            if block.fallback {
                before
            } else if transpose {
                overlaid(
                    before,
                    block.col as int,
                    block.width as int,
                    kernel.lower_spec(
                        block.width,
                        lower_triangle(block.width as nat, self.block_factor(n - 1)),
                        part,
                        1,
                    ),
                )
            } else {
                overlaid(
                    before,
                    block.col as int,
                    block.width as int,
                    kernel.upper_spec(
                        block.width,
                        lower_triangle(block.width as nat, self.block_factor(n - 1)),
                        part,
                        1,
                    ),
                )
            }
        }
    }

    /// Apply the inverse transposed factors, or with `transpose` the inverse factors. Failed
    /// blocks act as the identity, which suits a preconditioner.
    pub fn apply_factor_inverse<K: Triangular<R>>(
        &self,
        kernel: &K,
        rhs: &mut Vec<R>,
        transpose: bool,
    )
        requires
            self.wf(),
            old(rhs)@.len() == self.owners@.len(),
        ensures
            final(rhs)@ == self.transformed(
                *kernel,
                old(rhs)@,
                transpose,
                self.blocks@.len() as int,
            ),
            final(rhs)@.len() == old(rhs)@.len(),
    {
        let mut b: usize = 0;
        while b < self.blocks.len()
            invariant
                self.wf(),
                rhs@.len() == self.owners@.len(),
                b <= self.blocks@.len(),
                rhs@ == self.transformed(*kernel, old(rhs)@, transpose, b as int),
            decreases self.blocks@.len() - b,
        {
            let block = self.blocks[b];
            if !block.fallback {
                assert(self.grams().blocks[b as int] == block);
                assert(rhs@.len() == rhs.len());
                let l = self.factor_slice(b);
                let part = slice_subrange(rhs.as_slice(), block.col, block.col + block.width);
                let answer = if transpose {
                    kernel.solve_lower(block.width, l, part, 1)
                } else {
                    kernel.solve_upper(block.width, l, part, 1)
                };
                overlay(rhs, block.col, block.width, answer.as_slice());
            }
            b += 1;
        }
    }

    /// The Gram matrix of a block, column by column; its lower triangle counts.
    pub open spec fn gram_block(&self, b: int) -> Seq<R> {
        let block = self.blocks@[b];
        self.gram@.subrange(block.start as int, block.start + block.width * block.width)
    }

    /// The Gram matrices and the columns at which their blocks begin.
    pub fn gram_blocks(&self) -> (grams: Vec<(usize, &[R])>)
        requires
            self.wf(),
        ensures
            grams@.len() == self.blocks@.len(),
            forall|b: int|
                0 <= b < grams@.len() ==> (#[trigger] grams@[b]).0 == self.blocks@[b].col
                    && grams@[b].1@ == self.gram_block(b),
    {
        let mut grams: Vec<(usize, &[R])> = Vec::new();
        let mut b: usize = 0;
        while b < self.blocks.len()
            invariant
                b <= self.blocks@.len(),
                self.wf(),
                grams@.len() == b,
                forall|k: int|
                    0 <= k < b ==> (#[trigger] grams@[k]).0 == self.blocks@[k].col
                        && grams@[k].1@ == self.gram_block(k),
            decreases self.blocks@.len() - b,
        {
            let block = self.blocks[b];
            assert(self.grams().blocks[b as int] == block);
            assert(self.gram@.len() == self.gram.len());
            assert(0 <= block.width * block.width) by (nonlinear_arith);
            let end: usize = block.start + block.width * block.width;
            grams.push((block.col, slice_subrange(self.gram.as_slice(), block.start, end)));
            b += 1;
        }
        grams
    }

    /// The stored factor of one block.
    fn factor_slice(&self, b: usize) -> (factor: &[R])
        requires
            self.wf(),
            b < self.blocks@.len(),
        ensures
            factor@ == self.block_factor(b as int),
    {
        let block = self.blocks[b];
        assert(self.factors@.len() == self.factors.len());
        assert(self.grams().blocks[b as int] == block);
        assert(block.width * block.width >= 0) by (nonlinear_arith)
            requires
                block.width >= 0,
        ;
        slice_subrange(
            self.factors.as_slice(),
            block.start,
            block.start + block.width * block.width,
        )
    }

    /// Every block that starts among some coordinates also ends there.
    pub open spec fn separates(&self, offset: int, len: int) -> bool {
        forall|b: int|
            0 <= b < self.blocks@.len() && offset <= (#[trigger] self.blocks@[b]).col < offset + len
                ==> self.blocks@[b].col + self.blocks@[b].width <= offset + len
    }

    /// Values with the parts of those of the first `n` blocks that lie among them solved by
    /// the damped Gram matrix of the block.
    pub open spec fn eliminated<K: Triangular<R>>(
        &self,
        kernel: K,
        rhs: Seq<R>,
        offset: int,
        n: int,
    ) -> Seq<R>
        decreases n,
    {
        if n <= 0 {
            rhs
        } else {
            let before = self.eliminated(kernel, rhs, offset, n - 1);
            let block = self.blocks@[n - 1];
            if offset <= block.col < offset + rhs.len() {
                let at = block.col - offset;
                let factor = lower_triangle(block.width as nat, self.block_factor(n - 1));
                let half = kernel.lower_spec(
                    block.width,
                    factor,
                    before.subrange(at, at + block.width),
                    1,
                );
                overlaid(
                    before,
                    at,
                    block.width as int,
                    kernel.upper_spec(block.width, factor, half, 1),
                )
            } else {
                before
            }
        }
    }

    /// Values solved by the damped normal equations of the blocks alone.
    pub open spec fn solved<K: Triangular<R>>(
        &self,
        kernel: K,
        rhs: Seq<R>,
        offset: int,
        lambda: R,
    ) -> Seq<R> {
        self.divided(
            self.eliminated(kernel, rhs, offset, self.blocks@.len() as int),
            offset,
            lambda,
        )
    }

    /// Apply the inverse damped normal blocks within a range of coordinates. Failed factors
    /// are the caller's concern: an elimination must be exact.
    pub fn solve_normal<K: Triangular<R>>(
        &self,
        kernel: &K,
        rhs: &mut Vec<R>,
        offset: usize,
        lambda: R,
    )
        requires
            self.wf(),
            offset + old(rhs)@.len() <= self.owners@.len(),
            self.separates(offset as int, old(rhs)@.len() as int),
        ensures
            final(rhs)@ == self.solved(*kernel, old(rhs)@, offset as int, lambda),
            final(rhs)@.len() == old(rhs)@.len(),
    {
        let len: usize = rhs.len();
        assert(self.owners@.len() == self.owners.len());
        let mut b: usize = 0;
        while b < self.blocks.len()
            invariant
                self.wf(),
                len == old(rhs)@.len(),
                rhs@.len() == len,
                self.separates(offset as int, len as int),
                offset + len <= self.owners@.len(),
                self.owners@.len() <= usize::MAX,
                b <= self.blocks@.len(),
                rhs@ == self.eliminated(*kernel, old(rhs)@, offset as int, b as int),
            decreases self.blocks@.len() - b,
        {
            let block = self.blocks[b];
            if block.col >= offset && block.col < offset + len {
                let at: usize = block.col - offset;
                assert(self.grams().blocks[b as int] == block);
                let l = self.factor_slice(b);
                let part = slice_subrange(rhs.as_slice(), at, at + block.width);
                let half = kernel.solve_lower(block.width, l, part, 1);
                let answer = kernel.solve_upper(block.width, l, half.as_slice(), 1);
                overlay(rhs, at, block.width, answer.as_slice());
            }
            b += 1;
        }
        self.divide_unowned(rhs, offset, lambda);
    }
}

} // verus!
