//! Undamped dense information from a cached linearization.
use crate::backend::LeastSquaresBackend;
use crate::error::SolverError;
use crate::kernels::Triangular;
use crate::linear_model::{LinearView, LinearizedModel};
use crate::normal::{storable, DenseNormalCholesky, NormalView, Panel, PanelView};
use crate::scalar::Real;
use vstd::prelude::*;
use vstd::slice::slice_subrange;

verus! {

/// The coefficients of a stored block.
pub open spec fn stored<R>(linear: LinearView<R>, b: int) -> PanelView<R> {
    let block = linear.blocks[b];
    PanelView {
        rows: block.rows as nat,
        cols: block.cols as nat,
        values: linear.values.subrange(
            block.start as int,
            block.start + block.rows * block.cols,
        ),
    }
}

/// Two stored blocks cover the same rows.
pub open spec fn aligned<R>(linear: LinearView<R>, b: int, k: int) -> bool {
    linear.blocks[k].row == linear.blocks[b].row && linear.blocks[k].rows == linear.blocks[b].rows
}

/// A matrix with the products of block `b` with those of the first `k` others that cover the
/// same rows, each in the lower triangle.
pub open spec fn with_aligned<R: Real>(
    matrix: NormalView<R>,
    linear: LinearView<R>,
    b: int,
    k: int,
) -> NormalView<R>
    decreases k,
{
    if k <= 0 {
        matrix
    } else {
        let before = with_aligned(matrix, linear, b, k - 1);
        let own = linear.blocks[b].col as int;
        let other = linear.blocks[k - 1].col as int;
        if !aligned(linear, b, k - 1) {
            before
        } else if own > other {
            before.with_product(own, other, stored(linear, b), stored(linear, k - 1), false)
        } else {
            before.with_product(other, own, stored(linear, k - 1), stored(linear, b), false)
        }
    }
}

/// The information of the first `n` stored blocks: the lower triangle of `J^T J`.
pub open spec fn information_of<R: Real>(linear: LinearView<R>, n: int) -> NormalView<R>
    decreases n,
{
    if n <= 0 {
        NormalView::empty(linear.cols)
    } else {
        let b = n - 1;
        let col = linear.blocks[b].col as int;
        with_aligned(
            information_of(linear, b).with_product(
                col,
                col,
                stored(linear, b),
                stored(linear, b),
                true,
            ),
            linear,
            b,
            b,
        )
    }
}

proof fn lemma_aligned_dimension<R: Real>(
    matrix: NormalView<R>,
    linear: LinearView<R>,
    b: int,
    k: int,
)
    ensures
        with_aligned(matrix, linear, b, k).dimension == matrix.dimension,
    decreases k,
{
    if k > 0 {
        lemma_aligned_dimension(matrix, linear, b, k - 1);
    }
}

/// Information has the coordinates of the linearization it comes from.
pub proof fn lemma_information_dimension<R: Real>(linear: LinearView<R>, n: int)
    ensures
        information_of(linear, n).dimension == linear.cols,
    decreases n,
{
    if n > 0 {
        let b = n - 1;
        let col = linear.blocks[b].col as int;
        lemma_information_dimension(linear, b);
        lemma_aligned_dimension(
            information_of(linear, b).with_product(
                col,
                col,
                stored(linear, b),
                stored(linear, b),
                true,
            ),
            linear,
            b,
            b,
        );
    }
}

impl<R: Real> LinearizedModel<R> {
    /// The coefficients of a stored block.
    fn panel(&self, b: usize) -> (panel: Panel<'_, R>)
        requires
            self.wf(),
            b < self.jacobian.blocks@.len(),
        ensures
            panel@ == stored(self@, b as int),
            panel@.wf(),
    {
        let block = self.jacobian.blocks[b];
        assert(self.jacobian.values@.len() == self.jacobian.values.len());
        let ghost size = block.rows * block.cols;
        assert(size >= 0) by (nonlinear_arith)
            requires
                size == block.rows * block.cols,
        ;
        let end: usize = block.start + block.rows * block.cols;
        Panel {
            rows: block.rows,
            cols: block.cols,
            values: slice_subrange(self.jacobian.values.as_slice(), block.start, end),
        }
    }

    /// Assemble the information of the stored rows, without damping or scales.
    pub fn assemble<K: Triangular<R>>(&self, normal: &mut DenseNormalCholesky<R, K>) -> (assembled:
        Result<(), SolverError>)
        requires
            self.wf(),
            old(normal).wf(),
        ensures
            final(normal).wf(),
            final(normal).kernel == old(normal).kernel,
            assembled == storable::<R>(self.jacobian.cols as nat),
            assembled is Ok ==> {
                &&& final(normal)@ == information_of(self@, self@.blocks.len() as int)
                &&& !final(normal).factorized
            },
    {
        let ghost kernel = normal.kernel;
        match normal.prepare(self.jacobian.cols) {
            Ok(_) => {},
            Err(error) => {
                return Err(error);
            },
        }
        normal.clear();
        let mut b: usize = 0;
        while b < self.jacobian.blocks.len()
            invariant
                self.wf(),
                b <= self.jacobian.blocks@.len(),
                normal.wf(),
                normal.kernel == kernel,
                !normal.factorized,
                normal.dimension == self.jacobian.cols,
                normal@ == information_of(self@, b as int),
            decreases self.jacobian.blocks@.len() - b,
        {
            let block = self.jacobian.blocks[b];
            let own = self.panel(b);
            normal.add_product(block.col, block.col, &own, &own, true);
            let ghost started = normal@;
            let mut k: usize = 0;
            while k < b
                invariant
                    self.wf(),
                    b < self.jacobian.blocks@.len(),
                    block == self.jacobian.blocks@[b as int],
                    own@ == stored(self@, b as int),
                    own@.wf(),
                    k <= b,
                    normal.wf(),
                    normal.kernel == kernel,
                    !normal.factorized,
                    normal.dimension == self.jacobian.cols,
                    normal@ == with_aligned(started, self@, b as int, k as int),
                decreases b - k,
            {
                let other = self.jacobian.blocks[k];
                if other.row == block.row && other.rows == block.rows {
                    let panel = self.panel(k);
                    if block.col > other.col {
                        normal.add_product(block.col, other.col, &own, &panel, false);
                    } else {
                        normal.add_product(other.col, block.col, &panel, &own, false);
                    }
                }
                k += 1;
            }
            b += 1;
        }
        Ok(())
    }
}

} // verus!
