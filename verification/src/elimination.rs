//! Reducing rows to what they say about the variables that stay.
use crate::backend::{admissible, all_finite, finite_values, LeastSquaresBackend};
use crate::error::{EvaluationError, SolverError};
use crate::linearization::{block_views, lemma_entry_index, BlockView, JacobianBlock};
use crate::priors::{Prior, PriorView};
use crate::scalar::Real;
use vstd::prelude::*;

verus! {

/// Collected rows: Jacobian coordinates, each row followed by its residual.
#[verifier::ext_equal]
pub struct RowsView<R> {
    pub dimension: nat,
    pub height: nat,
    pub values: Seq<R>,
}

/// A collector of rows, stored one after the other.
pub struct Rows<R> {
    pub dimension: usize,
    pub height: usize,
    pub values: Vec<R>,
}

/// The value that the first `k` blocks give to a place in an added row.
pub open spec fn cell<R: Real>(
    dimension: nat,
    residual: Seq<R>,
    blocks: Seq<BlockView<R>>,
    columns: Seq<usize>,
    row: int,
    col: int,
    k: int,
) -> R
    decreases k,
{
    if col == dimension {
        residual[row]
    } else if k <= 0 {
        R::zero_spec()
    } else if columns[k - 1] <= col < columns[k - 1] + blocks[k - 1].cols {
        blocks[k - 1].entry(row, col - columns[k - 1])
    } else {
        cell(dimension, residual, blocks, columns, row, col, k - 1)
    }
}

impl<R: Real> RowsView<R> {
    /// Every row has all coordinates and a residual.
    pub open spec fn wf(self) -> bool {
        self.values.len() == self.height * (self.dimension + 1)
    }

    /// The value in a row at a coordinate, or its residual after the last coordinate.
    pub open spec fn at(self, row: int, col: int) -> R {
        self.values[row * (self.dimension + 1) + col]
    }

    /// The rows that an emission adds.
    pub open spec fn added(
        self,
        residual: Seq<R>,
        blocks: Seq<BlockView<R>>,
        columns: Seq<usize>,
        rows: nat,
    ) -> Seq<R> {
        let stride = (self.dimension + 1) as int;
        Seq::new(
            rows * (self.dimension + 1),
            |i: int|
                cell(
                    self.dimension,
                    residual,
                    blocks,
                    columns,
                    i / stride,
                    i % stride,
                    blocks.len() as int,
                ),
        )
    }

    /// The rows after an emission.
    pub open spec fn extended(
        self,
        residual: Seq<R>,
        blocks: Seq<BlockView<R>>,
        columns: Seq<usize>,
    ) -> Result<Self, EvaluationError> {
        if self.values.len() + residual.len() * (self.dimension + 1) > usize::MAX {
            Err(EvaluationError::DimensionMismatch)
        } else {
            Ok(
                RowsView {
                    dimension: self.dimension,
                    height: self.height + residual.len(),
                    values: self.values + self.added(residual, blocks, columns, residual.len()),
                },
            )
        }
    }
}

impl<R> View for Rows<R> {
    type V = RowsView<R>;

    open spec fn view(&self) -> RowsView<R> {
        RowsView {
            dimension: self.dimension as nat,
            height: self.height as nat,
            values: self.values@,
        }
    }
}

impl<R: Real> Rows<R> {
    /// No rows.
    pub fn new() -> (rows: Self)
        ensures
            rows@.wf(),
            rows@ == (RowsView { dimension: 0, height: 0, values: Seq::<R>::empty() }),
    {
        Rows { dimension: 0, height: 0, values: Vec::new() }
    }

    /// Append one row of an emission.
    fn append(
        &mut self,
        residual: &[R],
        blocks: &[JacobianBlock<R>],
        columns: &[usize],
        row: usize,
    )
        requires
            old(self).dimension < usize::MAX,
            old(self).values@.len() + old(self).dimension + 1 <= usize::MAX,
            admissible(old(self).dimension as nat, residual@, block_views(blocks@), columns@),
            row < residual@.len(),
        ensures
            final(self).dimension == old(self).dimension,
            final(self).height == old(self).height,
            final(self).values@ == old(self).values@ + Seq::new(
                (old(self).dimension + 1) as nat,
                |col: int|
                    cell(
                        old(self).dimension as nat,
                        residual@,
                        block_views(blocks@),
                        columns@,
                        row as int,
                        col,
                        blocks@.len() as int,
                    ),
            ),
    {
        let ghost before = self.values@;
        let ghost views = block_views(blocks@);
        let n: usize = self.dimension;
        let start: usize = self.values.len();
        let mut col: usize = 0;
        while col < n
            invariant
                n == self.dimension,
                self.dimension == old(self).dimension,
                self.height == old(self).height,
                start == before.len(),
                col <= n,
                self.values@.len() == start + col,
                forall|i: int| 0 <= i < start ==> self.values@[i] == before[i],
                forall|c: int| 0 <= c < col ==> #[trigger] self.values@[start + c] == R::zero_spec(),
            decreases n - col,
        {
            self.values.push(R::zero());
            col += 1;
        }
        self.values.push(residual[row]);
        let mut k: usize = 0;
        while k < blocks.len()
            invariant
                n == self.dimension,
                self.dimension == old(self).dimension,
                self.height == old(self).height,
                views == block_views(blocks@),
                admissible(n as nat, residual@, views, columns@),
                row < residual@.len(),
                start == before.len(),
                start + n + 1 <= usize::MAX,
                k <= blocks@.len(),
                self.values@.len() == start + n + 1,
                forall|i: int| 0 <= i < start ==> self.values@[i] == before[i],
                forall|c: int|
                    0 <= c <= n ==> #[trigger] self.values@[start + c] == cell(
                        n as nat,
                        residual@,
                        views,
                        columns@,
                        row as int,
                        c,
                        k as int,
                    ),
            decreases blocks@.len() - k,
        {
            let block = &blocks[k];
            assert(views[k as int] == block@);
            let column: usize = columns[k];
            let ghost earlier = self.values@;
            let mut c: usize = 0;
            while c < block.cols
                invariant
                    n == self.dimension,
                    self.dimension == old(self).dimension,
                    self.height == old(self).height,
                    block@.wf(),
                    block@.rows == residual@.len(),
                    row < residual@.len(),
                    c <= block.cols,
                    column + block.cols <= n,
                    start + n + 1 <= usize::MAX,
                    earlier.len() == start + n + 1,
                    self.values@.len() == start + n + 1,
                    forall|i: int|
                        0 <= i < start + n + 1 ==> #[trigger] self.values@[i] == if start + column
                            <= i < start + column + c {
                            block@.entry(row as int, i - start - column)
                        } else {
                            earlier[i]
                        },
                decreases block.cols - c,
            {
                let value = block.entry(row, c);
                self.values.set(start + column + c, value);
                c += 1;
            }
            assert forall|c: int| 0 <= c <= n implies #[trigger] self.values@[start + c] == cell(
                n as nat,
                residual@,
                views,
                columns@,
                row as int,
                c,
                k + 1,
            ) by {
                assert(earlier[start + c] == cell(
                    n as nat,
                    residual@,
                    views,
                    columns@,
                    row as int,
                    c,
                    k as int,
                ));
            }
            k += 1;
        }
        let ghost added = Seq::new(
            (n + 1) as nat,
            |col: int|
                cell(n as nat, residual@, views, columns@, row as int, col, blocks@.len() as int),
        );
        assert forall|i: int| 0 <= i < self.values@.len() implies #[trigger] self.values@[i] == (before
            + added)[i] by {
            if i >= start {
                assert(self.values@[start + (i - start)] == added[i - start]);
            }
        }
        assert(self.values@ =~= before + added);
    }
}

proof fn lemma_added_row<R: Real>(
    rows: RowsView<R>,
    residual: Seq<R>,
    blocks: Seq<BlockView<R>>,
    columns: Seq<usize>,
    n: nat,
)
    ensures
        rows.added(residual, blocks, columns, n + 1) == rows.added(residual, blocks, columns, n)
            + Seq::new(
            rows.dimension + 1,
            |col: int|
                cell(
                    rows.dimension,
                    residual,
                    blocks,
                    columns,
                    n as int,
                    col,
                    blocks.len() as int,
                ),
        ),
{
    let stride = (rows.dimension + 1) as int;
    let longer = rows.added(residual, blocks, columns, n + 1);
    let shorter = rows.added(residual, blocks, columns, n);
    let last = Seq::new(
        rows.dimension + 1,
        |col: int|
            cell(
                rows.dimension,
                residual,
                blocks,
                columns,
                n as int,
                col,
                blocks.len() as int,
            ),
    );
    assert((n + 1) * stride == n * stride + stride) by (nonlinear_arith);
    assert(n * stride >= 0) by (nonlinear_arith)
        requires
            stride > 0,
    ;
    assert forall|i: int| 0 <= i < longer.len() implies #[trigger] longer[i] == (shorter + last)[i] by {
        if i >= n * stride {
            vstd::arithmetic::div_mod::lemma_fundamental_div_mod_converse(
                i,
                stride,
                n as int,
                i - n * stride,
            );
        }
    }
    assert(longer =~= shorter + last);
}

impl<R: Real> LeastSquaresBackend for Rows<R> {
    type Scalar = R;

    type Model = RowsView<R>;

    type Shape = ();

    open spec fn wf(&self) -> bool {
        self@.wf() && self.dimension < usize::MAX
    }

    open spec fn dimension(&self) -> nat {
        self.dimension as nat
    }

    open spec fn model(&self) -> RowsView<R> {
        self@
    }

    open spec fn shape(&self) -> () {
        ()
    }

    open spec fn usable(&self) -> bool {
        true
    }

    open spec fn fresh(&self) -> bool {
        true
    }

    open spec fn keeps(&self, model: RowsView<R>) -> bool {
        self@ == model
    }

    open spec fn empty_spec(shape: (), dimension: nat) -> RowsView<R> {
        RowsView { dimension, height: 0, values: Seq::empty() }
    }

    open spec fn extended_spec(
        model: RowsView<R>,
        residual: Seq<R>,
        blocks: Seq<BlockView<R>>,
        columns: Seq<usize>,
    ) -> Result<RowsView<R>, EvaluationError> {
        model.extended(residual, blocks, columns)
    }

    open spec fn gradient_norm_spec(model: RowsView<R>) -> Result<R, SolverError> {
        Err(SolverError::LinearSolveFailed)
    }

    open spec fn prepare_spec(&self, dimension: nat) -> Result<(), SolverError> {
        if dimension < usize::MAX {
            Ok(())
        } else {
            Err(SolverError::Evaluation(EvaluationError::DimensionMismatch))
        }
    }

    /// Rows are there to be reduced, not solved.
    open spec fn answers(before: Self, after: Self, step: Result<Seq<R>, SolverError>) -> bool {
        &&& step == Err::<Seq<R>, SolverError>(SolverError::LinearSolveFailed)
        &&& after == before
    }

    fn prepare(&mut self, dimension: usize) -> (prepared: Result<(), SolverError>) {
        if dimension == usize::MAX {
            return Err(SolverError::Evaluation(EvaluationError::DimensionMismatch));
        }
        self.values.clear();
        self.height = 0;
        self.dimension = dimension;
        Ok(())
    }

    fn clear(&mut self) {
        self.values.clear();
        self.height = 0;
        assert(self@ =~= Self::empty_spec((), self.dimension as nat));
    }

    fn accumulate(
        &mut self,
        residual: &[R],
        blocks: &[JacobianBlock<R>],
        columns: &[usize],
    ) -> (added: Result<(), EvaluationError>) {
        let ghost before = self@;
        let ghost views = block_views(blocks@);
        let stride: usize = self.dimension + 1;
        let start: usize = self.values.len();
        let fits = match residual.len().checked_mul(stride) {
            Some(size) => start.checked_add(size).is_some(),
            None => false,
        };
        proof {
            assert(residual@.len() == residual.len());
        }
        if !fits {
            return Err(EvaluationError::DimensionMismatch);
        }
        proof {
            let stride = stride as int;
            let h = before.height as int;
            let m = residual@.len() as int;
            assert(h * stride >= h && (h + m) * stride == h * stride + m * stride) by (nonlinear_arith)
                requires
                    stride >= 1,
                    h >= 0,
            ;
            assert(m * stride >= m) by (nonlinear_arith)
                requires
                    stride >= 1,
                    m >= 0,
            ;
        }
        let mut row: usize = 0;
        assert(self@.added(residual@, views, columns@, 0) =~= Seq::empty());
        while row < residual.len()
            invariant
                before == old(self)@,
                before.wf(),
                views == block_views(blocks@),
                self.dimension == before.dimension,
                self.dimension < usize::MAX,
                stride == self.dimension + 1,
                self.height == before.height,
                admissible(self.dimension as nat, residual@, views, columns@),
                row <= residual@.len(),
                before.values.len() + residual@.len() * stride <= usize::MAX,
                self.values@ == before.values + before.added(
                    residual@,
                    views,
                    columns@,
                    row as nat,
                ),
            decreases residual@.len() - row,
        {
            proof {
                lemma_added_row(before, residual@, views, columns@, row as nat);
                let stride = stride as int;
                assert(row * stride + stride <= residual@.len() * stride && row * stride >= 0)
                    by (nonlinear_arith)
                    requires
                        row + 1 <= residual@.len(),
                        stride >= 1,
                ;
                assert(before.added(residual@, views, columns@, row as nat).len() == row * stride);
            }
            self.append(residual, blocks, columns, row);
            assert(self.values@ =~= before.values + before.added(
                residual@,
                views,
                columns@,
                (row + 1) as nat,
            ));
            row += 1;
        }
        self.height = self.height + residual.len();
        assert(before.added(residual@, views, columns@, residual@.len()).len() == residual@.len()
            * stride);
        Ok(())
    }

    /// A collector of rows has no gradient.
    fn gradient_norm(&self) -> (norm: Result<R, SolverError>) {
        Err(SolverError::LinearSolveFailed)
    }

    /// A collector of rows solves nothing.
    fn solve(&mut self) -> (step: Result<Vec<R>, SolverError>) {
        Err(SolverError::LinearSolveFailed)
    }
}

/// A matrix stored column by column.
pub struct Matrix<R> {
    pub rows: usize,
    pub cols: usize,
    pub values: Vec<R>,
}

/// The mathematical content of a [`Matrix`].
#[verifier::ext_equal]
pub struct MatrixView<R> {
    pub rows: nat,
    pub cols: nat,
    pub values: Seq<R>,
}

impl<R> View for Matrix<R> {
    type V = MatrixView<R>;

    open spec fn view(&self) -> MatrixView<R> {
        MatrixView { rows: self.rows as nat, cols: self.cols as nat, values: self.values@ }
    }
}

impl<R: Real> MatrixView<R> {
    /// One value for each row and column.
    pub open spec fn wf(self) -> bool {
        self.values.len() == self.rows * self.cols
    }

    /// The value in a row and column.
    pub open spec fn at(self, row: int, col: int) -> R {
        self.values[col * self.rows + row]
    }

    /// The matrix whose rows are collected rows.
    pub open spec fn of_rows(rows: RowsView<R>) -> Self {
        MatrixView {
            rows: rows.height,
            cols: rows.dimension + 1,
            values: Seq::new(
                rows.height * (rows.dimension + 1),
                |i: int| rows.at(i % rows.height as int, i / rows.height as int),
            ),
        }
    }

    /// Some columns are zero from a row on.
    pub open spec fn vanishes(self, row: int, column: int, width: int) -> bool {
        forall|i: int, j: int|
            row <= i < self.rows && column <= j < column + width ==> (#[trigger] self.at(
                i,
                j,
            )).same_spec(R::zero_spec())
    }
}

impl<R: Real> Matrix<R> {
    /// The value in a row and column.
    pub fn at(&self, row: usize, col: usize) -> (value: R)
        requires
            self@.wf(),
            row < self.rows,
            col < self.cols,
        ensures
            value == self@.at(row as int, col as int),
    {
        proof {
            lemma_entry_index(self.rows as nat, self.cols as nat, row as int, col as int);
            assert(self.values@.len() == self.values.len());
        }
        self.values[col * self.rows + row]
    }

    /// The matrix whose rows are collected rows.
    fn of_rows(rows: &Rows<R>) -> (matrix: Self)
        requires
            rows.wf(),
        ensures
            matrix@.wf(),
            matrix@ == MatrixView::of_rows(rows@),
    {
        let m: usize = rows.height;
        let n: usize = rows.dimension + 1;
        let mut values: Vec<R> = Vec::new();
        let ghost goal = MatrixView::of_rows(rows@);
        let mut col: usize = 0;
        assert(m * n == rows.values@.len());
        assert(rows.values@.len() == rows.values.len());
        while col < n
            invariant
                rows.wf(),
                m == rows.height,
                n == rows.dimension + 1,
                goal == MatrixView::of_rows(rows@),
                rows.values@.len() <= usize::MAX,
                col <= n,
                values@.len() == col * m,
                forall|i: int| 0 <= i < values@.len() ==> #[trigger] values@[i] == goal.values[i],
            decreases n - col,
        {
            let mut row: usize = 0;
            while row < m
                invariant
                    rows.wf(),
                    m == rows.height,
                    n == rows.dimension + 1,
                    goal == MatrixView::of_rows(rows@),
                    rows.values@.len() <= usize::MAX,
                    col < n,
                    row <= m,
                    values@.len() == col * m + row,
                    forall|i: int|
                        0 <= i < values@.len() ==> #[trigger] values@[i] == goal.values[i],
                decreases m - row,
            {
                proof {
                    let i = col * m + row;
                    lemma_entry_index(m as nat, n as nat, row as int, col as int);
                    lemma_entry_index(n as nat, m as nat, col as int, row as int);
                    vstd::arithmetic::div_mod::lemma_fundamental_div_mod_converse(
                        i,
                        m as int,
                        col as int,
                        row as int,
                    );
                    assert(n * m == m * n) by (nonlinear_arith);
                    assert(goal.values[i] == rows@.at(row as int, col as int));
                }
                values.push(rows.values[row * n + col]);
                row += 1;
            }
            assert((col + 1) * m == col * m + m) by (nonlinear_arith);
            col += 1;
        }
        let matrix = Matrix { rows: m, cols: n, values };
        assert(n * m == m * n) by (nonlinear_arith);
        assert(matrix@ =~= goal);
        matrix
    }

    /// Whether some columns are zero from a row on.
    fn vanishes(&self, row: usize, column: usize, width: usize) -> (zero: bool)
        requires
            self@.wf(),
            column + width <= self.cols,
        ensures
            zero == self@.vanishes(row as int, column as int, width as int),
    {
        let mut j: usize = column;
        while j < column + width
            invariant
                self@.wf(),
                column + width <= self.cols,
                column <= j <= column + width,
                forall|i: int, k: int|
                    row <= i < self.rows && column <= k < j ==> (#[trigger] self@.at(
                        i,
                        k,
                    )).same_spec(R::zero_spec()),
            decreases column + width - j,
        {
            let mut i: usize = row;
            while i < self.rows
                invariant
                    self@.wf(),
                    column + width <= self.cols,
                    column <= j < column + width,
                    row <= i,
                    forall|p: int, k: int|
                        row <= p < self.rows && column <= k < j ==> (#[trigger] self@.at(
                            p,
                            k,
                        )).same_spec(R::zero_spec()),
                    forall|p: int|
                        row <= p < i ==> (#[trigger] self@.at(p, j as int)).same_spec(
                            R::zero_spec(),
                        ),
                decreases self.rows - i,
            {
                if !self.at(i, j).same(R::zero()) {
                    return false;
                }
                i += 1;
            }
            j += 1;
        }
        true
    }
}

/// Orthogonal factorization with column pivoting, as a numerical library provides it.
///
/// It computes some function of its arguments, and that is all that is known of it: whatever
/// it returns is checked before it is used.
pub trait PivotedQr<R> {
    spec fn factor_spec(&self, matrix: MatrixView<R>, row: usize, column: usize, width: usize) -> (
        Seq<R>,
        Seq<usize>,
    );

    /// Bring some columns to upper triangular form in the rows from `row` on, by
    /// orthogonal transformations that act on all columns to their right as well, and
    /// largest column first.
    ///
    /// Returns the matrix after the transformations, and for each place among the
    /// factored columns the column, counted from the first of them, that was moved there.
    fn factor(&self, matrix: &Matrix<R>, row: usize, column: usize, width: usize) -> (answer: (
        Vec<R>,
        Vec<usize>,
    ))
        ensures
            (answer.0@, answer.1@) == self.factor_spec(matrix@, row, column, width),
    ;
}

/// The numbers below a bound, each once, in some order.
pub open spec fn reorders(order: Seq<usize>, width: nat) -> bool {
    &&& order.len() == width
    &&& order.no_duplicates()
    &&& forall|i: int| 0 <= i < order.len() ==> #[trigger] order[i] < width
    &&& forall|c: usize| c < width ==> #[trigger] order.contains(c)
}

/// The matrix after a factorization and the order of the factored columns. Columns that are
/// zero, or have no rows, stay as they are.
pub open spec fn factored_spec<R: Real, Q: PivotedQr<R>>(
    kernel: Q,
    matrix: MatrixView<R>,
    row: int,
    column: int,
    width: nat,
) -> Result<(MatrixView<R>, Seq<usize>), SolverError> {
    let answer = kernel.factor_spec(matrix, row as usize, column as usize, width as usize);
    if row >= matrix.rows || width == 0 || matrix.vanishes(row, column, width as int) {
        Ok((matrix, Seq::new(width, |i: int| i as usize)))
    } else if answer.0.len() != matrix.values.len() || !reorders(answer.1, width) {
        Err(SolverError::LinearSolveFailed)
    } else {
        Ok((MatrixView { values: answer.0, ..matrix }, answer.1))
    }
}

/// Whether numbers are those below a bound, each once.
fn is_reordering(order: &[usize], width: usize) -> (r: bool)
    ensures
        r == reorders(order@, width as nat),
{
    if order.len() != width {
        return false;
    }
    let mut seen: Vec<bool> = Vec::new();
    while seen.len() < width
        invariant
            seen@.len() <= width,
            forall|c: int| 0 <= c < seen@.len() ==> !#[trigger] seen@[c],
        decreases width - seen@.len(),
    {
        seen.push(false);
    }
    let mut i: usize = 0;
    while i < width
        invariant
            order@.len() == width,
            seen@.len() == width,
            i <= width,
            forall|k: int| 0 <= k < i ==> #[trigger] order@[k] < width,
            forall|k: int, l: int| 0 <= k < l < i ==> #[trigger] order@[k] != #[trigger] order@[l],
            forall|k: int| 0 <= k < i ==> seen@[(#[trigger] order@[k]) as int],
            forall|c: int|
                0 <= c < width && #[trigger] seen@[c] ==> exists|k: int|
                    0 <= k < i && #[trigger] order@[k] == c,
        decreases width - i,
    {
        let c: usize = order[i];
        if c >= width {
            return false;
        }
        if seen[c] {
            return false;
        }
        let ghost before = seen@;
        seen.set(c, true);
        assert forall|d: int| 0 <= d < width && #[trigger] seen@[d] implies exists|k: int|
            0 <= k < i + 1 && #[trigger] order@[k] == d by {
            if d == c {
                assert(order@[i as int] == d);
            } else {
                assert(before[d]);
                let k = choose|k: int| 0 <= k < i && #[trigger] order@[k] == d;
                assert(order@[k] == d);
            }
        }
        i += 1;
    }
    let mut c: usize = 0;
    while c < width
        invariant
            order@.len() == width,
            seen@.len() == width,
            c <= width,
            forall|k: int| 0 <= k < width ==> seen@[(#[trigger] order@[k]) as int],
            forall|d: int| 0 <= d < c ==> #[trigger] seen@[d],
        decreases width - c,
    {
        if !seen[c] {
            assert(!order@.contains(c));
            return false;
        }
        c += 1;
    }
    assert forall|d: usize| d < width implies #[trigger] order@.contains(d) by {
        assert(seen@[d as int]);
        let k = choose|k: int| 0 <= k < width && #[trigger] order@[k] == d;
        assert(order@[k] == d);
    }
    true
}

/// Factor some columns of a matrix in place.
fn triangularize<R: Real, Q: PivotedQr<R>>(
    kernel: &Q,
    matrix: &mut Matrix<R>,
    row: usize,
    column: usize,
    width: usize,
) -> (result: Result<Vec<usize>, SolverError>)
    requires
        old(matrix)@.wf(),
        column + width <= old(matrix).cols,
    ensures
        match factored_spec(*kernel, old(matrix)@, row as int, column as int, width as nat) {
            Err(error) => result == Err::<Vec<usize>, SolverError>(error),
            Ok((after, order)) => {
                &&& result matches Ok(found) && found@ == order
                &&& reorders(order, width as nat)
                &&& final(matrix)@ == after
                &&& after.wf()
                &&& after.rows == old(matrix).rows
                &&& after.cols == old(matrix).cols
            },
        },
{
    if row >= matrix.rows || width == 0 || matrix.vanishes(row, column, width) {
        let mut order: Vec<usize> = Vec::new();
        let mut i: usize = 0;
        while i < width
            invariant
                i <= width,
                order@.len() == i,
                forall|k: int| 0 <= k < i ==> #[trigger] order@[k] == k,
            decreases width - i,
        {
            order.push(i);
            i += 1;
        }
        assert(order@ =~= Seq::new(width as nat, |i: int| i as usize));
        assert forall|c: usize| c < width implies #[trigger] order@.contains(c) by {
            assert(order@[c as int] == c);
        }
        return Ok(order);
    }
    let (values, order) = kernel.factor(matrix, row, column, width);
    if values.len() != matrix.values.len() || !is_reordering(order.as_slice(), width) {
        return Err(SolverError::LinearSolveFailed);
    }
    matrix.values = values;
    Ok(order)
}

/// A place on the diagonal is larger than a threshold.
pub open spec fn passes<R: Real>(matrix: MatrixView<R>, threshold: R, i: int) -> bool {
    threshold.below_spec(matrix.at(i, i).abs_spec())
}

/// The first place on the diagonal, from `i` on and below a limit, that is not larger than
/// a threshold.
pub open spec fn rank_from<R: Real>(matrix: MatrixView<R>, threshold: R, limit: int, i: int) -> int
    decreases limit - i,
{
    if i >= limit || !passes(matrix, threshold, i) {
        i
    } else {
        rank_from(matrix, threshold, limit, i + 1)
    }
}

/// The smaller of two numbers.
pub open spec fn smaller(a: int, b: int) -> int {
    if a < b {
        a
    } else {
        b
    }
}

/// The relative cutoff: the one that is asked for, or machine epsilon times the larger
/// dimension of the eliminated columns.
pub open spec fn cutoff<R: Real>(tolerance: Option<R>, rows: nat, removed: nat) -> R {
    match tolerance {
        Some(tolerance) => tolerance,
        None => {
            let larger = if rows < removed {
                removed
            } else {
                rows
            };
            R::epsilon_spec().times_spec(
                R::ratio_spec(
                    (if larger < 1 {
                        1
                    } else {
                        larger
                    }) as u64,
                    1,
                ),
            )
        },
    }
}

/// The rank of the factored leading columns: how many places on the diagonal, from the
/// first on, exceed the cutoff relative to the first.
pub open spec fn rank_spec<R: Real>(matrix: MatrixView<R>, removed: nat, tolerance: Option<R>) -> int {
    let scale = if matrix.rows > 0 && removed > 0 {
        matrix.at(0, 0).abs_spec()
    } else {
        R::zero_spec()
    };
    rank_from(
        matrix,
        scale.times_spec(cutoff(tolerance, matrix.rows, removed)),
        smaller(matrix.rows as int, removed as int),
        0,
    )
}

/// Half the squares of the last column in the rows from `from` to before `to`.
pub open spec fn leftover<R: Real>(matrix: MatrixView<R>, from: int, to: int) -> R
    decreases to - from,
{
    if to <= from {
        R::zero_spec()
    } else {
        let r = matrix.at(to - 1, matrix.cols - 1);
        leftover(matrix, from, to - 1).plus_spec(R::ratio_spec(1, 2).times_spec(r).times_spec(r))
    }
}

/// The prior that a fully factored matrix leaves on the columns that stay: their triangle,
/// in the order the columns had, with the last column as its offset.
pub open spec fn separated<R: Real>(
    matrix: MatrixView<R>,
    removed: nat,
    rank: int,
    order: Seq<usize>,
) -> PriorView<R> {
    let separator = (matrix.cols - 1 - removed) as nat;
    let rows = smaller(matrix.rows - rank, separator as int) as nat;
    PriorView {
        blocks: Seq::empty(),
        rows,
        cols: separator,
        a: Seq::new(
            rows * separator,
            |i: int|
                {
                    let row = i % rows as int;
                    let col = order.index_of((i / rows as int) as usize);
                    if col >= row {
                        matrix.at(rank + row, removed + col)
                    } else {
                        R::zero_spec()
                    }
                },
        ),
        b: Seq::new(rows, |row: int| matrix.at(rank + row, matrix.cols - 1)),
        residual: Seq::new(rows, |row: int| R::zero_spec()),
        jacobian: Seq::new(rows * separator, |i: int| R::zero_spec()),
    }
}

/// What is left of eliminated rows.
pub struct ReducedView<R> {
    pub rank: nat,
    pub constant: R,
    pub prior: PriorView<R>,
}

/// A finite diagonal.
pub open spec fn finite_diagonal<R: Real>(matrix: MatrixView<R>, n: int) -> bool {
    forall|i: int| 0 <= i < n ==> (#[trigger] matrix.at(i, i)).finite_spec()
}

/// What eliminating the leading coordinates of collected rows leaves: the leading columns are
/// factored, and then the others in the rows that those leave.
pub open spec fn reduced_spec<R: Real, Q: PivotedQr<R>>(
    kernel: Q,
    rows: RowsView<R>,
    removed: nat,
    tolerance: Option<R>,
) -> Result<ReducedView<R>, SolverError> {
    match factored_spec(kernel, MatrixView::of_rows(rows), 0, 0, removed) {
        Err(error) => Err(error),
        Ok((upper, _)) => {
            let rank = rank_spec(upper, removed, tolerance);
            let separator = (rows.dimension - removed) as nat;
            match factored_spec(kernel, upper, rank, removed as int, separator) {
                Err(error) => Err(error),
                Ok((matrix, order)) => {
                    let prior = separated(matrix, removed, rank, order);
                    let constant = leftover(matrix, rank + prior.rows, rows.height as int);
                    if all_finite(prior.a) && all_finite(prior.b) && constant.finite_spec()
                        && finite_diagonal(matrix, smaller(rows.height as int, removed as int)) {
                        Ok(ReducedView { rank: rank as nat, constant, prior })
                    } else {
                        Err(SolverError::Evaluation(EvaluationError::InvalidEvaluation))
                    }
                },
            }
        },
    }
}

proof fn lemma_rank_bounds<R: Real>(matrix: MatrixView<R>, threshold: R, limit: int, i: int)
    requires
        i <= limit,
    ensures
        i <= rank_from(matrix, threshold, limit, i) <= limit,
    decreases limit - i,
{
    if i < limit && passes(matrix, threshold, i) {
        lemma_rank_bounds(matrix, threshold, limit, i + 1);
    }
}

/// The numerical rank of the factored leading columns.
fn rank<R: Real>(matrix: &Matrix<R>, removed: usize, tolerance: Option<R>) -> (rank: usize)
    requires
        matrix@.wf(),
        removed < matrix.cols,
    ensures
        rank == rank_spec(matrix@, removed as nat, tolerance),
        rank <= matrix.rows,
        rank <= removed,
{
    let m: usize = matrix.rows;
    let limit: usize = if m < removed {
        m
    } else {
        removed
    };
    let relative = match tolerance {
        Some(tolerance) => tolerance,
        None => {
            let larger: usize = if m < removed {
                removed
            } else {
                m
            };
            let larger: usize = if larger < 1 {
                1
            } else {
                larger
            };
            R::epsilon().times(R::ratio(larger as u64, 1))
        },
    };
    let scale = if m > 0 && removed > 0 {
        matrix.at(0, 0).abs()
    } else {
        R::zero()
    };
    let threshold = scale.times(relative);
    let mut i: usize = 0;
    proof {
        lemma_rank_bounds(matrix@, threshold, limit as int, 0);
    }
    while i < limit && threshold.below(matrix.at(i, i).abs())
        invariant
            matrix@.wf(),
            removed < matrix.cols,
            limit <= matrix.rows,
            limit <= removed,
            i <= limit,
            rank_from(matrix@, threshold, limit as int, 0) == rank_from(
                matrix@,
                threshold,
                limit as int,
                i as int,
            ),
        decreases limit - i,
    {
        i += 1;
    }
    i
}

/// What is left of eliminated rows.
pub struct Reduced<R> {
    pub rank: usize,
    pub constant: R,
    pub prior: Prior<R>,
}

impl<R> View for Reduced<R> {
    type V = ReducedView<R>;

    open spec fn view(&self) -> ReducedView<R> {
        ReducedView { rank: self.rank as nat, constant: self.constant, prior: self.prior@ }
    }
}

/// The place of every number in a reordering.
fn places(order: &[usize]) -> (inverse: Vec<usize>)
    requires
        reorders(order@, order@.len()),
    ensures
        inverse@.len() == order@.len(),
        forall|c: int|
            0 <= c < inverse@.len() ==> #[trigger] inverse@[c] == order@.index_of(c as usize),
        forall|c: int| 0 <= c < inverse@.len() ==> #[trigger] inverse@[c] < order@.len(),
{
    let width: usize = order.len();
    let mut inverse: Vec<usize> = Vec::new();
    while inverse.len() < width
        invariant
            inverse@.len() <= width,
        decreases width - inverse@.len(),
    {
        inverse.push(0);
    }
    let mut k: usize = 0;
    while k < width
        invariant
            width == order@.len(),
            reorders(order@, order@.len()),
            inverse@.len() == width,
            k <= width,
            forall|i: int| 0 <= i < k ==> inverse@[(#[trigger] order@[i]) as int] == i,
        decreases width - k,
    {
        let c: usize = order[k];
        assert forall|i: int| 0 <= i < k implies (#[trigger] order@[i]) != c by {}
        inverse.set(c, k);
        k += 1;
    }
    assert forall|c: int| 0 <= c < width implies #[trigger] inverse@[c] == order@.index_of(
        c as usize,
    ) && inverse@[c] < width by {
        assert(order@.contains(c as usize));
        let i = order@.index_of(c as usize);
        assert(order@[i] == c);
    }
    inverse
}

/// The prior that a fully factored matrix leaves on the columns that stay.
fn separate<R: Real>(matrix: &Matrix<R>, removed: usize, rank: usize, order: &[usize]) -> (prior:
    Prior<R>)
    requires
        matrix@.wf(),
        removed < matrix.cols,
        rank <= matrix.rows,
        rank <= removed,
        reorders(order@, (matrix.cols - 1 - removed) as nat),
    ensures
        prior@.wf(),
        prior@ == separated(matrix@, removed as nat, rank as int, order@),
{
    let ghost goal = separated(matrix@, removed as nat, rank as int, order@);
    let separator: usize = matrix.cols - 1 - removed;
    let height: usize = matrix.rows - rank;
    let rows: usize = if height < separator {
        height
    } else {
        separator
    };
    assert(rows == goal.rows);
    proof {
        assert(matrix.values@.len() == matrix.values.len());
        assert(rows * separator <= matrix.rows * matrix.cols) by (nonlinear_arith)
            requires
                0 <= rows <= matrix.rows,
                0 <= separator <= matrix.cols,
        ;
    }
    let inverse = places(order);
    let zero = R::zero();
    let mut a: Vec<R> = Vec::new();
    let mut jacobian: Vec<R> = Vec::new();
    let mut col: usize = 0;
    while col < separator
        invariant
            matrix@.wf(),
            goal == separated(matrix@, removed as nat, rank as int, order@),
            separator == matrix.cols - 1 - removed,
            removed < matrix.cols,
            rank + rows <= matrix.rows,
            rows == goal.rows,
            zero == R::zero_spec(),
            order@.len() == separator,
            inverse@.len() == separator,
            forall|c: int|
                0 <= c < inverse@.len() ==> #[trigger] inverse@[c] == order@.index_of(c as usize),
            forall|c: int| 0 <= c < inverse@.len() ==> #[trigger] inverse@[c] < order@.len(),
            rows * separator <= usize::MAX,
            col <= separator,
            a@.len() == col * rows,
            jacobian@.len() == col * rows,
            forall|i: int| 0 <= i < a@.len() ==> #[trigger] a@[i] == goal.a[i],
            forall|i: int| 0 <= i < jacobian@.len() ==> #[trigger] jacobian@[i] == zero,
        decreases separator - col,
    {
        let from: usize = inverse[col];
        let mut row: usize = 0;
        while row < rows
            invariant
                matrix@.wf(),
                goal == separated(matrix@, removed as nat, rank as int, order@),
                separator == matrix.cols - 1 - removed,
                removed < matrix.cols,
                rank + rows <= matrix.rows,
                rows == goal.rows,
                zero == R::zero_spec(),
                from == order@.index_of(col),
                from < separator,
                rows * separator <= usize::MAX,
                col < separator,
                row <= rows,
                a@.len() == col * rows + row,
                jacobian@.len() == col * rows + row,
                forall|i: int| 0 <= i < a@.len() ==> #[trigger] a@[i] == goal.a[i],
                forall|i: int| 0 <= i < jacobian@.len() ==> #[trigger] jacobian@[i] == zero,
            decreases rows - row,
        {
            proof {
                let i = col * rows + row;
                lemma_entry_index(rows as nat, separator as nat, row as int, col as int);
                vstd::arithmetic::div_mod::lemma_fundamental_div_mod_converse(
                    i,
                    rows as int,
                    col as int,
                    row as int,
                );
                assert(i % rows as int == row && i / rows as int == col);
            }
            let value = if from >= row {
                matrix.at(rank + row, removed + from)
            } else {
                zero
            };
            a.push(value);
            jacobian.push(zero);
            row += 1;
        }
        assert((col + 1) * rows == col * rows + rows) by (nonlinear_arith);
        col += 1;
    }
    assert(separator * rows == rows * separator) by (nonlinear_arith);
    let mut b: Vec<R> = Vec::new();
    let mut residual: Vec<R> = Vec::new();
    let mut row: usize = 0;
    while row < rows
        invariant
            matrix@.wf(),
            matrix.cols > 0,
            goal == separated(matrix@, removed as nat, rank as int, order@),
            rank + rows <= matrix.rows,
            rows == goal.rows,
            zero == R::zero_spec(),
            row <= rows,
            b@.len() == row,
            residual@.len() == row,
            forall|i: int| 0 <= i < row ==> #[trigger] b@[i] == goal.b[i],
            forall|i: int| 0 <= i < row ==> #[trigger] residual@[i] == zero,
        decreases rows - row,
    {
        b.push(matrix.at(rank + row, matrix.cols - 1));
        residual.push(zero);
        row += 1;
    }
    let prior = Prior { blocks: Vec::new(), rows, cols: separator, a, b, residual, jacobian };
    assert(prior@ =~= goal);
    prior
}

/// Eliminate the leading coordinates of collected rows.
pub fn reduce<R: Real, Q: PivotedQr<R>>(
    kernel: &Q,
    rows: &Rows<R>,
    removed: usize,
    tolerance: Option<R>,
) -> (result: Result<Reduced<R>, SolverError>)
    requires
        rows.wf(),
        removed <= rows.dimension,
    ensures
        match reduced_spec(*kernel, rows@, removed as nat, tolerance) {
            Err(error) => result == Err::<Reduced<R>, SolverError>(error),
            Ok(reduced) => result matches Ok(found) && found@ == reduced && found.prior@.wf(),
        },
        result matches Ok(found) ==> found.prior.cols == rows.dimension - removed,
{
    let mut matrix = Matrix::of_rows(rows);
    match triangularize(kernel, &mut matrix, 0, 0, removed) {
        Ok(_) => {},
        Err(error) => {
            return Err(error);
        },
    }
    let rank: usize = rank(&matrix, removed, tolerance);
    let separator: usize = rows.dimension - removed;
    let order = match triangularize(kernel, &mut matrix, rank, removed, separator) {
        Ok(order) => order,
        Err(error) => {
            return Err(error);
        },
    };
    let prior = separate(&matrix, removed, rank, order.as_slice());
    let half = R::ratio(1, 2);
    let mut constant = R::zero();
    let from: usize = rank + prior.rows;
    let mut row: usize = from;
    while row < matrix.rows
        invariant
            matrix@.wf(),
            matrix.cols > 0,
            half == R::ratio_spec(1, 2),
            from <= row <= matrix.rows,
            constant == leftover(matrix@, from as int, row as int),
        decreases matrix.rows - row,
    {
        let r = matrix.at(row, matrix.cols - 1);
        constant = constant.plus(half.times(r).times(r));
        row += 1;
    }
    let limit: usize = if matrix.rows < removed {
        matrix.rows
    } else {
        removed
    };
    let mut finite = true;
    let mut i: usize = 0;
    while i < limit
        invariant
            matrix@.wf(),
            limit <= matrix.rows,
            limit <= matrix.cols,
            i <= limit,
            finite == finite_diagonal(matrix@, i as int),
        decreases limit - i,
    {
        finite = finite && matrix.at(i, i).is_finite();
        i += 1;
    }
    if !finite_values(prior.a.as_slice()) || !finite_values(prior.b.as_slice())
        || !constant.is_finite() || !finite {
        return Err(SolverError::Evaluation(EvaluationError::InvalidEvaluation));
    }
    Ok(Reduced { rank, constant, prior })
}

} // verus!
