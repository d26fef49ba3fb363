//! Elimination of one side of a bipartite least-squares problem.
//!
//! Coordinates are ordered as a retained prefix followed by independent eliminated blocks.
//! A residual touches at most one block on each side.
use crate::backend::{
    admissible, all_finite, norm_inf, norm_inf_spec, DampedLeastSquaresBackend, DampedStep,
    LeastSquaresBackend,
};
use crate::block_factors::{BlockFactors, GramView};
use crate::error::{EvaluationError, SolverError};
use crate::kernels::{
    charges, clocked, credited, prolonged, Clock, ConjugateGradient, Descent, DescentEnd,
    DescentView, Operator, Triangular,
};
use crate::linear_model::{
    hypot_sum, relative, relative_norm, relative_spec, scaled, LinearView, LinearizedModel,
    StepWorkspace,
};
use crate::linearization::{block_views, BlockView, JacobianBlock};
use crate::normal::copied;
use crate::scalar::Real;
use vstd::prelude::*;

verus! {

/// The sizes of the two sides: how many coordinates are retained, and how many each block
/// has on either side.
#[derive(Debug, Clone, Copy, PartialEq, Eq, Structural)]
pub struct Partition {
    pub retained: usize,
    pub retained_width: usize,
    pub eliminated_width: usize,
}

/// A residual that couples a retained with an eliminated block: where the two start on their
/// sides, and which blocks of the Jacobian belong to them.
#[derive(Debug, Clone, Copy, PartialEq, Eq, Structural)]
pub struct Edge {
    pub retained: usize,
    pub eliminated: usize,
    pub retained_jacobian: usize,
    pub eliminated_jacobian: usize,
}

/// Whether a number is a multiple of another; only zero is a multiple of zero.
pub open spec fn is_multiple(value: int, of: int) -> bool {
    if of == 0 {
        value == 0
    } else {
        value % of == 0
    }
}

/// Whether a number is a multiple of another; only zero is a multiple of zero.
fn multiple(value: usize, of: usize) -> (r: bool)
    ensures
        r == is_multiple(value as int, of as int),
{
    if of == 0 {
        value == 0
    } else {
        value % of == 0
    }
}

/// Which of the blocks of an emission lies on each side.
pub struct Sides {
    pub left: Option<int>,
    pub right: Option<int>,
}

/// A place as a mathematical number.
pub open spec fn place(found: Option<usize>) -> Option<int> {
    match found {
        Some(k) => Some(k as int),
        None => None,
    }
}

impl Partition {
    /// Both sides are made of whole blocks.
    pub open spec fn divides(self, dimension: int) -> bool {
        &&& self.retained_width > 0
        &&& self.eliminated_width > 0
        &&& self.retained <= dimension
        &&& is_multiple(self.retained as int, self.retained_width as int)
        &&& is_multiple(dimension - self.retained, self.eliminated_width as int)
    }

    /// A whole block of the retained side.
    pub open spec fn is_retained(self, col: int, width: int) -> bool {
        &&& is_multiple(col, self.retained_width as int)
        &&& width == self.retained_width
        &&& col + width <= self.retained
    }

    /// A whole block of the eliminated side.
    pub open spec fn is_eliminated(self, col: int, width: int) -> bool {
        &&& is_multiple(col - self.retained, self.eliminated_width as int)
        &&& width == self.eliminated_width
    }

    /// Which of the first `n` blocks of an emission lies on each side; none if some block is
    /// not a whole block of its side or not the only one there.
    pub open spec fn sides<R>(self, blocks: Seq<BlockView<R>>, columns: Seq<usize>, n: int) -> Option<
        Sides,
    >
        decreases n,
    {
        if n <= 0 {
            Some(Sides { left: None, right: None })
        } else {
            match self.sides(blocks, columns, n - 1) {
                None => None,
                Some(found) => {
                    let col = columns[n - 1] as int;
                    let width = blocks[n - 1].cols as int;
                    if col < self.retained {
                        if self.is_retained(col, width) && found.left is None {
                            Some(Sides { left: Some(n - 1), ..found })
                        } else {
                            None
                        }
                    } else if self.is_eliminated(col, width) && found.right is None {
                        Some(Sides { right: Some(n - 1), ..found })
                    } else {
                        None
                    }
                },
            }
        }
    }

    proof fn lemma_sides_stand<R>(
        self,
        blocks: Seq<BlockView<R>>,
        columns: Seq<usize>,
        n: int,
        m: int,
    )
        requires
            0 <= n <= m,
            self.sides(blocks, columns, n) is None,
        ensures
            self.sides(blocks, columns, m) is None,
        decreases m,
    {
        if n < m {
            self.lemma_sides_stand(blocks, columns, n, m - 1);
        }
    }

    /// The blocks that lie on the two sides are whole blocks there.
    proof fn lemma_sides<R>(self, blocks: Seq<BlockView<R>>, columns: Seq<usize>, n: int)
        requires
            self.sides(blocks, columns, n) is Some,
            0 <= n,
        ensures
            forall|i: int|
                0 <= i < n ==> (#[trigger] columns[i]) + blocks[i].cols <= self.retained
                    || columns[i] >= self.retained,
            self.sides(blocks, columns, n)->0.left matches Some(i) ==> 0 <= i < n && columns[i]
                < self.retained && self.is_retained(columns[i] as int, blocks[i].cols as int),
            self.sides(blocks, columns, n)->0.right matches Some(i) ==> 0 <= i < n && columns[i]
                >= self.retained && self.is_eliminated(columns[i] as int, blocks[i].cols as int),
        decreases n,
    {
        if n > 0 {
            self.lemma_sides(blocks, columns, n - 1);
        }
    }
}

/// What rows contribute: their linearization, and which blocks they couple.
#[verifier::ext_equal]
pub struct SchurView<R> {
    pub partition: Partition,
    pub linear: LinearView<R>,
    pub edges: Seq<Edge>,
}

impl<R: Real> SchurView<R> {
    /// The model with the rows of one more emission, or why they are refused.
    pub open spec fn extended(
        self,
        residual: Seq<R>,
        blocks: Seq<BlockView<R>>,
        columns: Seq<usize>,
    ) -> Result<Self, EvaluationError> {
        match self.partition.sides(blocks, columns, blocks.len() as int) {
            None => Err(EvaluationError::UnsupportedStructure),
            Some(found) => match self.linear.extended(residual, blocks, columns) {
                Err(error) => Err(error),
                Ok(linear) => Ok(
                    SchurView {
                        linear,
                        edges: match (found.left, found.right) {
                            (Some(l), Some(r)) => self.edges.push(
                                Edge {
                                    retained: columns[l],
                                    eliminated: (columns[r] - self.partition.retained) as usize,
                                    retained_jacobian: (self.linear.blocks.len() + l) as usize,
                                    eliminated_jacobian: (self.linear.blocks.len() + r) as usize,
                                },
                            ),
                            _ => self.edges,
                        },
                        ..self
                    },
                ),
            },
        }
    }

    /// An edge couples whole blocks of the two sides, over the same rows.
    pub open spec fn couples(self, edge: Edge) -> bool {
        let left = self.linear.blocks[edge.retained_jacobian as int];
        let right = self.linear.blocks[edge.eliminated_jacobian as int];
        &&& edge.retained_jacobian < self.linear.blocks.len()
        &&& edge.eliminated_jacobian < self.linear.blocks.len()
        &&& edge.retained + self.partition.retained_width <= self.partition.retained
        &&& self.partition.retained + edge.eliminated + self.partition.eliminated_width
            <= self.linear.cols
        &&& left.col == edge.retained
        &&& left.cols == self.partition.retained_width
        &&& right.col == self.partition.retained + edge.eliminated
        &&& right.cols == self.partition.eliminated_width
        &&& left.rows == right.rows
    }

    /// Every edge couples whole blocks, and no block of the Jacobian reaches from one side
    /// into the other.
    pub open spec fn wf(self) -> bool {
        &&& forall|e: int| 0 <= e < self.edges.len() ==> self.couples(#[trigger] self.edges[e])
        &&& forall|b: int|
            0 <= b < self.linear.blocks.len() ==> (#[trigger] self.linear.blocks[b]).col
                + self.linear.blocks[b].cols <= self.partition.retained
                || self.linear.blocks[b].col >= self.partition.retained
    }
}

/// The blocks of an emission come after those that were there.
proof fn lemma_with_blocks<R: Real>(
    model: LinearView<R>,
    row: nat,
    residual: Seq<R>,
    blocks: Seq<BlockView<R>>,
    columns: Seq<usize>,
    n: int,
)
    requires
        0 <= n <= blocks.len(),
        blocks.len() == columns.len(),
        forall|k: int|
            0 <= k < blocks.len() ==> (#[trigger] blocks[k]).rows <= usize::MAX && blocks[k].cols
                <= usize::MAX,
    ensures
        ({
            let after = model.with_blocks(row, residual, blocks, columns, n);
            &&& after.cols == model.cols
            &&& after.blocks.len() == model.blocks.len() + n
            &&& after.blocks.take(model.blocks.len() as int) == model.blocks
            &&& forall|i: int|
                #![trigger after.blocks[model.blocks.len() + i]]
                0 <= i < n ==> {
                    &&& after.blocks[model.blocks.len() + i].col == columns[i]
                    &&& after.blocks[model.blocks.len() + i].cols == blocks[i].cols
                    &&& after.blocks[model.blocks.len() + i].rows == blocks[i].rows
                }
        }),
    decreases n,
{
    let m = model.blocks.len() as int;
    if n > 0 {
        lemma_with_blocks(model, row, residual, blocks, columns, n - 1);
        let before = model.with_blocks(row, residual, blocks, columns, n - 1);
        let after = model.with_blocks(row, residual, blocks, columns, n);
        assert(after.blocks.take(m) =~= before.blocks.take(m));
        assert forall|i: int| #![trigger after.blocks[m + i]] 0 <= i < n implies {
            &&& after.blocks[m + i].col == columns[i]
            &&& after.blocks[m + i].cols == blocks[i].cols
            &&& after.blocks[m + i].rows == blocks[i].rows
        } by {
            if i < n - 1 {
                assert(after.blocks[m + i] == before.blocks[m + i]);
            }
        }
    } else {
        assert(model.blocks.take(m) =~= model.blocks);
    }
}

/// Rows that are accepted keep a model sound.
pub proof fn lemma_extended<R: Real>(
    model: SchurView<R>,
    residual: Seq<R>,
    blocks: Seq<BlockView<R>>,
    columns: Seq<usize>,
)
    requires
        model.wf(),
        admissible(model.linear.cols, residual, blocks, columns),
        model.linear.cols <= usize::MAX,
        model.extended(residual, blocks, columns) is Ok,
        model.extended(residual, blocks, columns)->Ok_0.linear.blocks.len() <= usize::MAX,
    ensures
        model.extended(residual, blocks, columns)->Ok_0.wf(),
        model.extended(residual, blocks, columns)->Ok_0.linear.cols == model.linear.cols,
        model.extended(residual, blocks, columns)->Ok_0.linear.blocks.len()
            == model.linear.blocks.len() + blocks.len(),
{
    let n = blocks.len() as int;
    let m = model.linear.blocks.len() as int;
    let after = model.extended(residual, blocks, columns)->Ok_0;
    let taller = LinearView {
        rows: model.linear.rows + residual.len(),
        negative_residual: model.linear.negative_residual + Seq::new(
            residual.len(),
            |i: int| residual[i].negate_spec(),
        ),
        ..model.linear
    };
    assert forall|k: int| 0 <= k < n implies (#[trigger] blocks[k]).rows <= usize::MAX
        && blocks[k].cols <= usize::MAX by {}
    lemma_with_blocks(taller, model.linear.rows, residual, blocks, columns, n);
    model.partition.lemma_sides(blocks, columns, n);
    let found = model.partition.sides(blocks, columns, n)->0;
    assert forall|b: int| 0 <= b < after.linear.blocks.len() implies (
    #[trigger] after.linear.blocks[b]).col + after.linear.blocks[b].cols
        <= model.partition.retained || after.linear.blocks[b].col >= model.partition.retained by {
        if b < m {
            assert(after.linear.blocks.take(m)[b] == model.linear.blocks[b]);
        } else {
            assert(after.linear.blocks[m + (b - m)].col == columns[b - m]);
        }
    }
    assert forall|e: int| 0 <= e < after.edges.len() implies after.couples(
        #[trigger] after.edges[e],
    ) by {
        if e < model.edges.len() {
            let edge = model.edges[e];
            assert(model.couples(edge));
            assert(after.linear.blocks.take(m)[edge.retained_jacobian as int]
                == model.linear.blocks[edge.retained_jacobian as int]);
            assert(after.linear.blocks.take(m)[edge.eliminated_jacobian as int]
                == model.linear.blocks[edge.eliminated_jacobian as int]);
        } else {
            let l = found.left->0;
            let r = found.right->0;
            assert(after.linear.blocks[m + l].col == columns[l]);
            assert(after.linear.blocks[m + r].col == columns[r]);
            assert(blocks[l].rows == residual.len() && blocks[r].rows == residual.len());
            assert(columns[r] + blocks[r].cols <= model.linear.cols);
        }
    }
}

/// The edge, eliminated and retained coordinate of an entry of the coupling blocks, which
/// are stored column by column one after the other.
pub open spec fn edge_of(t: int, partition: Partition) -> int {
    t / partition.retained_width as int / partition.eliminated_width as int
}

pub open spec fn eliminated_of(t: int, partition: Partition) -> int {
    (t / partition.retained_width as int) % partition.eliminated_width as int
}

pub open spec fn retained_of(t: int, partition: Partition) -> int {
    t % partition.retained_width as int
}

/// How many entries the coupling blocks have.
pub open spec fn couplings(partition: Partition, edges: int) -> int {
    partition.retained_width * partition.eliminated_width * edges
}

/// Entries of coupling blocks belong to an edge and to coordinates of its blocks.
pub proof fn lemma_coupling(t: int, partition: Partition, edges: int)
    requires
        0 <= t < couplings(partition, edges),
        0 <= edges,
    ensures
        partition.retained_width > 0,
        partition.eliminated_width > 0,
        0 <= edge_of(t, partition) < edges,
        0 <= eliminated_of(t, partition) < partition.eliminated_width,
        0 <= retained_of(t, partition) < partition.retained_width,
{
    let rw = partition.retained_width as int;
    let ew = partition.eliminated_width as int;
    assert(rw > 0 && ew > 0) by (nonlinear_arith)
        requires
            0 <= t < rw * ew * edges,
            rw >= 0,
            ew >= 0,
            edges >= 0,
    ;
    let q = t / rw;
    vstd::arithmetic::div_mod::lemma_fundamental_div_mod(t, rw);
    vstd::arithmetic::div_mod::lemma_fundamental_div_mod(q, ew);
    vstd::arithmetic::div_mod::lemma_mod_bound(t, rw);
    vstd::arithmetic::div_mod::lemma_mod_bound(q, ew);
    vstd::arithmetic::div_mod::lemma_div_pos_is_pos(t, rw);
    vstd::arithmetic::div_mod::lemma_div_pos_is_pos(q, ew);
    let e = q / ew;
    assert(e < edges) by (nonlinear_arith)
        requires
            t < rw * ew * edges,
            t == rw * q + t % rw,
            0 <= t % rw,
            q == ew * e + q % ew,
            0 <= q % ew,
            rw > 0,
            ew > 0,
            edges >= 0,
    ;
}

impl<R: Real> SchurView<R> {
    /// The first `n` products of the normalized columns that an edge couples, summed from
    /// zero.
    pub open spec fn coupling_dot(self, scales: Seq<R>, edge: Edge, p: int, c: int, n: int) -> R
        decreases n,
    {
        if n <= 0 {
            R::zero_spec()
        } else {
            let left = self.linear.blocks[edge.retained_jacobian as int];
            let right = self.linear.blocks[edge.eliminated_jacobian as int];
            self.coupling_dot(scales, edge, p, c, n - 1).plus_spec(
                left.entry(self.linear.values, n - 1, c).over_spec(scales[left.col + c]).times_spec(
                    right.entry(self.linear.values, n - 1, p).over_spec(scales[right.col + p]),
                ),
            )
        }
    }

    /// The normalized coupling blocks of all edges.
    pub open spec fn coupled(self, scales: Seq<R>) -> Seq<R> {
        Seq::new(
            couplings(self.partition, self.edges.len() as int) as nat,
            |t: int|
                {
                    let edge = self.edges[edge_of(t, self.partition)];
                    self.coupling_dot(
                        scales,
                        edge,
                        eliminated_of(t, self.partition),
                        retained_of(t, self.partition),
                        self.linear.blocks[edge.retained_jacobian as int].rows as int,
                    )
                },
        )
    }
}

/// Values with the first `n` entries of the coupling blocks, times `alpha`, applied to others:
/// from the eliminated to the retained side, or the other way round.
pub open spec fn crossed<R: Real>(
    partition: Partition,
    edges: Seq<Edge>,
    cross: Seq<R>,
    out: Seq<R>,
    rhs: Seq<R>,
    transpose: bool,
    alpha: R,
    n: int,
) -> Seq<R>
    decreases n,
{
    if n <= 0 {
        out
    } else {
        let before = crossed(partition, edges, cross, out, rhs, transpose, alpha, n - 1);
        let edge = edges[edge_of(n - 1, partition)];
        let p = edge.eliminated + eliminated_of(n - 1, partition);
        let c = edge.retained + retained_of(n - 1, partition);
        let value = alpha.times_spec(cross[n - 1]);
        if transpose {
            before.update(p, before[p].plus_spec(value.times_spec(rhs[c])))
        } else {
            before.update(c, before[c].plus_spec(value.times_spec(rhs[p])))
        }
    }
}

/// Edges lie within the coordinates of the two sides.
pub open spec fn edges_fit(partition: Partition, edges: Seq<Edge>, retained: int, eliminated: int)
    -> bool {
    forall|e: int|
        0 <= e < edges.len() ==> {
            &&& (#[trigger] edges[e]).retained + partition.retained_width <= retained
            &&& edges[e].eliminated + partition.eliminated_width <= eliminated
        }
}

/// Apply the coupling blocks.
pub fn cross_apply<R: Real>(
    partition: Partition,
    edges: &[Edge],
    cross: &[R],
    out: &mut Vec<R>,
    rhs: &[R],
    transpose: bool,
    alpha: R,
)
    requires
        cross@.len() == couplings(partition, edges@.len() as int),
        transpose ==> edges_fit(
            partition,
            edges@,
            rhs@.len() as int,
            old(out)@.len() as int,
        ),
        !transpose ==> edges_fit(
            partition,
            edges@,
            old(out)@.len() as int,
            rhs@.len() as int,
        ),
    ensures
        final(out)@ == crossed(
            partition,
            edges@,
            cross@,
            old(out)@,
            rhs@,
            transpose,
            alpha,
            cross@.len() as int,
        ),
        final(out)@.len() == old(out)@.len(),
{
    assert(out@.len() == out.len());
    let ghost size = out@.len();
    let mut t: usize = 0;
    while t < cross.len()
        invariant
            cross@.len() == couplings(partition, edges@.len() as int),
            size == old(out)@.len(),
            size <= usize::MAX,
            out@.len() == size,
            transpose ==> edges_fit(partition, edges@, rhs@.len() as int, size as int),
            !transpose ==> edges_fit(partition, edges@, size as int, rhs@.len() as int),
            t <= cross@.len(),
            out@ == crossed(
                partition,
                edges@,
                cross@,
                old(out)@,
                rhs@,
                transpose,
                alpha,
                t as int,
            ),
        decreases cross@.len() - t,
    {
        proof {
            lemma_coupling(t as int, partition, edges@.len() as int);
        }
        let q: usize = t / partition.retained_width;
        let edge = edges[q / partition.eliminated_width];
        assert(rhs@.len() == rhs.len());
        let p: usize = edge.eliminated + q % partition.eliminated_width;
        let c: usize = edge.retained + t % partition.retained_width;
        let value = alpha.times(cross[t]);
        if transpose {
            out.set(p, out[p].plus(value.times(rhs[c])));
        } else {
            out.set(c, out[c].plus(value.times(rhs[p])));
        }
        t += 1;
    }
}

/// A running value with the first `n` products of a row of a symmetric Gram matrix added.
pub open spec fn gram_row<R: Real>(
    grams: GramView<R>,
    rhs: Seq<R>,
    b: int,
    i: int,
    value: R,
    n: int,
) -> R
    decreases n,
{
    if n <= 0 {
        value
    } else {
        gram_row(grams, rhs, b, i, value, n - 1).plus_spec(
            grams.symmetric(b, i, n - 1).times_spec(rhs[grams.blocks[b].col + n - 1]),
        )
    }
}

/// Values with the products of those of the first `n` Gram matrices added that start among
/// them.
pub open spec fn grammed<R: Real>(grams: GramView<R>, out: Seq<R>, rhs: Seq<R>, n: int) -> Seq<R>
    decreases n,
{
    if n <= 0 {
        out
    } else {
        let before = grammed(grams, out, rhs, n - 1);
        let block = grams.blocks[n - 1];
        if block.col >= out.len() {
            before
        } else {
            Seq::new(
                out.len(),
                |r: int|
                    if block.col <= r < block.col + block.width {
                        gram_row(grams, rhs, n - 1, r - block.col, before[r], block.width as int)
                    } else {
                        before[r]
                    },
            )
        }
    }
}

/// Add the product of one Gram matrix.
fn add_gram<R: Real>(blocks: &BlockFactors<R>, out: &mut Vec<R>, rhs: &[R], b: usize)
    requires
        blocks.wf(),
        b < blocks.blocks@.len(),
        rhs@.len() == old(out)@.len(),
        blocks.blocks@[b as int].col + blocks.blocks@[b as int].width <= old(out)@.len(),
    ensures
        final(out)@ == Seq::new(
            old(out)@.len(),
            |r: int|
                if blocks.blocks@[b as int].col <= r < blocks.blocks@[b as int].col
                    + blocks.blocks@[b as int].width {
                    gram_row(
                        blocks.grams(),
                        rhs@,
                        b as int,
                        r - blocks.blocks@[b as int].col,
                        old(out)@[r],
                        blocks.blocks@[b as int].width as int,
                    )
                } else {
                    old(out)@[r]
                },
        ),
{
    let block = blocks.blocks[b];
    let width: usize = block.width;
    let ghost grams = blocks.grams();
    let ghost start = out@;
    assert(grams.blocks[b as int] == block);
    assert(blocks.gram@.len() == blocks.gram.len());
    assert(out@.len() == out.len());
    let mut j: usize = 0;
    while j < width
        invariant
            blocks.wf(),
            b < blocks.blocks@.len(),
            block == blocks.blocks@[b as int],
            width == block.width,
            grams == blocks.grams(),
            start == old(out)@,
            blocks.gram@.len() <= usize::MAX,
            out@.len() <= usize::MAX,
            rhs@.len() == out@.len(),
            out@.len() == start.len(),
            block.col + width <= out@.len(),
            block.start + width * width <= blocks.gram@.len(),
            j <= width,
            forall|r: int|
                0 <= r < out@.len() ==> #[trigger] out@[r] == if block.col <= r < block.col + width {
                    gram_row(grams, rhs@, b as int, r - block.col, start[r], j as int)
                } else {
                    start[r]
                },
        decreases width - j,
    {
        let mut i: usize = 0;
        while i < width
            invariant
                blocks.wf(),
                b < blocks.blocks@.len(),
                block == blocks.blocks@[b as int],
                width == block.width,
                grams == blocks.grams(),
                blocks.gram@.len() <= usize::MAX,
                out@.len() <= usize::MAX,
                rhs@.len() == out@.len(),
                out@.len() == start.len(),
                block.col + width <= out@.len(),
                block.start + width * width <= blocks.gram@.len(),
                j < width,
                i <= width,
                forall|r: int|
                    0 <= r < out@.len() ==> #[trigger] out@[r] == if block.col <= r < block.col
                        + width {
                        gram_row(
                            grams,
                            rhs@,
                            b as int,
                            r - block.col,
                            start[r],
                            if r - block.col < i {
                                j + 1
                            } else {
                                j as int
                            },
                        )
                    } else {
                        start[r]
                    },
            decreases width - i,
        {
            let (low, high): (usize, usize) = if i >= j {
                (j, i)
            } else {
                (i, j)
            };
            assert(low * width + high < width * width && 0 <= low * width) by (nonlinear_arith)
                requires
                    0 <= low < width,
                    0 <= high < width,
            ;
            let value = blocks.gram[block.start + low * width + high];
            assert(value == grams.symmetric(b as int, i as int, j as int));
            let r: usize = block.col + i;
            out.set(r, out[r].plus(value.times(rhs[block.col + j])));
            i += 1;
        }
        j += 1;
    }
    assert(out@ =~= Seq::new(
        start.len(),
        |r: int|
            if block.col <= r < block.col + width {
                gram_row(grams, rhs@, b as int, r - block.col, start[r], width as int)
            } else {
                start[r]
            },
    ));
}

/// Add the products of all Gram matrices that start among some leading coordinates.
fn add_grams<R: Real>(blocks: &BlockFactors<R>, out: &mut Vec<R>, rhs: &[R])
    requires
        blocks.wf(),
        rhs@.len() == old(out)@.len(),
        blocks.separates(0, old(out)@.len() as int),
    ensures
        final(out)@ == grammed(blocks.grams(), old(out)@, rhs@, blocks.blocks@.len() as int),
        final(out)@.len() == old(out)@.len(),
{
    let len: usize = out.len();
    let mut b: usize = 0;
    while b < blocks.blocks.len()
        invariant
            blocks.wf(),
            len == old(out)@.len(),
            out@.len() == len,
            rhs@.len() == len,
            blocks.separates(0, len as int),
            b <= blocks.blocks@.len(),
            out@ == grammed(blocks.grams(), old(out)@, rhs@, b as int),
        decreases blocks.blocks@.len() - b,
    {
        if blocks.blocks[b].col < len {
            assert(blocks.blocks@[b as int].col + blocks.blocks@[b as int].width <= len);
            add_gram(blocks, out, rhs, b);
            assert(out@ =~= grammed(blocks.grams(), old(out)@, rhs@, b + 1));
        }
        b += 1;
    }
}

/// Everything that one attempt to solve works with.
pub struct System<R, K> {
    pub partition: Partition,
    pub linear: LinearView<R>,
    pub scales: Seq<R>,
    pub edges: Seq<Edge>,
    pub cross: Seq<R>,
    pub blocks: BlockFactors<R>,
    pub kernel: K,
}

impl<R: Real, K: Triangular<R>> System<R, K> {
    pub open spec fn retained(self) -> int {
        self.partition.retained as int
    }

    /// The coupling blocks applied to values of one side and added to those of the other.
    pub open spec fn couple(self, out: Seq<R>, rhs: Seq<R>, transpose: bool, alpha: R) -> Seq<R> {
        crossed(
            self.partition,
            self.edges,
            self.cross,
            out,
            rhs,
            transpose,
            alpha,
            self.cross.len() as int,
        )
    }

    /// The reduced system applied to retained values: `(B - E C^-1 E^T) x`, where `B` and `C`
    /// are the damped Gram matrices of the two sides and `E` couples them.
    pub open spec fn product(self, lambda: R, x: Seq<R>) -> Seq<R> {
        let own = grammed(
            self.blocks.grams(),
            Seq::new(self.partition.retained as nat, |i: int| lambda.times_spec(x[i])),
            x,
            self.blocks.blocks@.len() as int,
        );
        let across = self.couple(
            Seq::new((self.linear.cols - self.retained()) as nat, |i: int| R::zero_spec()),
            x,
            true,
            R::one_spec(),
        );
        self.couple(
            own,
            self.blocks.solved(self.kernel, across, self.retained(), lambda),
            false,
            R::one_spec().negate_spec(),
        )
    }

    /// Retained values solved by the damped Gram matrices of their side alone.
    pub open spec fn preconditioned(self, lambda: R, x: Seq<R>) -> Seq<R> {
        self.blocks.solved(self.kernel, x, 0, lambda)
    }

    /// The negative gradient in normalized coordinates.
    pub open spec fn descent_direction(self) -> Seq<R> {
        Seq::new(
            self.linear.cols,
            |j: int| self.linear.gradient[j].negate_spec().over_spec(self.scales[j]),
        )
    }

    /// The right-hand side of the reduced system.
    pub open spec fn reduced_rhs(self, lambda: R) -> Seq<R> {
        let direction = self.descent_direction();
        self.couple(
            direction.take(self.retained()),
            self.blocks.solved(
                self.kernel,
                direction.skip(self.retained()),
                self.retained(),
                lambda,
            ),
            false,
            R::one_spec().negate_spec(),
        )
    }

    /// The step of all coordinates that belongs to a step of the retained ones.
    pub open spec fn recovered(self, lambda: R, reduced: Seq<R>) -> Seq<R> {
        let rest = self.blocks.solved(
            self.kernel,
            self.couple(
                self.descent_direction().skip(self.retained()),
                reduced,
                true,
                R::one_spec().negate_spec(),
            ),
            self.retained(),
            lambda,
        );
        Seq::new(self.linear.cols, |j: int| (reduced + rest)[j].over_spec(self.scales[j]))
    }

    /// Sizes fit, and no block reaches from one side into the other.
    pub open spec fn wf(self) -> bool {
        &&& self.blocks.wf()
        &&& self.blocks.owners@.len() == self.linear.cols
        &&& self.partition.retained <= self.linear.cols <= usize::MAX
        &&& self.linear.gradient.len() == self.linear.cols
        &&& self.scales.len() == self.linear.cols
        &&& self.cross.len() == couplings(self.partition, self.edges.len() as int)
        &&& self.blocks.separates(0, self.retained())
        &&& self.blocks.separates(self.retained(), self.linear.cols - self.retained())
        &&& edges_fit(
            self.partition,
            self.edges,
            self.retained(),
            self.linear.cols - self.retained(),
        )
    }
}

/// The reduced system as a linear map.
pub struct Reduced<'a, R, K> {
    pub partition: Partition,
    pub eliminated: usize,
    pub blocks: &'a BlockFactors<R>,
    pub edges: &'a Vec<Edge>,
    pub cross: &'a Vec<R>,
    pub lambda: R,
    pub kernel: &'a K,
    pub system: Ghost<System<R, K>>,
}

impl<'a, R: Real, K: Triangular<R>> Operator<R> for Reduced<'a, R, K> {
    open spec fn wf(&self) -> bool {
        &&& self.system@.wf()
        &&& self.system@.partition == self.partition
        &&& self.system@.linear.cols == self.partition.retained + self.eliminated
        &&& self.system@.blocks == *self.blocks
        &&& self.system@.edges == self.edges@
        &&& self.system@.cross == self.cross@
        &&& self.system@.kernel == *self.kernel
    }

    open spec fn rows(&self) -> nat {
        self.partition.retained as nat
    }

    open spec fn cols(&self) -> nat {
        self.partition.retained as nat
    }

    open spec fn product(&self, x: Seq<R>) -> Seq<R> {
        self.system@.product(self.lambda, x)
    }

    fn apply(&self, x: &[R]) -> (y: Vec<R>) {
        let retained: usize = self.partition.retained;
        let mut out: Vec<R> = Vec::new();
        while out.len() < retained
            invariant
                x@.len() == retained,
                out@.len() <= retained,
                forall|i: int|
                    0 <= i < out@.len() ==> #[trigger] out@[i] == self.lambda.times_spec(x@[i]),
            decreases retained - out@.len(),
        {
            out.push(self.lambda.times(x[out.len()]));
        }
        assert(out@ =~= Seq::new(retained as nat, |i: int| self.lambda.times_spec(x@[i])));
        add_grams(self.blocks, &mut out, x);
        let mut across: Vec<R> = Vec::new();
        while across.len() < self.eliminated
            invariant
                across@.len() <= self.eliminated,
                forall|i: int| 0 <= i < across@.len() ==> #[trigger] across@[i] == R::zero_spec(),
            decreases self.eliminated - across@.len(),
        {
            across.push(R::zero());
        }
        assert(across@ =~= Seq::new(self.eliminated as nat, |i: int| R::zero_spec()));
        cross_apply(
            self.partition,
            self.edges.as_slice(),
            self.cross.as_slice(),
            &mut across,
            x,
            true,
            R::one(),
        );
        self.blocks.solve_normal(self.kernel, &mut across, retained, self.lambda);
        cross_apply(
            self.partition,
            self.edges.as_slice(),
            self.cross.as_slice(),
            &mut out,
            across.as_slice(),
            false,
            R::one().negate(),
        );
        out
    }
}

/// The damped Gram matrices of the retained side as a preconditioner.
pub struct RetainedPreconditioner<'a, R, K>(pub Reduced<'a, R, K>);

impl<'a, R: Real, K: Triangular<R>> Operator<R> for RetainedPreconditioner<'a, R, K> {
    open spec fn wf(&self) -> bool {
        self.0.wf()
    }

    open spec fn rows(&self) -> nat {
        self.0.partition.retained as nat
    }

    open spec fn cols(&self) -> nat {
        self.0.partition.retained as nat
    }

    open spec fn product(&self, x: Seq<R>) -> Seq<R> {
        self.0.system@.preconditioned(self.0.lambda, x)
    }

    fn apply(&self, x: &[R]) -> (y: Vec<R>) {
        let mut y = copied(x);
        self.0.blocks.solve_normal(self.0.kernel, &mut y, 0, self.0.lambda);
        y
    }
}

/// Work done since the backend was last prepared; the counters wrap around.
#[derive(Debug, Clone, Copy, PartialEq, Eq, Structural)]
pub struct SchurStatistics {
    /// Attempts to solve, including failures.
    pub solves: usize,
    /// Iterations of the reduced solves, including failures.
    pub iterations: usize,
}

/// How the last reduced solve ended.
#[derive(Debug, Clone, Copy, PartialEq, Eq, Structural)]
pub enum SchurTermination {
    /// The reduced residual met the relative tolerance.
    Converged,
    /// The iterations were used up.
    IterationLimit,
    /// A block or the reduced system is not positive definite.
    NotPositiveDefinite,
    /// A recovered step or a residual is not finite.
    NonFinite,
}

/// Diagnostics of the last attempt to solve.
#[derive(Debug, Clone, Copy)]
pub struct SchurDiagnostics<R> {
    /// None before an attempt.
    pub termination: Option<SchurTermination>,
    /// Iterations of this attempt.
    pub iterations: usize,
    /// Damping of this attempt.
    pub damping: R,
    /// The iteration's own estimate of the relative residual of the reduced system.
    pub estimated_relative_residual: Option<R>,
    /// The relative residual of the reduced system, computed afresh.
    pub reduced_relative_residual: Option<R>,
    /// The residual of the damped normal equations relative to the gradient, in normalized
    /// coordinates.
    pub scaled_relative_residual: Option<R>,
    /// The residual of the damped normal equations relative to the gradient.
    pub original_relative_residual: Option<R>,
}

/// Nanoseconds spent since the backend was last prepared, where they are collected.
///
/// Products and preconditioning are parts of the linear solve.
#[derive(Debug, Clone, Copy, PartialEq, Eq, Structural)]
pub struct SchurTimings {
    /// Column lengths, Gram matrices and coupling blocks.
    pub preparation: u64,
    /// Factorizations and the reduced right-hand side.
    pub factorization: u64,
    /// Reduced solves.
    pub linear_solve: u64,
    /// Products with the reduced system.
    pub products: u64,
    /// Uses of the preconditioner.
    pub preconditioner: u64,
    /// Recovered steps and their residuals.
    pub verification: u64,
}

impl SchurStatistics {
    pub open spec fn blank_spec() -> Self {
        SchurStatistics { solves: 0, iterations: 0 }
    }

    fn blank() -> (statistics: Self)
        ensures
            statistics == Self::blank_spec(),
    {
        SchurStatistics { solves: 0, iterations: 0 }
    }
}

impl SchurTimings {
    pub open spec fn blank_spec() -> Self {
        SchurTimings {
            preparation: 0,
            factorization: 0,
            linear_solve: 0,
            products: 0,
            preconditioner: 0,
            verification: 0,
        }
    }

    /// Totals after preparing damping: only that is timed.
    pub open spec fn prepared(self, after: Self, collected: bool) -> bool {
        &&& clocked(collected, self.preparation, after.preparation)
        &&& after == (SchurTimings { preparation: after.preparation, ..self })
    }

    /// Totals after factoring: only that is timed.
    pub open spec fn factored(self, after: Self, collected: bool) -> bool {
        &&& clocked(collected, self.factorization, after.factorization)
        &&& after == (SchurTimings { factorization: after.factorization, ..self })
    }

    /// Totals after an iterative solve: it is timed as a whole, and by the maps it applies.
    pub open spec fn solved(self, after: Self, collected: bool) -> bool {
        &&& clocked(collected, self.linear_solve, after.linear_solve)
        &&& clocked(collected, self.products, after.products)
        &&& clocked(collected, self.preconditioner, after.preconditioner)
        &&& after == (SchurTimings {
            linear_solve: after.linear_solve,
            products: after.products,
            preconditioner: after.preconditioner,
            ..self
        })
    }

    /// Totals after checking a step: only that is timed.
    pub open spec fn checked(self, after: Self, collected: bool) -> bool {
        &&& clocked(collected, self.verification, after.verification)
        &&& after == (SchurTimings { verification: after.verification, ..self })
    }

    /// Totals after a whole attempt, which factors, solves and checks once each. The time spent
    /// on preparation stays.
    pub open spec fn attempted(self, after: Self, collected: bool) -> bool {
        exists|first: Self, second: Self|
            {
                &&& #[trigger] self.factored(first, collected)
                &&& #[trigger] first.solved(second, collected)
                &&& second.checked(after, collected)
            }
    }

    fn blank() -> (timings: Self)
        ensures
            timings == Self::blank_spec(),
    {
        SchurTimings {
            preparation: 0,
            factorization: 0,
            linear_solve: 0,
            products: 0,
            preconditioner: 0,
            verification: 0,
        }
    }
}

impl<R: Real> SchurDiagnostics<R> {
    /// Nothing attempted under some damping.
    pub open spec fn blank_spec(damping: R) -> Self {
        SchurDiagnostics {
            termination: None,
            iterations: 0,
            damping,
            estimated_relative_residual: None,
            reduced_relative_residual: None,
            scaled_relative_residual: None,
            original_relative_residual: None,
        }
    }

    fn blank(damping: R) -> (diagnostics: Self)
        ensures
            diagnostics == Self::blank_spec(damping),
    {
        SchurDiagnostics {
            termination: None,
            iterations: 0,
            damping,
            estimated_relative_residual: None,
            reduced_relative_residual: None,
            scaled_relative_residual: None,
            original_relative_residual: None,
        }
    }
}

/// What an attempt to solve comes to.
pub struct Attempted<R> {
    pub diagnostics: SchurDiagnostics<R>,
    pub step: Seq<R>,
    pub predicted: Result<R, SolverError>,
}

/// The retained step of a reduced solve; one of the wrong length counts as none.
pub open spec fn reduced_step<R: Real>(retained: nat, descent: DescentView<R>) -> Seq<R> {
    if descent.step.len() == retained {
        descent.step
    } else {
        Seq::new(retained, |i: int| R::zero_spec())
    }
}

/// How a reduced solve ended, with its estimate of the residual.
pub open spec fn ended<R: Real>(retained: nat, descent: DescentView<R>) -> (
    SchurTermination,
    Option<R>,
) {
    if descent.step.len() != retained {
        (SchurTermination::NotPositiveDefinite, None)
    } else {
        match descent.end {
            DescentEnd::Converged(estimate) => (SchurTermination::Converged, Some(estimate)),
            DescentEnd::Exhausted => (SchurTermination::IterationLimit, None),
            DescentEnd::Broken => (SchurTermination::NotPositiveDefinite, None),
        }
    }
}

impl<R: Real, K: Triangular<R> + ConjugateGradient<R>> System<R, K> {
    /// The reduced solve.
    pub open spec fn descent(self, lambda: R, tolerance: R, max_iterations: usize) -> DescentView<
        R,
    > {
        self.kernel.descent_spec(
            |x: Seq<R>| self.product(lambda, x),
            |x: Seq<R>| self.preconditioned(lambda, x),
            self.reduced_rhs(lambda),
            tolerance,
            max_iterations,
        )
    }

    /// The residual of the reduced system after a step, relative to its right-hand side.
    pub open spec fn reduced_residual(self, lambda: R, reduced: Seq<R>) -> R {
        let rhs = self.reduced_rhs(lambda);
        let residual = Seq::new(
            self.partition.retained as nat,
            |i: int| self.product(lambda, reduced)[i].minus_spec(rhs[i]),
        );
        relative_spec(
            hypot_sum(residual, residual.len() as int),
            hypot_sum(rhs, rhs.len() as int),
        )
    }

    /// The residual of the damped normal equations after a step, relative to the gradient.
    pub open spec fn original_residual(self, lambda: R, step: Seq<R>) -> R {
        relative_spec(
            hypot_sum(
                self.linear.normal_residual(step, self.scales, lambda),
                self.linear.cols as int,
            ),
            hypot_sum(self.linear.gradient, self.linear.cols as int),
        )
    }

    /// The same in normalized coordinates.
    pub open spec fn scaled_residual(self, lambda: R, step: Seq<R>) -> R {
        let residual = scaled(
            self.linear.normal_residual(step, self.scales, lambda),
            self.linear.cols,
            self.scales,
        );
        let reference = scaled(self.linear.gradient, self.linear.cols, self.scales);
        relative_spec(
            hypot_sum(residual, residual.len() as int),
            hypot_sum(reference, reference.len() as int),
        )
    }

    /// What comes of a reduced solve: the step it leads to is returned only if it is finite,
    /// with finite residuals, and the solve converged.
    pub open spec fn concluded(self, lambda: R, descent: DescentView<R>) -> Attempted<R> {
        let retained = self.partition.retained as nat;
        let reduced = reduced_step(retained, descent);
        let step = self.recovered(lambda, reduced);
        let predicted = self.linear.predicted(step);
        let (termination, estimate) = ended(retained, descent);
        let finite = all_finite(step) && predicted.finite_spec() && self.reduced_residual(
            lambda,
            reduced,
        ).finite_spec() && self.scaled_residual(lambda, step).finite_spec()
            && self.original_residual(lambda, step).finite_spec();
        Attempted {
            diagnostics: SchurDiagnostics {
                termination: Some(
                    if finite {
                        termination
                    } else {
                        SchurTermination::NonFinite
                    },
                ),
                iterations: descent.iterations,
                damping: lambda,
                estimated_relative_residual: estimate,
                reduced_relative_residual: Some(self.reduced_residual(lambda, reduced)),
                scaled_relative_residual: Some(self.scaled_residual(lambda, step)),
                original_relative_residual: Some(self.original_residual(lambda, step)),
            },
            step,
            predicted: if finite && termination == SchurTermination::Converged {
                Ok(predicted)
            } else {
                Err(SolverError::LinearSolveFailed)
            },
        }
    }
}

/// Iterative elimination for bipartite least squares.
///
/// The eliminated side is solved block by block, and the reduced system of the retained side
/// by conjugate gradients, preconditioned by its own blocks. Neither the normal matrix nor
/// the reduced one is assembled. A block that is not positive definite, or a reduced solve
/// that does not converge, fails the attempt.
pub struct Schur<R, K> {
    /// Iterations of a reduced solve at most; must be positive.
    pub max_iterations: usize,
    /// Relative residual at which a reduced solve stops; in `[0, 1)`.
    pub relative_tolerance: R,
    /// Whether timings are collected.
    pub collect_timings: bool,
    pub partition: Partition,
    pub model: LinearizedModel<R>,
    pub blocks: BlockFactors<R>,
    pub work: StepWorkspace<R>,
    pub edges: Vec<Edge>,
    pub cross: Vec<R>,
    pub ready: bool,
    pub statistics: SchurStatistics,
    pub diagnostics: SchurDiagnostics<R>,
    pub timings: SchurTimings,
    pub kernel: K,
}

/// The partition and the kernel.
pub struct SchurShape<R, K> {
    pub partition: Partition,
    pub max_iterations: usize,
    pub relative_tolerance: R,
    pub collect_timings: bool,
    pub kernel: K,
}

impl<R, K> View for Schur<R, K> where R: Real {
    type V = SchurView<R>;

    open spec fn view(&self) -> SchurView<R> {
        SchurView { partition: self.partition, linear: self.model@, edges: self.edges@ }
    }
}

impl<R: Real, K> Schur<R, K> {
    /// Select a retained prefix and the width of the blocks on both sides. Whether they
    /// divide a graph's coordinates shows when the backend is prepared for it.
    pub fn new(
        retained_dimension: usize,
        retained_block_width: usize,
        eliminated_block_width: usize,
        kernel: K,
    ) -> (schur: Self)
        ensures
            schur.max_iterations == 1000,
            schur.relative_tolerance == R::ratio_spec(1, 10_000_000_000).max_spec(
                R::epsilon_spec().times_spec(R::ratio_spec(128, 1)),
            ),
            !schur.collect_timings,
            schur.partition == (Partition {
                retained: retained_dimension,
                retained_width: retained_block_width,
                eliminated_width: eliminated_block_width,
            }),
            schur.model.wf(),
            schur@.linear == LinearView::<R>::empty(0),
            schur@.edges == Seq::<Edge>::empty(),
            schur.work.step@ == Seq::<R>::empty(),
            !schur.ready,
            schur.statistics == SchurStatistics::blank_spec(),
            schur.diagnostics == SchurDiagnostics::blank_spec(R::zero_spec()),
            schur.timings == SchurTimings::blank_spec(),
            schur.kernel == kernel,
    {
        Schur {
            max_iterations: 1000,
            relative_tolerance: R::ratio(1, 10_000_000_000).max(
                R::epsilon().times(R::ratio(128, 1)),
            ),
            collect_timings: false,
            partition: Partition {
                retained: retained_dimension,
                retained_width: retained_block_width,
                eliminated_width: eliminated_block_width,
            },
            model: LinearizedModel::new(),
            blocks: BlockFactors::new(),
            work: StepWorkspace::new(),
            edges: Vec::new(),
            cross: Vec::new(),
            ready: false,
            statistics: SchurStatistics::blank(),
            diagnostics: SchurDiagnostics::blank(R::zero()),
            timings: SchurTimings::blank(),
            kernel,
        }
    }

    /// Work done since the backend was last prepared.
    pub fn statistics(&self) -> (statistics: SchurStatistics)
        ensures
            statistics == self.statistics,
    {
        self.statistics
    }

    /// Diagnostics of the last attempt, successful or not.
    pub fn diagnostics(&self) -> (diagnostics: SchurDiagnostics<R>)
        ensures
            diagnostics == self.diagnostics,
    {
        self.diagnostics
    }

    /// Time spent since the backend was last prepared.
    pub fn timings(&self) -> (timings: SchurTimings)
        ensures
            timings == self.timings,
    {
        self.timings
    }

    /// What an attempt works with.
    pub open spec fn system(&self) -> System<R, K> {
        System {
            partition: self.partition,
            linear: self.model@,
            scales: self.model.scales@,
            edges: self.edges@,
            cross: self.cross@,
            blocks: self.blocks,
            kernel: self.kernel,
        }
    }

    /// Configuration, model and kernel are those of another state of the backend.
    pub open spec fn same_problem(&self, other: &Self) -> bool {
        &&& self.max_iterations == other.max_iterations
        &&& self.relative_tolerance == other.relative_tolerance
        &&& self.collect_timings == other.collect_timings
        &&& self.partition == other.partition
        &&& self.model == other.model
        &&& self.edges == other.edges
        &&& self.kernel == other.kernel
    }
}

impl<R: Real, K: Clock> Schur<R, K> {
    /// The moment that the clock shows, where timings are collected.
    fn start(&self) -> (moment: Option<u64>)
        ensures
            moment is Some <==> self.collect_timings,
    {
        if self.collect_timings {
            Some(self.kernel.now())
        } else {
            None
        }
    }

    /// A total extended by the time since a moment, where one was taken. What the clock shows
    /// is up to the machine.
    fn charged(&self, total: u64, start: Option<u64>) -> (time: u64)
        ensures
            charges(total, start, time),
    {
        match start {
            Some(start) => prolonged(total, start, self.kernel.now()),
            None => total,
        }
    }
}

impl<R: Real, K: Triangular<R> + ConjugateGradient<R> + Clock> Schur<R, K> {
    /// A sound model, and once damping is prepared everything that an attempt needs.
    pub open spec fn valid(&self) -> bool {
        &&& self.model.wf()
        &&& self@.wf()
        &&& self.work.step@.len() == self.model.jacobian.cols
        &&& self.ready ==> {
            &&& self.system().wf()
            &&& self.work.product@.len() == self.model.jacobian.rows
            &&& self.work.normal_residual@.len() == self.model.jacobian.cols
            &&& self.work.reference@.len() == self.model.jacobian.cols
        }
    }

    /// The reduced system under some damping.
    fn reduced(&self, lambda: R) -> (operator: Reduced<'_, R, K>)
        requires
            self.valid(),
            self.ready,
        ensures
            operator.wf(),
            operator.lambda == lambda,
            operator.partition == self.partition,
            operator.system@ == self.system(),
    {
        Reduced {
            partition: self.partition,
            eliminated: self.model.jacobian.cols - self.partition.retained,
            blocks: &self.blocks,
            edges: &self.edges,
            cross: &self.cross,
            lambda,
            kernel: &self.kernel,
            system: Ghost(self.system()),
        }
    }

    /// The negative gradient in normalized coordinates, from a coordinate on up to another.
    fn descent_direction(&self, from: usize, to: usize) -> (direction: Vec<R>)
        requires
            self.model.wf(),
            self.model.scales@.len() == self.model.jacobian.cols,
            from <= to <= self.model.jacobian.cols,
        ensures
            direction@ == self.system().descent_direction().subrange(from as int, to as int),
    {
        let mut direction: Vec<R> = Vec::new();
        let mut j: usize = from;
        while j < to
            invariant
                self.model.wf(),
                self.model.scales@.len() == self.model.jacobian.cols,
                from <= j <= to <= self.model.jacobian.cols,
                direction@ == self.system().descent_direction().subrange(from as int, j as int),
            decreases to - j,
        {
            direction.push(self.model.gradient[j].negate().over(self.model.scales[j]));
            j += 1;
            assert(direction@ =~= self.system().descent_direction().subrange(
                from as int,
                j as int,
            ));
        }
        direction
    }

    /// Factor all blocks and form the right-hand side of the reduced system. An exact
    /// elimination has no use for a block that fails.
    fn factor_and_reduce_rhs(&mut self, lambda: R) -> (rhs: Result<Vec<R>, SolverError>)
        requires
            old(self).valid(),
            old(self).ready,
        ensures
            final(self).valid(),
            final(self).ready,
            final(self).same_problem(old(self)),
            final(self).cross@ == old(self).cross@,
            final(self).statistics == old(self).statistics,
            old(self).timings.factored(final(self).timings, old(self).collect_timings),
            final(self).blocks.same_blocks(&old(self).blocks),
            final(self).blocks.factored(
                old(self).kernel,
                lambda,
                final(self).blocks.blocks@.len() as int,
            ),
            match rhs {
                Err(error) => {
                    &&& error == SolverError::LinearSolveFailed
                    &&& exists|b: int|
                        0 <= b < old(self).blocks.blocks@.len() && #[trigger] old(
                            self,
                        ).blocks.grams().fails(old(self).kernel, b, lambda)
                    &&& final(self).diagnostics == (SchurDiagnostics {
                        termination: Some(SchurTermination::NotPositiveDefinite),
                        ..old(self).diagnostics
                    })
                },
                Ok(values) => {
                    &&& forall|b: int|
                        0 <= b < old(self).blocks.blocks@.len() ==> !#[trigger] old(
                            self,
                        ).blocks.grams().fails(old(self).kernel, b, lambda)
                    &&& final(self).diagnostics == old(self).diagnostics
                    &&& values@ == final(self).system().reduced_rhs(lambda)
                    &&& values@.len() == old(self).partition.retained
                },
            },
    {
        let n: usize = self.model.jacobian.cols;
        let retained: usize = self.partition.retained;
        let start = self.start();
        let failures: usize = self.blocks.factor(&self.kernel, lambda);
        assert(self.system().wf());
        if failures != 0 {
            let time: u64 = self.charged(self.timings.factorization, start);
            self.timings.factorization = time;
            self.diagnostics.termination = Some(SchurTermination::NotPositiveDefinite);
            return Err(SolverError::LinearSolveFailed);
        }
        let mut rhs = self.descent_direction(0, retained);
        let mut rest = self.descent_direction(retained, n);
        let ghost direction = self.system().descent_direction();
        assert(direction.subrange(0, retained as int) =~= direction.take(retained as int));
        assert(direction.subrange(retained as int, n as int) =~= direction.skip(retained as int));
        self.blocks.solve_normal(&self.kernel, &mut rest, retained, lambda);
        cross_apply(
            self.partition,
            self.edges.as_slice(),
            self.cross.as_slice(),
            &mut rhs,
            rest.as_slice(),
            false,
            R::one().negate(),
        );
        let time: u64 = self.charged(self.timings.factorization, start);
        self.timings.factorization = time;
        Ok(rhs)
    }

    /// Solve the reduced system.
    fn solve_reduced(&mut self, lambda: R, rhs: &[R]) -> (reduced: Vec<R>)
        requires
            old(self).valid(),
            old(self).ready,
            rhs@ == old(self).system().reduced_rhs(lambda),
            rhs@.len() == old(self).partition.retained,
        ensures
            final(self).valid(),
            final(self).ready,
            final(self).same_problem(old(self)),
            final(self).system() == old(self).system(),
            old(self).timings.solved(final(self).timings, old(self).collect_timings),
            ({
                let descent = old(self).system().descent(
                    lambda,
                    old(self).relative_tolerance,
                    old(self).max_iterations,
                );
                let end = ended(old(self).partition.retained as nat, descent);
                &&& reduced@ == reduced_step(old(self).partition.retained as nat, descent)
                &&& final(self).statistics.solves == old(self).statistics.solves
                &&& final(self).statistics.iterations == old(
                    self,
                ).statistics.iterations.wrapping_add(descent.iterations)
                &&& final(self).diagnostics == (SchurDiagnostics {
                    termination: Some(end.0),
                    iterations: descent.iterations,
                    estimated_relative_residual: end.1,
                    ..old(self).diagnostics
                })
            }),
            reduced@.len() == old(self).partition.retained,
    {
        let retained: usize = self.partition.retained;
        let start = self.start();
        let operator = self.reduced(lambda);
        let preconditioner = RetainedPreconditioner(self.reduced(lambda));
        let (descent, times) = self.kernel.descend(
            &operator,
            &preconditioner,
            rhs,
            self.relative_tolerance,
            self.max_iterations,
        );
        proof {
            let system = self.system();
            assert((|x: Seq<R>| operator.product(x)) =~= (|x: Seq<R>| system.product(lambda, x)));
            assert((|x: Seq<R>| preconditioner.product(x)) =~= (|x: Seq<R>|
                system.preconditioned(lambda, x)));
        }
        let Descent { step, iterations, end } = descent;
        let iterations: usize = iterations;
        let time: u64 = self.charged(self.timings.linear_solve, start);
        self.timings.linear_solve = time;
        let collected = self.collect_timings;
        self.timings.products = credited(collected, self.timings.products, times.forward);
        self.timings.preconditioner = credited(
            collected,
            self.timings.preconditioner,
            times.preconditioner,
        );
        self.statistics.iterations = self.statistics.iterations.wrapping_add(iterations);
        self.diagnostics.iterations = iterations;
        if step.len() != retained {
            self.diagnostics.termination = Some(SchurTermination::NotPositiveDefinite);
            self.diagnostics.estimated_relative_residual = None;
            let mut none: Vec<R> = Vec::new();
            while none.len() < retained
                invariant
                    none@.len() <= retained,
                    forall|i: int| 0 <= i < none@.len() ==> #[trigger] none@[i] == R::zero_spec(),
                decreases retained - none@.len(),
            {
                none.push(R::zero());
            }
            assert(none@ =~= Seq::new(retained as nat, |i: int| R::zero_spec()));
            return none;
        }
        match end {
            DescentEnd::Converged(estimate) => {
                self.diagnostics.termination = Some(SchurTermination::Converged);
                self.diagnostics.estimated_relative_residual = Some(estimate);
            },
            DescentEnd::Exhausted => {
                self.diagnostics.termination = Some(SchurTermination::IterationLimit);
                self.diagnostics.estimated_relative_residual = None;
            },
            DescentEnd::Broken => {
                self.diagnostics.termination = Some(SchurTermination::NotPositiveDefinite);
                self.diagnostics.estimated_relative_residual = None;
            },
        }
        step
    }

    /// Solve for the eliminated coordinates and leave normalized coordinates.
    fn recover_step(&mut self, lambda: R, reduced: &[R])
        requires
            old(self).valid(),
            old(self).ready,
            reduced@.len() == old(self).partition.retained,
        ensures
            final(self).valid(),
            final(self).ready,
            final(self).same_problem(old(self)),
            final(self).system() == old(self).system(),
            final(self).statistics == old(self).statistics,
            final(self).diagnostics == old(self).diagnostics,
            final(self).timings == old(self).timings,
            final(self).work.step@ == old(self).system().recovered(lambda, reduced@),
    {
        let n: usize = self.model.jacobian.cols;
        let retained: usize = self.partition.retained;
        let mut rest = self.descent_direction(retained, n);
        let ghost direction = self.system().descent_direction();
        assert(direction.subrange(retained as int, n as int) =~= direction.skip(retained as int));
        cross_apply(
            self.partition,
            self.edges.as_slice(),
            self.cross.as_slice(),
            &mut rest,
            reduced,
            true,
            R::one().negate(),
        );
        self.blocks.solve_normal(&self.kernel, &mut rest, retained, lambda);
        let mut step: Vec<R> = Vec::new();
        let mut j: usize = 0;
        while j < n
            invariant
                n == self.model.jacobian.cols,
                self.model.scales@.len() == n,
                retained <= n,
                reduced@.len() == retained,
                rest@.len() == n - retained,
                j <= n,
                step@ == Seq::new(
                    j as nat,
                    |i: int| (reduced@ + rest@)[i].over_spec(self.model.scales@[i]),
                ),
            decreases n - j,
        {
            let value = if j < retained {
                reduced[j]
            } else {
                rest[j - retained]
            };
            step.push(value.over(self.model.scales[j]));
            j += 1;
            assert(step@ =~= Seq::new(
                j as nat,
                |i: int| (reduced@ + rest@)[i].over_spec(self.model.scales@[i]),
            ));
        }
        self.work.step = step;
    }
}

impl<R: Real, K: Triangular<R> + ConjugateGradient<R> + Clock> Schur<R, K> {
    /// Check the reduced solve and the recovered step, each against what it was meant to
    /// solve.
    fn verify_step(&mut self, lambda: R, reduced: &[R], rhs: &[R]) -> (verified: Result<
        R,
        SolverError,
    >)
        requires
            old(self).valid(),
            old(self).ready,
            reduced@.len() == old(self).partition.retained,
            rhs@.len() == old(self).partition.retained,
            rhs@ == old(self).system().reduced_rhs(lambda),
        ensures
            final(self).valid(),
            final(self).ready,
            final(self).same_problem(old(self)),
            final(self).system() == old(self).system(),
            final(self).statistics == old(self).statistics,
            final(self).timings == old(self).timings,
            final(self).work.step == old(self).work.step,
            ({
                let system = old(self).system();
                let step = old(self).work.step@;
                let finite = all_finite(step) && system.linear.predicted(step).finite_spec()
                    && system.reduced_residual(lambda, reduced@).finite_spec()
                    && system.scaled_residual(lambda, step).finite_spec()
                    && system.original_residual(lambda, step).finite_spec();
                &&& final(self).diagnostics == (SchurDiagnostics {
                    termination: if finite {
                        old(self).diagnostics.termination
                    } else {
                        Some(SchurTermination::NonFinite)
                    },
                    reduced_relative_residual: Some(system.reduced_residual(lambda, reduced@)),
                    scaled_relative_residual: Some(system.scaled_residual(lambda, step)),
                    original_relative_residual: Some(system.original_residual(lambda, step)),
                    ..old(self).diagnostics
                })
                &&& verified == if finite && old(self).diagnostics.termination == Some(
                    SchurTermination::Converged,
                ) {
                    Ok::<R, SolverError>(system.linear.predicted(step))
                } else {
                    Err(SolverError::LinearSolveFailed)
                }
            }),
    {
        let retained: usize = self.partition.retained;
        let ghost system = self.system();
        let ghost step = self.work.step@;
        let mut residual = self.reduced(lambda).apply(reduced);
        let ghost product = residual@;
        let mut i: usize = 0;
        while i < retained
            invariant
                retained == product.len(),
                rhs@.len() == retained,
                residual@.len() == retained,
                i <= retained,
                forall|k: int|
                    0 <= k < retained ==> #[trigger] residual@[k] == if k < i {
                        product[k].minus_spec(rhs@[k])
                    } else {
                        product[k]
                    },
            decreases retained - i,
        {
            residual.set(i, residual[i].minus(rhs[i]));
            i += 1;
        }
        assert(residual@ =~= Seq::new(
            retained as nat,
            |k: int| system.product(lambda, reduced@)[k].minus_spec(rhs@[k]),
        ));
        let reduced_residual = relative_norm(residual.as_slice(), rhs);
        let verified = self.model.verify_step(&mut self.work, lambda);
        let original_residual = relative(verified.residual_norm, verified.reference_norm);
        self.work.scale_residual(self.model.scales.as_slice());
        let scaled_residual = relative_norm(
            self.work.normal_residual.as_slice(),
            self.work.reference.as_slice(),
        );
        self.diagnostics.reduced_relative_residual = Some(reduced_residual);
        self.diagnostics.original_relative_residual = Some(original_residual);
        self.diagnostics.scaled_relative_residual = Some(scaled_residual);
        if !verified.finite_step || !verified.predicted_reduction.is_finite()
            || !reduced_residual.is_finite() || !scaled_residual.is_finite()
            || !original_residual.is_finite() {
            self.diagnostics.termination = Some(SchurTermination::NonFinite);
            return Err(SolverError::LinearSolveFailed);
        }
        match self.diagnostics.termination {
            Some(SchurTermination::Converged) => Ok(verified.predicted_reduction),
            _ => Err(SolverError::LinearSolveFailed),
        }
    }

    /// Attempt to solve the model under some damping.
    fn attempt(&mut self, lambda: R) -> (attempted: Result<R, SolverError>)
        requires
            old(self).valid(),
            old(self).ready,
            old(self).diagnostics == SchurDiagnostics::blank_spec(lambda),
        ensures
            final(self).valid(),
            final(self).ready,
            final(self).same_problem(old(self)),
            final(self).cross@ == old(self).cross@,
            final(self).blocks.same_blocks(&old(self).blocks),
            final(self).blocks.factored(
                old(self).kernel,
                lambda,
                final(self).blocks.blocks@.len() as int,
            ),
            final(self).statistics.solves == old(self).statistics.solves,
            if exists|b: int|
                0 <= b < old(self).blocks.blocks@.len() && #[trigger] old(
                    self,
                ).blocks.grams().fails(old(self).kernel, b, lambda) {
                &&& attempted == Err::<R, SolverError>(SolverError::LinearSolveFailed)
                &&& old(self).timings.factored(final(self).timings, old(self).collect_timings)
                &&& final(self).statistics == old(self).statistics
                &&& final(self).diagnostics == (SchurDiagnostics {
                    termination: Some(SchurTermination::NotPositiveDefinite),
                    ..SchurDiagnostics::blank_spec(lambda)
                })
            } else {
                let descent = final(self).system().descent(
                    lambda,
                    old(self).relative_tolerance,
                    old(self).max_iterations,
                );
                let concluded = final(self).system().concluded(lambda, descent);
                &&& attempted == concluded.predicted
                &&& old(self).timings.attempted(final(self).timings, old(self).collect_timings)
                &&& final(self).work.step@ == concluded.step
                &&& final(self).diagnostics == concluded.diagnostics
                &&& final(self).statistics.iterations == old(
                    self,
                ).statistics.iterations.wrapping_add(descent.iterations)
            },
    {
        let rhs = match self.factor_and_reduce_rhs(lambda) {
            Ok(rhs) => rhs,
            Err(error) => {
                return Err(error);
            },
        };
        let reduced = self.solve_reduced(lambda, rhs.as_slice());
        let start = self.start();
        self.recover_step(lambda, reduced.as_slice());
        let verified = self.verify_step(lambda, reduced.as_slice(), rhs.as_slice());
        let time: u64 = self.charged(self.timings.verification, start);
        self.timings.verification = time;
        verified
    }
}

/// Scales, Gram matrices and coupling blocks for damped attempts.
pub struct Damping<R> {
    pub scales: Seq<R>,
    pub grams: GramView<R>,
    pub cross: Seq<R>,
}

impl<R: Real> SchurView<R> {
    /// What damped attempts need, or why it cannot be had.
    pub open spec fn damping(self, floor: R) -> Result<Damping<R>, SolverError> {
        match self.linear.scales(floor) {
            Err(error) => Err(error),
            Ok(scales) => match GramView::<R>::empty(self.linear.cols).run(
                self.linear.blocks,
                self.linear.values,
                scales,
                self.linear.blocks.len() as int,
            ) {
                Err(error) => Err(SolverError::Evaluation(error)),
                Ok(grams) => if couplings(self.partition, self.edges.len() as int) > usize::MAX
                    || self.partition.retained_width * self.partition.eliminated_width
                    > usize::MAX {
                    Err(SolverError::Evaluation(EvaluationError::DimensionMismatch))
                } else {
                    match norm_inf_spec(self.coupled(scales)) {
                        Err(error) => Err(error),
                        Ok(_) => Ok(Damping { scales, grams, cross: self.coupled(scales) }),
                    }
                },
            },
        }
    }

    /// Gram matrices do not reach from one side into the other, either.
    proof fn lemma_grams(self, scales: Seq<R>, n: int)
        requires
            self.wf(),
            0 <= n <= self.linear.blocks.len(),
            GramView::<R>::empty(self.linear.cols).run(
                self.linear.blocks,
                self.linear.values,
                scales,
                n,
            ) is Ok,
        ensures
            ({
                let grams = GramView::<R>::empty(self.linear.cols).run(
                    self.linear.blocks,
                    self.linear.values,
                    scales,
                    n,
                )->Ok_0;
                &&& grams.owners.len() == self.linear.cols
                &&& forall|b: int|
                    0 <= b < grams.blocks.len() ==> (#[trigger] grams.blocks[b]).col
                        + grams.blocks[b].width <= self.partition.retained || grams.blocks[b].col
                        >= self.partition.retained
            }),
        decreases n,
    {
        if n > 0 {
            self.lemma_grams(scales, n - 1);
            assert(self.linear.blocks[n - 1].col + self.linear.blocks[n - 1].cols
                <= self.partition.retained || self.linear.blocks[n - 1].col
                >= self.partition.retained);
        }
    }
}

impl<R: Real, K: Triangular<R> + ConjugateGradient<R> + Clock> Schur<R, K> {
    /// One entry of the coupling blocks.
    fn coupling(&self, edge: Edge, p: usize, c: usize) -> (entry: R)
        requires
            self.model.wf(),
            self.model.scales@.len() == self.model.jacobian.cols,
            self@.couples(edge),
            p < self.partition.eliminated_width,
            c < self.partition.retained_width,
        ensures
            entry == self@.coupling_dot(
                self.model.scales@,
                edge,
                p as int,
                c as int,
                self.model.jacobian.blocks@[edge.retained_jacobian as int].rows as int,
            ),
    {
        let left = self.model.jacobian.blocks[edge.retained_jacobian];
        let right = self.model.jacobian.blocks[edge.eliminated_jacobian];
        assert(self.model.jacobian.blocks@[edge.retained_jacobian as int] == left);
        assert(self.model.jacobian.blocks@[edge.eliminated_jacobian as int] == right);
        let mut sum = R::zero();
        let mut row: usize = 0;
        while row < left.rows
            invariant
                self.model.wf(),
                self.model.scales@.len() == self.model.jacobian.cols,
                self@.couples(edge),
                left == self.model.jacobian.blocks@[edge.retained_jacobian as int],
                right == self.model.jacobian.blocks@[edge.eliminated_jacobian as int],
                p < right.cols,
                c < left.cols,
                row <= left.rows,
                sum == self@.coupling_dot(
                    self.model.scales@,
                    edge,
                    p as int,
                    c as int,
                    row as int,
                ),
            decreases left.rows - row,
        {
            let a = self.model.jacobian.entry(edge.retained_jacobian, row, c);
            let b = self.model.jacobian.entry(edge.eliminated_jacobian, row, p);
            sum = sum.plus(
                a.over(self.model.scales[left.col + c]).times(
                    b.over(self.model.scales[right.col + p]),
                ),
            );
            row += 1;
        }
        sum
    }

    /// All coupling blocks.
    fn couple(&self, size: usize) -> (cross: Vec<R>)
        requires
            self.model.wf(),
            self@.wf(),
            self.model.scales@.len() == self.model.jacobian.cols,
            size == couplings(self.partition, self.edges@.len() as int),
        ensures
            cross@ == self@.coupled(self.model.scales@),
    {
        let mut cross: Vec<R> = Vec::new();
        while cross.len() < size
            invariant
                self.model.wf(),
                self@.wf(),
                self.model.scales@.len() == self.model.jacobian.cols,
                size == couplings(self.partition, self.edges@.len() as int),
                cross@.len() <= size,
                forall|t: int|
                    0 <= t < cross@.len() ==> #[trigger] cross@[t] == self@.coupled(
                        self.model.scales@,
                    )[t],
            decreases size - cross@.len(),
        {
            let t: usize = cross.len();
            proof {
                lemma_coupling(t as int, self.partition, self.edges@.len() as int);
            }
            let q: usize = t / self.partition.retained_width;
            let edge = self.edges[q / self.partition.eliminated_width];
            assert(self@.couples(self@.edges[edge_of(t as int, self.partition)]));
            cross.push(
                self.coupling(
                    edge,
                    q % self.partition.eliminated_width,
                    t % self.partition.retained_width,
                ),
            );
        }
        assert(cross@ =~= self@.coupled(self.model.scales@));
        cross
    }

    /// Derive scales, Gram matrices and coupling blocks.
    fn derive(&mut self, floor: R) -> (derived: Result<(), SolverError>)
        requires
            old(self).valid(),
            !old(self).ready,
        ensures
            final(self).valid(),
            final(self)@ == old(self)@,
            final(self).max_iterations == old(self).max_iterations,
            final(self).relative_tolerance == old(self).relative_tolerance,
            final(self).collect_timings == old(self).collect_timings,
            final(self).kernel == old(self).kernel,
            final(self).statistics == old(self).statistics,
            final(self).diagnostics == old(self).diagnostics,
            final(self).timings == old(self).timings,
            match old(self)@.damping(floor) {
                Err(error) => {
                    &&& derived == Err::<(), SolverError>(error)
                    &&& !final(self).ready
                },
                Ok(damping) => {
                    &&& derived is Ok
                    &&& final(self).ready == (old(self).partition.retained
                        <= old(self).model.jacobian.cols)
                    &&& final(self).model.scales@ == damping.scales
                    &&& final(self).blocks.grams() == damping.grams
                    &&& final(self).cross@ == damping.cross
                },
            },
    {
        match self.model.prepare_scales(floor) {
            Ok(_) => {},
            Err(error) => {
                return Err(error);
            },
        }
        self.work.prepare_verification(self.model.jacobian.rows, self.model.jacobian.cols);
        assert forall|b: int| 0 <= b < self.model.jacobian.blocks@.len() implies (
        #[trigger] self.model.jacobian.blocks@[b]).start + self.model.jacobian.blocks@[b].rows
            * self.model.jacobian.blocks@[b].cols <= self.model.jacobian.values@.len() by {}
        match self.blocks.prepare(&self.model.jacobian, self.model.scales.as_slice()) {
            Ok(_) => {},
            Err(error) => {
                return Err(error);
            },
        }
        let width: usize = match self.partition.retained_width.checked_mul(
            self.partition.eliminated_width,
        ) {
            Some(width) => width,
            None => {
                return Err(SolverError::Evaluation(EvaluationError::DimensionMismatch));
            },
        };
        let size: usize = match width.checked_mul(self.edges.len()) {
            Some(size) => size,
            None => {
                return Err(SolverError::Evaluation(EvaluationError::DimensionMismatch));
            },
        };
        let cross = self.couple(size);
        match norm_inf(cross.as_slice()) {
            Ok(_) => {},
            Err(error) => {
                return Err(error);
            },
        }
        self.cross = cross;
        proof {
            self@.lemma_grams(self.model.scales@, self.model.jacobian.blocks@.len() as int);
            assert forall|b: int| 0 <= b < self.blocks.blocks@.len() implies (
            #[trigger] self.blocks.blocks@[b]).col + self.blocks.blocks@[b].width
                <= self.model.jacobian.cols by {
                assert(self.blocks.grams().blocks[b] == self.blocks.blocks@[b]);
            }
            assert forall|b: int| 0 <= b < self.blocks.blocks@.len() implies (
            #[trigger] self.blocks.blocks@[b]).col + self.blocks.blocks@[b].width
                <= self.partition.retained || self.blocks.blocks@[b].col
                >= self.partition.retained by {
                assert(self.blocks.grams().blocks[b] == self.blocks.blocks@[b]);
            }
            assert forall|e: int| 0 <= e < self.edges@.len() implies {
                &&& (#[trigger] self.edges@[e]).retained + self.partition.retained_width
                    <= self.partition.retained
                &&& self.edges@[e].eliminated + self.partition.eliminated_width
                    <= self.model.jacobian.cols - self.partition.retained
            } by {
                assert(self@.couples(self@.edges[e]));
            }
        }
        self.ready = self.partition.retained <= self.model.jacobian.cols;
        Ok(())
    }
}

impl<R: Real, K: Triangular<R> + ConjugateGradient<R> + Clock> Schur<R, K> {
    /// Find the blocks of an emission on the two sides, unless its structure is unsupported.
    fn sides(&self, blocks: &[JacobianBlock<R>], columns: &[usize]) -> (found: Option<
        (Option<usize>, Option<usize>),
    >)
        requires
            blocks@.len() == columns@.len(),
            forall|k: int|
                0 <= k < blocks@.len() ==> (#[trigger] columns@[k]) + blocks@[k].cols
                    <= self.model.jacobian.cols,
        ensures
            match found {
                None => self.partition.sides(
                    block_views(blocks@),
                    columns@,
                    blocks@.len() as int,
                ) is None,
                Some((left, right)) => self.partition.sides(
                    block_views(blocks@),
                    columns@,
                    blocks@.len() as int,
                ) == Some(Sides { left: place(left), right: place(right) }),
            },
    {
        let ghost views = block_views(blocks@);
        let mut left: Option<usize> = None;
        let mut right: Option<usize> = None;
        let mut k: usize = 0;
        while k < blocks.len()
            invariant
                views == block_views(blocks@),
                blocks@.len() == columns@.len(),
                forall|k: int|
                    0 <= k < blocks@.len() ==> (#[trigger] columns@[k]) + blocks@[k].cols
                        <= self.model.jacobian.cols,
                k <= blocks@.len(),
                self.partition.sides(views, columns@, k as int) == Some(
                    Sides { left: place(left), right: place(right) },
                ),
            decreases blocks@.len() - k,
        {
            let col: usize = columns[k];
            let width: usize = blocks[k].cols;
            assert(views[k as int].cols == width);
            if col < self.partition.retained {
                if !multiple(col, self.partition.retained_width) || width
                    != self.partition.retained_width || col + width > self.partition.retained
                    || left.is_some() {
                    proof {
                        self.partition.lemma_sides_stand(
                            views,
                            columns@,
                            k + 1,
                            blocks@.len() as int,
                        );
                    }
                    return None;
                }
                left = Some(k);
            } else {
                if !multiple(col - self.partition.retained, self.partition.eliminated_width)
                    || width != self.partition.eliminated_width || right.is_some() {
                    proof {
                        self.partition.lemma_sides_stand(
                            views,
                            columns@,
                            k + 1,
                            blocks@.len() as int,
                        );
                    }
                    return None;
                }
                right = Some(k);
            }
            k += 1;
        }
        Some((left, right))
    }
}

impl<R: Real, K: Triangular<R> + ConjugateGradient<R> + Clock> LeastSquaresBackend for Schur<R, K> {
    type Scalar = R;

    type Model = SchurView<R>;

    type Shape = SchurShape<R, K>;

    open spec fn wf(&self) -> bool {
        &&& self.model.sized()
        &&& self.work.step@.len() == self.model.jacobian.cols
        &&& self.ready ==> self.valid()
    }

    open spec fn dimension(&self) -> nat {
        self.model.jacobian.cols as nat
    }

    open spec fn model(&self) -> SchurView<R> {
        self@
    }

    open spec fn shape(&self) -> SchurShape<R, K> {
        SchurShape {
            partition: self.partition,
            max_iterations: self.max_iterations,
            relative_tolerance: self.relative_tolerance,
            collect_timings: self.collect_timings,
            kernel: self.kernel,
        }
    }

    open spec fn usable(&self) -> bool {
        self.valid()
    }

    /// No damping is prepared.
    open spec fn fresh(&self) -> bool {
        !self.ready
    }

    open spec fn keeps(&self, model: SchurView<R>) -> bool {
        self@ == model
    }

    open spec fn empty_spec(shape: SchurShape<R, K>, dimension: nat) -> SchurView<R> {
        SchurView {
            partition: shape.partition,
            linear: LinearView::empty(dimension),
            edges: Seq::empty(),
        }
    }

    open spec fn extended_spec(
        model: SchurView<R>,
        residual: Seq<R>,
        blocks: Seq<BlockView<R>>,
        columns: Seq<usize>,
    ) -> Result<SchurView<R>, EvaluationError> {
        model.extended(residual, blocks, columns)
    }

    open spec fn gradient_norm_spec(model: SchurView<R>) -> Result<R, SolverError> {
        norm_inf_spec(model.linear.gradient)
    }

    /// Both sides must be made of whole blocks, and the controls must be usable.
    open spec fn prepare_spec(&self, dimension: nat) -> Result<(), SolverError> {
        if self.partition.divides(dimension as int) && self.max_iterations != 0
            && R::zero_spec().at_most_spec(self.relative_tolerance)
            && self.relative_tolerance.below_spec(R::one_spec()) {
            Ok(())
        } else {
            Err(SolverError::InvalidOptions)
        }
    }

    /// A solve without damping, in coordinates normalized with a small floor.
    open spec fn answers(before: Self, after: Self, step: Result<Seq<R>, SolverError>) -> bool {
        match before@.damping(R::ratio_spec(1, 1_000_000)) {
            Err(error) => {
                &&& step == Err::<Seq<R>, SolverError>(error)
                &&& after.statistics == before.statistics
                &&& after.diagnostics == before.diagnostics
                &&& after.timings == before.timings
            },
            Ok(damping) => if before.partition.retained > before.model.jacobian.cols
                || !usable_damping(R::zero_spec()) {
                &&& step == Err::<Seq<R>, SolverError>(SolverError::InvalidOptions)
                &&& after.statistics == before.statistics
                &&& after.diagnostics == SchurDiagnostics::blank_spec(R::zero_spec())
                &&& before.timings.prepared(after.timings, before.collect_timings)
            } else {
                exists|ready: Schur<R, K>, damped: Result<(Seq<R>, R), SolverError>|
                    {
                        &&& prepared(before, ready, damping)
                        &&& #[trigger] attempted(ready, after, R::zero_spec(), damped)
                        &&& match damped {
                            Ok((delta, _)) => step == Ok::<Seq<R>, SolverError>(delta),
                            Err(error) => step == Err::<Seq<R>, SolverError>(error),
                        }
                    }
            },
        }
    }

    fn prepare(&mut self, dimension: usize) -> (prepared: Result<(), SolverError>)
        ensures
            final(self).statistics == SchurStatistics::blank_spec(),
            final(self).diagnostics == SchurDiagnostics::blank_spec(R::zero_spec()),
            final(self).timings == SchurTimings::blank_spec(),
            !final(self).ready,
            final(self).edges == old(self).edges,
            final(self).model@ == if prepared is Ok {
                old(self).model@.resized(dimension as nat)
            } else {
                old(self).model@
            },
    {
        self.ready = false;
        self.statistics = SchurStatistics::blank();
        self.diagnostics = SchurDiagnostics::blank(R::zero());
        self.timings = SchurTimings::blank();
        if self.partition.retained_width == 0 || self.partition.eliminated_width == 0
            || self.partition.retained > dimension || !multiple(
            self.partition.retained,
            self.partition.retained_width,
        ) || !multiple(dimension - self.partition.retained, self.partition.eliminated_width)
            || self.max_iterations == 0 || !R::zero().at_most(self.relative_tolerance)
            || !self.relative_tolerance.below(R::one()) {
            return Err(SolverError::InvalidOptions);
        }
        self.model.prepare(dimension);
        crate::linear_model::resize_zero(&mut self.work.step, dimension);
        Ok(())
    }

    fn clear(&mut self)
        ensures
            final(self).statistics == old(self).statistics,
            final(self).diagnostics == old(self).diagnostics,
            final(self).timings == old(self).timings,
            !final(self).ready,
    {
        self.ready = false;
        self.edges.clear();
        self.cross.clear();
        self.model.clear();
        assert(self@ =~= Self::empty_spec(self.shape(), self.dimension()));
    }

    fn accumulate(
        &mut self,
        residual: &[R],
        blocks: &[JacobianBlock<R>],
        columns: &[usize],
    ) -> (added: Result<(), EvaluationError>)
        ensures
            final(self).statistics == old(self).statistics,
            final(self).diagnostics == old(self).diagnostics,
            final(self).timings == old(self).timings,
            !final(self).ready,
    {
        self.ready = false;
        let ghost before = self@;
        let ghost views = block_views(blocks@);
        assert forall|k: int| 0 <= k < blocks@.len() implies (#[trigger] columns@[k])
            + blocks@[k].cols <= self.model.jacobian.cols by {
            assert(views[k] == blocks@[k]@);
        }
        let (left, right) = match self.sides(blocks, columns) {
            Some(found) => found,
            None => {
                return Err(EvaluationError::UnsupportedStructure);
            },
        };
        let start: usize = self.model.jacobian.blocks.len();
        match self.model.accumulate(residual, blocks, columns) {
            Ok(_) => {},
            Err(error) => {
                return Err(error);
            },
        }
        let total: usize = self.model.jacobian.blocks.len();
        proof {
            if before.wf() {
                lemma_extended(before, residual@, views, columns@);
            }
            before.partition.lemma_sides(views, columns@, blocks@.len() as int);
        }
        match (left, right) {
            (Some(l), Some(r)) => {
                assert(start + l < total && start + r < total);
                self.edges.push(
                    Edge {
                        retained: columns[l],
                        eliminated: columns[r] - self.partition.retained,
                        retained_jacobian: start + l,
                        eliminated_jacobian: start + r,
                    },
                );
            },
            _ => {},
        }
        assert(before.extended(residual@, views, columns@)->Ok_0 =~= self@);
        Ok(())
    }

    fn gradient_norm(&self) -> (norm: Result<R, SolverError>) {
        norm_inf(self.model.gradient.as_slice())
    }

    /// Solve without damping, in coordinates normalized with a small floor.
    fn solve(&mut self) -> (step: Result<Vec<R>, SolverError>) {
        match self.prepare_damping(R::ratio(1, 1_000_000)) {
            Ok(_) => {},
            Err(error) => {
                return Err(error);
            },
        }
        let ghost ready = *self;
        match self.solve_damped(R::zero()) {
            Ok(step) => {
                assert(usable_damping(R::zero_spec()) ==> attempted(
                    ready,
                    *self,
                    R::zero_spec(),
                    Ok((step.delta@, step.predicted_reduction)),
                ));
                Ok(step.delta)
            },
            Err(error) => {
                assert(ready.ready && usable_damping(R::zero_spec()) ==> attempted(
                    ready,
                    *self,
                    R::zero_spec(),
                    Err(error),
                ));
                Err(error)
            },
        }
    }
}

/// A damping that can be tried.
pub open spec fn usable_damping<R: Real>(lambda: R) -> bool {
    lambda.finite_spec() && !lambda.below_spec(R::zero_spec())
}

/// A backend made ready for damped attempts.
pub open spec fn prepared<R: Real, K>(
    before: Schur<R, K>,
    after: Schur<R, K>,
    damping: Damping<R>,
) -> bool {
    &&& after@ == before@
    &&& after.max_iterations == before.max_iterations
    &&& after.relative_tolerance == before.relative_tolerance
    &&& after.collect_timings == before.collect_timings
    &&& after.kernel == before.kernel
    &&& after.statistics == before.statistics
    &&& after.diagnostics == before.diagnostics
    &&& before.timings.prepared(after.timings, before.collect_timings)
    &&& after.ready == (before.partition.retained <= before.model.jacobian.cols)
    &&& after.model.scales@ == damping.scales
    &&& after.blocks.grams() == damping.grams
    &&& after.cross@ == damping.cross
}

/// What a damped attempt does to a backend that is ready for it.
pub open spec fn attempted<R: Real, K: Triangular<R> + ConjugateGradient<R> + Clock>(
    before: Schur<R, K>,
    after: Schur<R, K>,
    lambda: R,
    step: Result<(Seq<R>, R), SolverError>,
) -> bool {
    &&& after.same_problem(&before)
    &&& after.cross@ == before.cross@
    &&& after.ready
    &&& after.blocks.same_blocks(&before.blocks)
    &&& after.blocks.factored(before.kernel, lambda, after.blocks.blocks@.len() as int)
    &&& after.statistics.solves == before.statistics.solves.wrapping_add(1)
    &&& if exists|b: int|
        0 <= b < before.blocks.blocks@.len() && #[trigger] before.blocks.grams().fails(
            before.kernel,
            b,
            lambda,
        ) {
        &&& step == Err::<(Seq<R>, R), SolverError>(SolverError::LinearSolveFailed)
        &&& before.timings.factored(after.timings, before.collect_timings)
        &&& after.statistics.iterations == before.statistics.iterations
        &&& after.diagnostics == (SchurDiagnostics {
            termination: Some(SchurTermination::NotPositiveDefinite),
            ..SchurDiagnostics::blank_spec(lambda)
        })
    } else {
        let descent = after.system().descent(
            lambda,
            before.relative_tolerance,
            before.max_iterations,
        );
        let concluded = after.system().concluded(lambda, descent);
        &&& before.timings.attempted(after.timings, before.collect_timings)
        &&& after.statistics.iterations == before.statistics.iterations.wrapping_add(
            descent.iterations,
        )
        &&& after.diagnostics == concluded.diagnostics
        &&& match concluded.predicted {
            Ok(predicted) => step == Ok::<(Seq<R>, R), SolverError>((concluded.step, predicted)),
            Err(error) => step == Err::<(Seq<R>, R), SolverError>(error),
        }
    }
}

impl<R: Real, K: Triangular<R> + ConjugateGradient<R> + Clock> DampedLeastSquaresBackend for Schur<
    R,
    K,
> {
    /// The scales of the columns, with Gram matrices and coupling blocks.
    open spec fn scaled(
        before: Self,
        after: Self,
        min_column_norm: R,
        result: Result<(), SolverError>,
    ) -> bool {
        match before@.damping(min_column_norm) {
            Err(error) => {
                &&& result == Err::<(), SolverError>(error)
                &&& after.statistics == before.statistics
                &&& after.diagnostics == before.diagnostics
                &&& after.timings == before.timings
                &&& !after.ready
            },
            Ok(damping) => result is Ok && prepared(before, after, damping),
        }
    }

    /// An attempt, if damping is prepared and usable.
    open spec fn answers_damped(
        before: Self,
        after: Self,
        lambda: R,
        step: Result<(Seq<R>, R), SolverError>,
    ) -> bool {
        if !before.ready || !usable_damping(lambda) {
            &&& step == Err::<(Seq<R>, R), SolverError>(SolverError::InvalidOptions)
            &&& after == (Schur { diagnostics: SchurDiagnostics::blank_spec(lambda), ..before })
        } else {
            attempted(before, after, lambda, step)
        }
    }

    fn prepare_damping(&mut self, min_column_norm: R) -> (result: Result<(), SolverError>) {
        self.ready = false;
        let start = self.start();
        match self.derive(min_column_norm) {
            Ok(_) => {},
            Err(error) => {
                return Err(error);
            },
        }
        let time: u64 = self.charged(self.timings.preparation, start);
        self.timings.preparation = time;
        Ok(())
    }

    fn solve_damped(&mut self, lambda: R) -> (step: Result<DampedStep<R>, SolverError>) {
        self.diagnostics = SchurDiagnostics::blank(lambda);
        if !self.ready || !lambda.is_finite() || lambda.below(R::zero()) {
            return Err(SolverError::InvalidOptions);
        }
        self.statistics.solves = self.statistics.solves.wrapping_add(1);
        match self.attempt(lambda) {
            Ok(predicted_reduction) => Ok(
                DampedStep { delta: copied(self.work.step.as_slice()), predicted_reduction },
            ),
            Err(error) => Err(error),
        }
    }
}

} // verus!
