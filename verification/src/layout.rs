//! Coordinate ranges of variables and the variables each factor touches.
use crate::error::{EvaluationError, SolverError};
use crate::index::KeyIndex;
use crate::key::{BlockId, FactorId, RawKey};
use vstd::prelude::*;

verus! {

/// The coordinates of one variable.
#[derive(Debug, Clone, Copy, PartialEq, Eq, Structural)]
pub struct Block {
    pub id: BlockId,
    pub offset: usize,
    pub width: usize,
}

/// One factor and the run of entries that lists its variables.
#[derive(Debug, Clone, Copy, PartialEq, Eq, Structural)]
pub struct FactorPlan {
    pub id: FactorId,
    pub start: usize,
    pub end: usize,
}

/// The order of coordinates and factors that one numerical pass works with.
pub struct Layout {
    pub dimension: usize,
    pub blocks: Vec<Block>,
    pub block_index: KeyIndex,
    pub factors: Vec<FactorPlan>,
    pub factor_index: KeyIndex,
    pub dependencies: Vec<usize>,
}

/// Total width of a run of blocks.
#[verifier::opaque]
pub open spec fn span(blocks: Seq<Block>) -> nat
    decreases blocks.len(),
{
    if blocks.len() == 0 {
        0
    } else {
        span(blocks.drop_last()) + blocks.last().width as nat
    }
}

/// Positions of the first `n` listed variables, each once, in order of appearance.
pub open spec fn distinct_positions(
    index: Map<RawKey, usize>,
    variables: Seq<BlockId>,
    n: int,
) -> Seq<usize>
    decreases n,
{
    if n <= 0 {
        Seq::empty()
    } else {
        let before = distinct_positions(index, variables, n - 1);
        let position = index[variables[n - 1].raw];
        if index.contains_key(variables[n - 1].raw) && !before.contains(position) {
            before.push(position)
        } else {
            before
        }
    }
}

/// Whether every listed variable has coordinates.
pub open spec fn all_known(index: Map<RawKey, usize>, variables: Seq<BlockId>) -> bool {
    forall|i: int| 0 <= i < variables.len() ==> index.contains_key((#[trigger] variables[i]).raw)
}

impl Layout {
    /// Blocks tile the coordinates without gaps, both indices list exactly what is
    /// stored, and factors name stored blocks, none of them twice.
    pub open spec fn wf(&self) -> bool {
        &&& self.blocks_wf()
        &&& self.factors_wf()
    }

    pub open spec fn blocks_wf(&self) -> bool {
        &&& self.dimension == span(self.blocks@)
        &&& forall|i: int|
            0 <= i < self.blocks@.len() ==> (#[trigger] self.blocks@[i]).offset == span(
                self.blocks@.take(i),
            )
        &&& forall|i: int|
            0 <= i < self.blocks@.len() ==> {
                &&& self.block_index@.contains_key((#[trigger] self.blocks@[i]).id.raw)
                &&& self.block_index@[self.blocks@[i].id.raw] == i
            }
        &&& forall|key: RawKey| #[trigger]
            self.block_index@.contains_key(key) ==> {
                &&& self.block_index@[key] < self.blocks@.len()
                &&& self.blocks@[self.block_index@[key] as int].id.raw == key
            }
    }

    pub open spec fn factors_wf(&self) -> bool {
        &&& forall|f: int|
            0 <= f < self.factors@.len() ==> {
                &&& (#[trigger] self.factors@[f]).start <= self.factors@[f].end
                &&& self.factors@[f].end <= self.dependencies@.len()
                &&& self.deps(f).no_duplicates()
            }
        &&& forall|d: int|
            0 <= d < self.dependencies@.len() ==> #[trigger] self.dependencies@[d]
                < self.blocks@.len()
        &&& forall|f: int|
            0 <= f < self.factors@.len() ==> {
                &&& self.factor_index@.contains_key((#[trigger] self.factors@[f]).id.raw)
                &&& self.factor_index@[self.factors@[f].id.raw] == f
            }
        &&& forall|key: RawKey| #[trigger]
            self.factor_index@.contains_key(key) ==> {
                &&& self.factor_index@[key] < self.factors@.len()
                &&& self.factors@[self.factor_index@[key] as int].id.raw == key
            }
    }

    /// The blocks that a factor depends on, by position.
    pub open spec fn deps(&self, f: int) -> Seq<usize> {
        self.dependencies@.subrange(self.factors@[f].start as int, self.factors@[f].end as int)
    }

    /// Two blocks never overlap, and both lie within the coordinates.
    pub proof fn lemma_disjoint(&self, i: int, j: int)
        requires
            self.blocks_wf(),
            0 <= i < j < self.blocks@.len(),
        ensures
            self.blocks@[i].offset + self.blocks@[i].width <= self.blocks@[j].offset,
            self.blocks@[j].offset + self.blocks@[j].width <= self.dimension,
    {
        reveal(span);
        lemma_span_monotone(self.blocks@, i + 1, j);
        lemma_span_monotone(self.blocks@, j + 1, self.blocks@.len() as int);
        assert(self.blocks@.take(i + 1).drop_last() =~= self.blocks@.take(i));
        assert(self.blocks@.take(j + 1).drop_last() =~= self.blocks@.take(j));
        assert(self.blocks@.take(self.blocks@.len() as int) =~= self.blocks@);
    }

    /// Every block lies within the coordinates.
    pub proof fn lemma_within(&self, i: int)
        requires
            self.blocks_wf(),
            0 <= i < self.blocks@.len(),
        ensures
            self.blocks@[i].offset + self.blocks@[i].width <= self.dimension,
    {
        reveal(span);
        lemma_span_monotone(self.blocks@, i + 1, self.blocks@.len() as int);
        assert(self.blocks@.take(i + 1).drop_last() =~= self.blocks@.take(i));
        assert(self.blocks@.take(self.blocks@.len() as int) =~= self.blocks@);
    }

    /// Every coordinate belongs to a block.
    pub proof fn lemma_covered(&self, coordinate: int) -> (i: int)
        requires
            self.blocks_wf(),
            0 <= coordinate < self.dimension,
        ensures
            0 <= i < self.blocks@.len(),
            self.blocks@[i].offset <= coordinate < self.blocks@[i].offset + self.blocks@[i].width,
    {
        lemma_span_covers(self.blocks@, coordinate);
        let i = choose|i: int|
            0 <= i < self.blocks@.len() && span(#[trigger] self.blocks@.take(i)) <= coordinate
                < span(self.blocks@.take(i)) + self.blocks@[i].width;
        assert(self.blocks@[i].offset == span(self.blocks@.take(i)));
        i
    }

    /// A layout without variables or factors.
    pub fn new() -> (layout: Self)
        ensures
            layout.wf(),
            layout.dimension == 0,
            layout.blocks@ == Seq::<Block>::empty(),
            layout.factors@ == Seq::<FactorPlan>::empty(),
            layout.dependencies@ == Seq::<usize>::empty(),
            layout.block_index@ == Map::<RawKey, usize>::empty(),
            layout.factor_index@ == Map::<RawKey, usize>::empty(),
    {
        proof {
            reveal(span);
        }
        Layout {
            dimension: 0,
            blocks: Vec::new(),
            block_index: KeyIndex::new(),
            factors: Vec::new(),
            factor_index: KeyIndex::new(),
            dependencies: Vec::new(),
        }
    }

    /// Forget all variables and factors, keeping the storage.
    pub fn clear(&mut self)
        ensures
            final(self).wf(),
            final(self).dimension == 0,
            final(self).blocks@ == Seq::<Block>::empty(),
            final(self).factors@ == Seq::<FactorPlan>::empty(),
            final(self).dependencies@ == Seq::<usize>::empty(),
            final(self).block_index@ == Map::<RawKey, usize>::empty(),
            final(self).factor_index@ == Map::<RawKey, usize>::empty(),
    {
        self.dimension = 0;
        self.blocks.clear();
        self.block_index.clear();
        self.factors.clear();
        self.factor_index.clear();
        self.dependencies.clear();
        proof {
            reveal(span);
        }
    }

    /// What appending a variable yields: each has one block, and coordinates are
    /// counted in machine words.
    pub open spec fn block_outcome(&self, id: BlockId, width: usize) -> Result<(), SolverError> {
        if self.block_index@.contains_key(id.raw) {
            Err(SolverError::Evaluation(EvaluationError::InvalidEmission))
        } else if self.dimension + width > usize::MAX {
            Err(SolverError::Evaluation(EvaluationError::DimensionMismatch))
        } else {
            Ok(())
        }
    }

    /// Give a variable the next coordinates.
    pub fn block(&mut self, id: BlockId, width: usize) -> (placed: Result<(), SolverError>)
        requires
            old(self).wf(),
        ensures
            final(self).wf(),
            placed == old(self).block_outcome(id, width),
            final(self).factors@ == old(self).factors@,
            final(self).factor_index@ == old(self).factor_index@,
            final(self).dependencies@ == old(self).dependencies@,
            placed is Ok ==> {
                &&& final(self).blocks@ == old(self).blocks@.push(
                    Block { id, offset: old(self).dimension, width },
                )
                &&& final(self).dimension == old(self).dimension + width
                &&& final(self).block_index@ == old(self).block_index@.insert(
                    id.raw,
                    old(self).blocks@.len() as usize,
                )
            },
            placed is Err ==> *final(self) == *old(self),
    {
        if self.block_index.get(id.raw).is_some() {
            return Err(SolverError::Evaluation(EvaluationError::InvalidEmission));
        }
        let dimension: usize = match self.dimension.checked_add(width) {
            Some(dimension) => dimension,
            None => {
                return Err(SolverError::Evaluation(EvaluationError::DimensionMismatch));
            },
        };
        self.block_index.insert(id.raw, self.blocks.len());
        self.blocks.push(Block { id, offset: self.dimension, width });
        self.dimension = dimension;
        proof {
            let before = old(self).blocks@;
            assert(span(self.blocks@) == span(before) + width) by {
                reveal(span);
                assert(self.blocks@.drop_last() =~= before);
            }
            assert forall|i: int| 0 <= i < self.blocks@.len() implies (#[trigger] self.blocks@[i]).offset
                == span(self.blocks@.take(i)) by {
                if i < before.len() {
                    assert(self.blocks@[i] == before[i]);
                    assert(self.blocks@.take(i) =~= before.take(i));
                } else {
                    assert(self.blocks@.take(i) =~= before);
                }
            }
            assert forall|i: int| 0 <= i < self.blocks@.len() implies {
                &&& self.block_index@.contains_key((#[trigger] self.blocks@[i]).id.raw)
                &&& self.block_index@[self.blocks@[i].id.raw] == i
            } by {
                if i < before.len() {
                    assert(self.blocks@[i] == before[i]);
                }
            }
            assert forall|f: int| 0 <= f < self.factors@.len() implies {
                &&& (#[trigger] self.factors@[f]).start <= self.factors@[f].end
                &&& self.factors@[f].end <= self.dependencies@.len()
                &&& self.deps(f).no_duplicates()
            } by {
                assert(old(self).factors@[f].start <= old(self).factors@[f].end);
                assert(self.deps(f) == old(self).deps(f));
            }
        }
        Ok(())
    }

    /// Whether a factor over these variables can be planned.
    pub open spec fn accepts(&self, id: FactorId, variables: Seq<BlockId>) -> bool {
        all_known(self.block_index@, variables) && !self.factor_index@.contains_key(id.raw)
    }

    /// Plan a factor over the listed variables, each counted once.
    ///
    /// A variable without coordinates and a factor planned before are rejected.
    pub fn factor(&mut self, id: FactorId, variables: &[BlockId]) -> (planned: Result<
        (),
        SolverError,
    >)
        requires
            old(self).wf(),
        ensures
            final(self).wf(),
            final(self).dimension == old(self).dimension,
            final(self).blocks@ == old(self).blocks@,
            final(self).block_index@ == old(self).block_index@,
            planned == if old(self).accepts(id, variables@) {
                Ok::<(), SolverError>(())
            } else {
                Err(SolverError::Evaluation(EvaluationError::InvalidEmission))
            },
            planned is Ok ==> {
                let added = distinct_positions(
                    old(self).block_index@,
                    variables@,
                    variables@.len() as int,
                );
                &&& final(self).dependencies@ == old(self).dependencies@ + added
                &&& final(self).factors@ == old(self).factors@.push(
                    FactorPlan {
                        id,
                        start: old(self).dependencies@.len() as usize,
                        end: (old(self).dependencies@.len() + added.len()) as usize,
                    },
                )
                &&& final(self).factor_index@ == old(self).factor_index@.insert(
                    id.raw,
                    old(self).factors@.len() as usize,
                )
            },
            planned is Err ==> {
                &&& final(self).dependencies@ == old(self).dependencies@
                &&& final(self).factors@ == old(self).factors@
                &&& final(self).factor_index@ == old(self).factor_index@
            },
    {
        let start: usize = self.dependencies.len();
        let mut i: usize = 0;
        let mut known = true;
        while i < variables.len()
            invariant
                i <= variables@.len(),
                start == old(self).dependencies@.len(),
                self.dimension == old(self).dimension,
                self.blocks == old(self).blocks,
                self.block_index == old(self).block_index,
                self.factors == old(self).factors,
                self.factor_index == old(self).factor_index,
                self.dependencies@ == old(self).dependencies@ + distinct_positions(
                    self.block_index@,
                    variables@,
                    i as int,
                ),
                known <==> (forall|j: int|
                    0 <= j < i ==> self.block_index@.contains_key((#[trigger] variables@[j]).raw)),
            decreases variables@.len() - i,
        {
            let ghost added = distinct_positions(self.block_index@, variables@, i as int);
            match self.block_index.get(variables[i].raw) {
                Some(position) => {
                    let mut seen = false;
                    let mut d: usize = start;
                    while d < self.dependencies.len()
                        invariant
                            start <= d <= self.dependencies@.len(),
                            start == old(self).dependencies@.len(),
                            self.dependencies@ == old(self).dependencies@ + added,
                            seen <==> (exists|k: int|
                                0 <= k < d - start && #[trigger] added[k] == position),
                        decreases self.dependencies@.len() - d,
                    {
                        assert(self.dependencies@[d as int] == added[d - start]);
                        if self.dependencies[d] == position {
                            seen = true;
                        }
                        d += 1;
                    }
                    assert(seen <==> added.contains(position));
                    if !seen {
                        self.dependencies.push(position);
                        assert(self.dependencies@ =~= old(self).dependencies@ + added.push(
                            position,
                        ));
                    }
                },
                None => {
                    known = false;
                    assert(!self.block_index@.contains_key(variables@[i as int].raw));
                },
            }
            i += 1;
        }
        let ghost added = distinct_positions(self.block_index@, variables@, i as int);
        if !known || self.factor_index.get(id.raw).is_some() {
            self.dependencies.truncate(start);
            assert(self.dependencies@ =~= old(self).dependencies@);
            return Err(SolverError::Evaluation(EvaluationError::InvalidEmission));
        }
        self.factor_index.insert(id.raw, self.factors.len());
        self.factors.push(FactorPlan { id, start, end: self.dependencies.len() });
        proof {
            lemma_distinct_positions(self.block_index@, variables@, i as int);
            let count = old(self).factors@.len();
            assert forall|f: int| 0 <= f < self.factors@.len() implies {
                &&& (#[trigger] self.factors@[f]).start <= self.factors@[f].end
                &&& self.factors@[f].end <= self.dependencies@.len()
                &&& self.deps(f).no_duplicates()
            } by {
                if f < count {
                    assert(self.factors@[f] == old(self).factors@[f]);
                    assert(self.deps(f) =~= old(self).deps(f));
                } else {
                    assert(self.deps(f) =~= added);
                }
            }
            assert forall|d: int| 0 <= d < self.dependencies@.len() implies
                #[trigger] self.dependencies@[d] < self.blocks@.len() by {
                if d >= start {
                    assert(self.dependencies@[d] == added[d - start]);
                    let key = choose|key: RawKey|
                        self.block_index@.contains_key(key) && #[trigger] self.block_index@[key]
                            == added[d - start];
                    assert(self.block_index@.contains_key(key));
                } else {
                    assert(self.dependencies@[d] == old(self).dependencies@[d]);
                }
            }
            assert forall|f: int| 0 <= f < self.factors@.len() implies {
                &&& self.factor_index@.contains_key((#[trigger] self.factors@[f]).id.raw)
                &&& self.factor_index@[self.factors@[f].id.raw] == f
            } by {
                if f < count {
                    assert(self.factors@[f] == old(self).factors@[f]);
                }
            }
        }
        Ok(())
    }
}

/// Listed positions are distinct, and each is stored under some identity.
pub proof fn lemma_distinct_positions(index: Map<RawKey, usize>, variables: Seq<BlockId>, n: int)
    requires
        n <= variables.len(),
    ensures
        distinct_positions(index, variables, n).no_duplicates(),
        forall|d: int|
            0 <= d < distinct_positions(index, variables, n).len() ==> exists|key: RawKey|
                index.contains_key(key) && #[trigger] index[key]
                    == #[trigger] distinct_positions(index, variables, n)[d],
    decreases n,
{
    if n > 0 {
        lemma_distinct_positions(index, variables, n - 1);
        let before = distinct_positions(index, variables, n - 1);
        let now = distinct_positions(index, variables, n);
        let key = variables[n - 1].raw;
        assert forall|d: int| 0 <= d < now.len() implies exists|key: RawKey|
            index.contains_key(key) && #[trigger] index[key] == #[trigger] now[d] by {
            if d < before.len() {
                assert(now[d] == before[d]);
            } else {
                assert(index.contains_key(key) && index[key] == now[d]);
            }
        }
    }
}

proof fn lemma_span_monotone(blocks: Seq<Block>, i: int, j: int)
    requires
        0 <= i <= j <= blocks.len(),
    ensures
        span(blocks.take(i)) <= span(blocks.take(j)),
    decreases j - i,
{
    reveal(span);
    if i < j {
        lemma_span_monotone(blocks, i, j - 1);
        assert(blocks.take(j).drop_last() =~= blocks.take(j - 1));
    }
}

proof fn lemma_span_covers(blocks: Seq<Block>, coordinate: int)
    requires
        0 <= coordinate < span(blocks),
    ensures
        exists|i: int|
            0 <= i < blocks.len() && span(#[trigger] blocks.take(i)) <= coordinate < span(
                blocks.take(i),
            ) + blocks[i].width,
    decreases blocks.len(),
{
    reveal(span);
    let rest = blocks.drop_last();
    if coordinate < span(rest) {
        lemma_span_covers(rest, coordinate);
        let i = choose|i: int|
            0 <= i < rest.len() && span(#[trigger] rest.take(i)) <= coordinate < span(rest.take(i))
                + rest[i].width;
        assert(blocks.take(i) =~= rest.take(i));
    } else {
        assert(blocks.take(blocks.len() - 1) =~= rest);
    }
}

} // verus!
