//! A forest of complete binary trees stored level by level in one buffer.
use crate::common::shl_usize;
use vstd::arithmetic::power2::{lemma_pow2_pos, lemma_pow2_unfold, pow2};
use vstd::prelude::*;

verus! {

/// Number of nodes on level `d` of a forest of `tc` trees, which is also
/// the offset of the first node of that level when the levels are numbered
/// from `tc` on.
pub open spec fn level_start(tc: int, d: int) -> int {
    tc * pow2(d as nat)
}

/// Facts on consecutive levels.
pub proof fn lemma_level(tc: int, d: int)
    requires
        tc >= 0,
        d >= 0,
    ensures
        level_start(tc, d + 1) == 2 * level_start(tc, d),
        level_start(tc, d) >= tc,
        level_start(tc, d) >= 0,
        pow2(d as nat) >= 1,
{
    lemma_pow2_unfold((d + 1) as nat);
    lemma_pow2_pos(d as nat);
    let p = pow2(d as nat) as int;
    assert(tc * (2 * p) == 2 * (tc * p)) by (nonlinear_arith);
    assert(tc * p >= tc) by (nonlinear_arith)
        requires
            tc >= 0,
            p >= 1,
    ;
}

/// Levels grow with depth.
pub proof fn lemma_level_mono(tc: int, d1: int, d2: int)
    requires
        tc >= 0,
        0 <= d1 <= d2,
    ensures
        level_start(tc, d1) <= level_start(tc, d2),
    decreases d2 - d1,
{
    if d1 < d2 {
        lemma_level(tc, d2 - 1);
        lemma_level_mono(tc, d1, d2 - 1);
    }
}

/// A forest of complete binary trees of equal depth. Level `d` holds
/// `tree_cnt * 2^d` nodes; the children of node `i` on level `d` are the
/// nodes `2i` and `2i + 1` on level `d + 1`.
pub struct ArrayForest<T> {
    buf: Vec<T>,
    tree_depth: usize,
    tree_cnt: usize,
}

/// A position in an [`ArrayForest`]: a level and the offset of the node
/// counted from the start of the numbering (`tree_cnt` for the first node of
/// level 0).
#[derive(Debug, Clone, Copy)]
pub struct Cursor {
    depth: usize,
    max_depth: usize,
    offset: usize,
    tree_cnt: usize,
}

impl<T> ArrayForest<T> {
    /// The number of trees.
    pub closed spec fn trees(&self) -> int {
        self.tree_cnt as int
    }

    /// The number of levels of a tree.
    pub closed spec fn depth_count(&self) -> int {
        self.tree_depth as int
    }

    /// The index of the deepest level.
    pub open spec fn last_level(&self) -> int {
        self.depth_count() - 1
    }

    /// Whether `(d, i)` names a node.
    pub open spec fn valid(&self, d: int, i: int) -> bool {
        0 <= d < self.depth_count() && 0 <= i < level_start(self.trees(), d)
    }

    /// The node `i` on level `d`.
    pub closed spec fn node(&self, d: int, i: int) -> T {
        self.buf@[level_start(self.trees(), d) - self.trees() + i]
    }

    /// The structural invariant: at least one level, fewer levels than bits
    /// in a word, and a buffer of `tree_cnt << tree_depth` nodes.
    pub closed spec fn wf(&self) -> bool {
        &&& 1 <= self.tree_depth < usize::BITS
        &&& self.buf@.len() == level_start(self.tree_cnt as int, self.tree_depth as int)
        &&& self.buf@.len() <= usize::MAX
    }

    /// Two forests of the same shape whose nodes agree except where `keep`
    /// says otherwise.
    pub open spec fn same_shape(&self, other: &Self) -> bool {
        &&& self.trees() == other.trees()
        &&& self.depth_count() == other.depth_count()
    }

    /// The number of buffer slots needed for `tree_cnt` trees of
    /// `tree_depth` levels (an overestimate of the number of nodes).
    pub fn buf_layout(tree_cnt: usize, tree_depth: usize) -> (r: usize)
        requires
            tree_depth < usize::BITS,
            level_start(tree_cnt as int, tree_depth as int) <= usize::MAX,
        ensures
            r == level_start(tree_cnt as int, tree_depth as int),
    {
        shl_usize(tree_cnt, tree_depth)
    }

    /// Creates a forest of `tree_cnt` trees of `tree_depth` levels, every
    /// node holding `fill`.
    pub fn new(tree_cnt: usize, tree_depth: usize, fill: T) -> (r: Self) where T: Copy
        requires
            1 <= tree_depth < usize::BITS,
            level_start(tree_cnt as int, tree_depth as int) <= usize::MAX,
        ensures
            r.wf(),
            r.trees() == tree_cnt,
            r.depth_count() == tree_depth,
            forall|d: int, i: int| r.valid(d, i) ==> r.node(d, i) == fill,
    {
        let len = Self::buf_layout(tree_cnt, tree_depth);
        let mut buf: Vec<T> = Vec::new();
        let mut k: usize = 0;
        while k < len
            invariant
                k <= len,
                buf@.len() == k,
                forall|j: int| 0 <= j < k ==> buf@[j] == fill,
            decreases len - k,
        {
            buf.push(fill);
            k = k + 1;
        }
        let r = ArrayForest { buf, tree_cnt, tree_depth };
        proof {
            assert forall|d: int, i: int| r.valid(d, i) implies r.node(d, i) == fill by {
                r.lemma_index(d, i);
            }
        }
        r
    }

    /// Every level fits in the buffer, hence in a word.
    pub proof fn lemma_level_bound(&self, d: int)
        requires
            self.wf(),
            0 <= d < self.depth_count(),
        ensures
            level_start(self.trees(), d) <= level_start(self.trees(), d + 1) <= usize::MAX,
    {
        lemma_level(self.trees(), d);
        lemma_level_mono(self.trees(), d + 1, self.depth_count());
    }

    /// Counts are never negative.
    pub proof fn lemma_counts(&self)
        ensures
            self.trees() >= 0,
            self.depth_count() >= 0,
    {
    }

    /// A valid node lies within the buffer.
    proof fn lemma_index(&self, d: int, i: int)
        requires
            self.wf(),
            self.valid(d, i),
        ensures
            0 <= level_start(self.trees(), d) - self.trees() + i < self.buf@.len(),
            self.trees() >= 1,
            d <= self.last_level(),
    {
        lemma_level(self.trees(), d);
        lemma_level_mono(self.trees(), d + 1, self.depth_count());
        let p = pow2(d as nat) as int;
        let tc = self.trees();
        assert(tc == 0 ==> tc * p == 0) by (nonlinear_arith);
    }

    /// Returns the number of levels in a tree.
    pub fn tree_depth(&self) -> (r: usize)
        ensures
            r == self.depth_count(),
    {
        self.tree_depth
    }

    /// Returns the index of the deepest level.
    pub fn max_depth(&self) -> (r: usize)
        requires
            self.wf(),
        ensures
            r == self.last_level(),
    {
        self.tree_depth - 1
    }

    /// Returns the number of trees in the forest.
    pub fn tree_cnt(&self) -> (r: usize)
        ensures
            r == self.trees(),
    {
        self.tree_cnt
    }

    /// Offset of the first node of level `depth`.
    fn offset_start(&self, depth: usize) -> (r: usize)
        requires
            self.wf(),
            depth <= self.depth_count(),
        ensures
            r == level_start(self.trees(), depth as int),
    {
        proof {
            lemma_level_mono(self.trees(), depth as int, self.depth_count());
        }
        shl_usize(self.tree_cnt, depth)
    }

    /// Returns the nodes of level `depth`.
    pub fn slice(&self, depth: usize) -> (r: &[T])
        requires
            self.wf(),
            depth < self.depth_count(),
        ensures
            r@.len() == level_start(self.trees(), depth as int),
            forall|i: int| 0 <= i < r@.len() ==> r@[i] == self.node(depth as int, i),
    {
        proof {
            lemma_level(self.trees(), depth as int);
            lemma_level_mono(self.trees(), depth as int + 1, self.depth_count());
        }
        let start = self.offset_start(depth) - self.tree_cnt;
        let end = self.offset_start(depth + 1) - self.tree_cnt;
        let r = &self.buf.as_slice()[start..end];
        assert(r@ == self.buf@.subrange(start as int, end as int));
        r
    }

    /// Sets the nodes `start..end` of level `depth` to `value`.
    pub fn fill_level_range(&mut self, depth: usize, start: usize, end: usize, value: T) where T: Copy
        requires
            old(self).wf(),
            depth < old(self).depth_count(),
            start <= end <= level_start(old(self).trees(), depth as int),
        ensures
            final(self).wf(),
            final(self).same_shape(old(self)),
            forall|d: int, i: int|
                final(self).valid(d, i) ==> #[trigger] final(self).node(d, i) == if d == depth && start
                    <= i < end {
                    value
                } else {
                    old(self).node(d, i)
                },
    {
        proof {
            lemma_level(self.trees(), depth as int);
            lemma_level_mono(self.trees(), depth as int + 1, self.depth_count());
        }
        let base = self.offset_start(depth) - self.tree_cnt;
        let ghost old_buf = self.buf@;
        let mut k = start;
        while k < end
            invariant
                self.wf(),
                self.tree_cnt == old(self).tree_cnt,
                self.tree_depth == old(self).tree_depth,
                start <= k <= end,
                base == level_start(self.trees(), depth as int) - self.trees(),
                base + end <= self.buf@.len(),
                self.buf@.len() == old_buf.len(),
                forall|j: int|
                    0 <= j < self.buf@.len() ==> #[trigger] self.buf@[j] == if base + start <= j < base
                        + k {
                        value
                    } else {
                        old_buf[j]
                    },
            decreases end - k,
        {
            self.buf[base + k] = value;
            k = k + 1;
        }
        proof {
            assert forall|d: int, i: int| self.valid(d, i) implies #[trigger] self.node(d, i) == if d
                == depth && start <= i < end {
                value
            } else {
                old(self).node(d, i)
            } by {
                self.lemma_index(d, i);
                if d != depth {
                    self.lemma_level_disjoint(d, i, depth as int);
                }
            }
        }
    }

    /// Nodes of different levels occupy different buffer slots.
    proof fn lemma_level_disjoint(&self, d: int, i: int, e: int)
        requires
            self.wf(),
            self.valid(d, i),
            0 <= e < self.depth_count(),
            d != e,
        ensures
            level_start(self.trees(), d) - self.trees() + i < level_start(self.trees(), e)
                - self.trees() || level_start(self.trees(), d) - self.trees() + i >= level_start(
                self.trees(),
                e + 1,
            ) - self.trees(),
    {
        lemma_level(self.trees(), d);
        if d < e {
            lemma_level_mono(self.trees(), d + 1, e);
        } else {
            lemma_level_mono(self.trees(), e + 1, d);
        }
    }

    /// Creates a cursor at node `idx` of level `depth`.
    pub fn cursor(&self, depth: usize, idx: usize) -> (r: Cursor)
        requires
            self.wf(),
            self.valid(depth as int, idx as int),
        ensures
            r.fits(self),
            r.pos() == (depth as int, idx as int),
    {
        proof {
            self.lemma_index(depth as int, idx as int);
            lemma_level(self.trees(), depth as int);
            lemma_level_mono(self.trees(), depth as int + 1, self.depth_count());
        }
        let offset_start = self.offset_start(depth);
        let offset = offset_start + idx;
        Cursor { depth, max_depth: self.max_depth(), offset, tree_cnt: self.tree_cnt }
    }
}

impl Cursor {
    /// The raw fields of the cursor: depth, deepest level, offset and number
    /// of trees.
    pub closed spec fn fields(self) -> (usize, usize, usize, usize) {
        (self.depth, self.max_depth, self.offset, self.tree_cnt)
    }

    /// A cursor is determined by its fields.
    pub proof fn lemma_fields(self, other: Self)
        requires
            self.fields() == other.fields(),
        ensures
            self == other,
    {
    }

    /// The level and the index within the level of the node under the
    /// cursor.
    pub closed spec fn pos(self) -> (int, int) {
        (self.depth as int, self.offset - level_start(self.tree_cnt as int, self.depth as int))
    }

    /// The cursor is a valid position of `forest`.
    pub closed spec fn fits<T>(self, forest: &ArrayForest<T>) -> bool {
        &&& forest.wf()
        &&& self.tree_cnt == forest.tree_cnt
        &&& self.max_depth + 1 == forest.tree_depth
        &&& forest.valid(self.pos().0, self.pos().1)
        &&& self.offset >= level_start(self.tree_cnt as int, self.depth as int)
    }

    /// A cursor names a node of its forest.
    pub proof fn lemma_fits<T>(self, forest: &ArrayForest<T>)
        requires
            self.fits(forest),
        ensures
            forest.wf(),
            forest.valid(self.pos().0, self.pos().1),
            0 <= self.pos().0 <= forest.last_level(),
    {
    }

    /// The same position of a forest of the same shape.
    pub proof fn lemma_fits_same_shape<T>(self, f1: &ArrayForest<T>, f2: &ArrayForest<T>)
        requires
            self.fits(f1),
            f2.wf(),
            f2.same_shape(f1),
        ensures
            self.fits(f2),
    {
    }

    /// Move cursor to the left child. Returns true if successful, false if
    /// cursor is at the last level.
    pub fn left<T>(&mut self, Ghost(forest): Ghost<&ArrayForest<T>>) -> (r: bool)
        requires
            old(self).fits(forest),
        ensures
            final(self).fits(forest),
            r == (old(self).pos().0 < forest.last_level()),
            r ==> final(self).pos() == (old(self).pos().0 + 1, 2 * old(self).pos().1),
            !r ==> *final(self) == *old(self),
    {
        self.down::<T>(0, Ghost(forest))
    }

    /// Move cursor to the right child. Returns true if successful, false if
    /// cursor is at the last level.
    pub fn right<T>(&mut self, Ghost(forest): Ghost<&ArrayForest<T>>) -> (r: bool)
        requires
            old(self).fits(forest),
        ensures
            final(self).fits(forest),
            r == (old(self).pos().0 < forest.last_level()),
            r ==> final(self).pos() == (old(self).pos().0 + 1, 2 * old(self).pos().1 + 1),
            !r ==> *final(self) == *old(self),
    {
        self.down::<T>(1, Ghost(forest))
    }

    /// Move cursor down to child `child_idx`. Returns true if successful,
    /// false if cursor is at the last level.
    fn down<T>(&mut self, child_idx: usize, Ghost(forest): Ghost<&ArrayForest<T>>) -> (r: bool)
        requires
            old(self).fits(forest),
            child_idx < 2,
        ensures
            final(self).fits(forest),
            r == (old(self).pos().0 < forest.last_level()),
            r ==> final(self).pos() == (old(self).pos().0 + 1, 2 * old(self).pos().1 + child_idx),
            !r ==> *final(self) == *old(self),
    {
        if self.depth == self.max_depth {
            return false;
        }
        proof {
            let tc = self.tree_cnt as int;
            let d = self.depth as int;
            lemma_level(tc, d);
            lemma_level(tc, d + 1);
            lemma_level_mono(tc, d + 2, forest.depth_count());
            forest.lemma_index(d, self.pos().1);
        }
        self.depth = self.depth + 1;
        self.offset = self.offset * 2 + child_idx;
        true
    }

    /// Move cursor up. Returns true if successful, false if cursor is at the
    /// first level.
    pub fn up<T>(&mut self, Ghost(forest): Ghost<&ArrayForest<T>>) -> (r: bool)
        requires
            old(self).fits(forest),
        ensures
            final(self).fits(forest),
            r == (old(self).pos().0 > 0),
            r ==> final(self).pos() == (old(self).pos().0 - 1, old(self).pos().1 / 2),
            !r ==> *final(self) == *old(self),
    {
        if self.depth == 0 {
            return false;
        }
        proof {
            let tc = self.tree_cnt as int;
            let d = self.depth as int;
            lemma_level(tc, d - 1);
            let i = self.pos().1;
            assert((2 * level_start(tc, d - 1) + i) / 2 == level_start(tc, d - 1) + i / 2);
        }
        self.depth = self.depth - 1;
        self.offset = self.offset / 2;
        true
    }

    /// Move cursor to the sibling of current node in a binary tree. Returns
    /// true if successful, false if cursor is at a root node.
    pub fn sibling<T>(&mut self, Ghost(forest): Ghost<&ArrayForest<T>>) -> (r: bool)
        requires
            old(self).fits(forest),
        ensures
            final(self).fits(forest),
            r == (old(self).pos().0 > 0),
            r ==> final(self).pos() == (
                old(self).pos().0,
                if old(self).pos().1 % 2 == 0 {
                    old(self).pos().1 + 1
                } else {
                    old(self).pos().1 - 1
                },
            ),
            !r ==> *final(self) == *old(self),
    {
        if self.depth == 0 {
            false
        } else {
            proof {
                let tc = self.tree_cnt as int;
                let d = self.depth as int;
                lemma_level(tc, d - 1);
                let o = self.offset;
                assert(o % 2 == 0 ==> (o ^ 1) == o + 1) by (bit_vector);
                assert(o % 2 == 1 ==> (o ^ 1) == o - 1) by (bit_vector);
            }
            self.offset = self.offset ^ 1;
            true
        }
    }

    /// Get immutable reference at cursor.
    pub fn get<'a, T>(&self, forest: &'a ArrayForest<T>) -> (r: &'a T)
        requires
            self.fits(forest),
        ensures
            *r == forest.node(self.pos().0, self.pos().1),
    {
        proof {
            forest.lemma_index(self.pos().0, self.pos().1);
        }
        let idx = self.offset - forest.tree_cnt;
        &forest.buf[idx]
    }

    /// Set the node at cursor to `value`.
    pub fn set<T>(&self, forest: &mut ArrayForest<T>, value: T)
        requires
            self.fits(old(forest)),
        ensures
            final(forest).wf(),
            final(forest).same_shape(old(forest)),
            forall|d: int, i: int|
                final(forest).valid(d, i) ==> #[trigger] final(forest).node(d, i) == if (d, i)
                    == self.pos() {
                    value
                } else {
                    old(forest).node(d, i)
                },
    {
        proof {
            old(forest).lemma_index(self.pos().0, self.pos().1);
        }
        let idx = self.offset - forest.tree_cnt;
        forest.buf[idx] = value;
        proof {
            assert forall|d: int, i: int| forest.valid(d, i) implies #[trigger] forest.node(d, i)
                == if (d, i) == self.pos() {
                value
            } else {
                old(forest).node(d, i)
            } by {
                forest.lemma_index(d, i);
                lemma_level(self.tree_cnt as int, self.pos().0);
                if d != self.pos().0 {
                    forest.lemma_level_disjoint(d, i, self.pos().0);
                }
            }
        }
    }

    /// Get the depth of the cursor.
    pub fn depth(&self) -> (r: usize)
        ensures
            r == self.pos().0,
    {
        self.depth
    }

    /// Get max depth of the cursor.
    pub fn max_depth<T>(&self, Ghost(forest): Ghost<&ArrayForest<T>>) -> (r: usize)
        requires
            self.fits(forest),
        ensures
            r == forest.last_level(),
    {
        self.max_depth
    }

    /// Get the index, within its level, of the node under the cursor.
    pub fn idx<T>(&self, Ghost(forest): Ghost<&ArrayForest<T>>) -> (r: usize)
        requires
            self.fits(forest),
        ensures
            r == self.pos().1,
    {
        proof {
            lemma_level_mono(self.tree_cnt as int, self.depth as int, forest.depth_count());
        }
        let start = shl_usize(self.tree_cnt, self.depth);
        self.offset - start
    }
}

} // verus!
