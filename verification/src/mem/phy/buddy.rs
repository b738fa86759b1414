//! A buddy system over a forest of binary trees of frame blocks.
use crate::common::array_forest::{lemma_level, lemma_level_mono, level_start, ArrayForest, Cursor};
use crate::common::shl_usize;
use arrayvec::ArrayVec;
use vstd::arithmetic::power2::{lemma_pow2_pos, lemma_pow2_unfold, pow2};
use vstd::prelude::*;

verus! {

/// The largest order of a block managed by a [`BuddySystem`].
pub const BUDDY_MAX_ORDER: u8 = 18;

/// The size in bytes of a block of order 0 (one small page).
pub const BUDDY_MIN_BLOCK_SIZE: usize = 4096;

/// The state of a block: reserved, or free with the largest order of a
/// free block in it.
#[derive(Debug, Clone, Copy, PartialEq, Eq, Structural)]
pub struct Buddy(u8);

impl Buddy {
    /// The raw encoding: 0 for reserved, `order + 1` for free.
    pub closed spec fn raw(self) -> u8 {
        self.0
    }

    /// Creates a free buddy.
    pub fn free(order: u8) -> (r: Self)
        requires
            order < u8::MAX,
        ensures
            r.raw() == order + 1,
    {
        Buddy(order + 1)
    }

    /// Creates a reserved buddy.
    pub fn reserved() -> (r: Self)
        ensures
            r.raw() == 0,
    {
        Buddy(0)
    }

    /// Returns true if the buddy is free.
    pub fn is_free(self) -> (r: bool)
        ensures
            r == (self.raw() != 0),
    {
        !self.is_reserved()
    }

    /// Returns true if the buddy is reserved.
    pub fn is_reserved(self) -> (r: bool)
        ensures
            r == (self.raw() == 0),
    {
        self.0 == 0
    }

    /// Returns the order of a free buddy, or `u8::MAX` if it is reserved.
    pub fn order(&self) -> (r: u8)
        ensures
            r == if self.raw() == 0 {
                u8::MAX as int
            } else {
                self.raw() - 1
            },
    {
        if self.0 == 0 {
            u8::MAX
        } else {
            self.0 - 1
        }
    }
}

/// The cursors held by the search stack of [`BuddySystem::reserve`], as
/// their raw fields, bottom first.
pub uninterp spec fn stack_items(v: ArrayVec<Cursor, 18>) -> Seq<(usize, usize, usize, usize)>;

/// `ArrayVec::new`: an empty vector.
#[verifier::external_body]
fn stack_new() -> (r: ArrayVec<Cursor, 18>)
    ensures
        stack_items(r) == Seq::<(usize, usize, usize, usize)>::empty(),
{
    ArrayVec::new()
}

/// `ArrayVec::push`: appends `c`; it panics when the vector is full, which
/// the precondition rules out.
#[verifier::external_body]
fn stack_push(v: &mut ArrayVec<Cursor, 18>, c: Cursor)
    requires
        stack_items(*old(v)).len() < 18,
    ensures
        stack_items(*final(v)) == stack_items(*old(v)).push(c.fields()),
{
    v.push(c)
}

/// `ArrayVec::pop`: removes and returns the last item, or `None` if empty.
#[verifier::external_body]
fn stack_pop(v: &mut ArrayVec<Cursor, 18>) -> (r: Option<Cursor>)
    ensures
        stack_items(*old(v)).len() == 0 ==> r.is_none() && stack_items(*final(v)) == stack_items(
            *old(v),
        ),
        stack_items(*old(v)).len() > 0 ==> r.is_some() && r.unwrap().fields() == stack_items(
            *old(v),
        ).last() && stack_items(*final(v)) == stack_items(*old(v)).drop_last(),
{
    v.pop()
}

/// The index at level `d` of the ancestor (or self, when `d >= t`) of node
/// `x` of level `t`.
pub open spec fn anc_at(t: int, x: int, d: int) -> int
    decreases t - d,
{
    if d >= t {
        x
    } else {
        anc_at(t - 1, x / 2, d)
    }
}

/// `(d, j)` is node `(t, x)` or one of its ancestors.
pub open spec fn is_anc(d: int, j: int, t: int, x: int) -> bool {
    0 <= d <= t && j == anc_at(t, x, d)
}

/// The ancestor one level up is the parent of the ancestor.
pub proof fn lemma_anc_step(t: int, x: int, d: int)
    requires
        d < t,
    ensures
        anc_at(t, x, d) == anc_at(t, x, d + 1) / 2,
    decreases t - d,
{
    assert(anc_at(t, x, d) == anc_at(t - 1, x / 2, d));
    if d + 1 < t {
        lemma_anc_step(t - 1, x / 2, d);
        assert(anc_at(t, x, d + 1) == anc_at(t - 1, x / 2, d + 1));
    } else {
        assert(anc_at(t - 1, x / 2, d) == x / 2);
    }
}

/// A buddy system managing blocks of `2^order` frames, for `order` up to
/// its maximum order.
pub struct BuddySystem {
    map: ArrayForest<Buddy>,
    max_order: u8,
}

impl BuddySystem {
    /// The raw state of node `i` on level `d` (level 0 holds the blocks of
    /// the maximum order).
    pub closed spec fn value(&self, d: int, i: int) -> int {
        self.map.node(d, i).raw() as int
    }

    /// Whether `(d, i)` names a node.
    pub closed spec fn valid(&self, d: int, i: int) -> bool {
        self.map.valid(d, i)
    }

    /// The deepest level, which is also the maximum order.
    pub closed spec fn top(&self) -> int {
        self.max_order as int
    }

    /// The number of blocks of the maximum order.
    pub closed spec fn roots(&self) -> int {
        self.map.trees()
    }

    /// The order of the blocks of level `d`.
    pub open spec fn ord(&self, d: int) -> int {
        self.top() - d
    }

    /// Node `(d, i)` is reserved.
    pub open spec fn reserved_at(&self, d: int, i: int) -> bool {
        self.value(d, i) == 0
    }

    /// The whole block of node `(d, i)` is free.
    pub open spec fn whole_free(&self, d: int, i: int) -> bool {
        self.value(d, i) == self.ord(d) + 1
    }

    /// The larger state of the two children of `(d, i)`.
    pub open spec fn child_max(&self, d: int, i: int) -> int {
        if self.value(d + 1, 2 * i) >= self.value(d + 1, 2 * i + 1) {
            self.value(d + 1, 2 * i)
        } else {
            self.value(d + 1, 2 * i + 1)
        }
    }

    /// The relation between an inner node and its children: it records the
    /// larger of their states, or it is free or reserved as a whole while
    /// both children are wholly free.
    pub open spec fn local_ok(&self, d: int, i: int) -> bool {
        ||| self.value(d, i) == self.child_max(d, i)
        ||| (self.value(d, i) == 0 || self.whole_free(d, i)) && self.whole_free(d + 1, 2 * i)
            && self.whole_free(d + 1, 2 * i + 1)
    }

    /// No node records an order above its own.
    pub open spec fn bounded(&self) -> bool {
        forall|d: int, i: int| self.valid(d, i) ==> 0 <= #[trigger] self.value(d, i) <= self.ord(d) + 1
    }

    /// Every inner node but `(pd, pi)` relates properly to its children.
    pub open spec fn locally_ok_except(&self, pd: int, pi: int) -> bool {
        forall|d: int, i: int|
            self.valid(d, i) && d < self.top() && (d, i) != (pd, pi) ==> #[trigger] self.local_ok(d, i)
    }

    /// The shape of the forest matches the maximum order.
    pub closed spec fn shape_ok(&self) -> bool {
        &&& self.map.wf()
        &&& self.map.depth_count() == self.max_order + 1
        &&& self.max_order <= BUDDY_MAX_ORDER
    }

    /// The invariant of the buddy system.
    pub open spec fn wf(&self) -> bool {
        &&& self.shape_ok()
        &&& self.bounded()
        &&& self.locally_ok_except(-1, -1)
    }

    /// Every ancestor of `(d, i)` is unreserved.
    pub open spec fn reachable(&self, d: int, i: int) -> bool
        decreases d,
    {
        if d <= 0 {
            true
        } else {
            self.value(d - 1, i / 2) != 0 && self.reachable(d - 1, i / 2)
        }
    }

    /// Node `(d, i)` can be handed out: it is wholly free and no ancestor is
    /// reserved.
    pub open spec fn available(&self, d: int, i: int) -> bool {
        self.valid(d, i) && self.whole_free(d, i) && self.reachable(d, i)
    }

    /// Node `(d, i)` was handed out: it is reserved while its block is free
    /// underneath.
    pub open spec fn allocated(&self, d: int, i: int) -> bool {
        &&& self.valid(d, i)
        &&& self.reserved_at(d, i)
        &&& d < self.top() ==> self.whole_free(d + 1, 2 * i) && self.whole_free(d + 1, 2 * i + 1)
    }

    /// Two buddy systems agree on every node except the ancestors of
    /// `(t, x)` (and `(t, x)` itself when `self_too`).
    pub open spec fn agrees_except(&self, other: &Self, t: int, x: int, self_too: bool) -> bool {
        forall|d: int, j: int|
            self.valid(d, j) && !(is_anc(d, j, t, x) && (self_too || d < t)) ==> #[trigger] self.value(
                d,
                j,
            ) == other.value(d, j)
    }

    /// Same shape, same maximum order.
    pub open spec fn same_shape(&self, other: &Self) -> bool {
        &&& self.top() == other.top()
        &&& self.roots() == other.roots()
        &&& forall|d: int, i: int| self.valid(d, i) == other.valid(d, i)
    }
}

} // verus!

verus! {

impl BuddySystem {
    /// Returns the maximum order of a block.
    pub fn max_order(&self) -> (r: u8)
        ensures
            r == self.top(),
    {
        self.max_order
    }

    fn depth_to_order(&self, depth: usize) -> (r: u8)
        requires
            self.shape_ok(),
            depth <= self.top(),
        ensures
            r == self.ord(depth as int),
    {
        (self.map.max_depth() - depth) as u8
    }

    fn order_to_depth(&self, order: u8) -> (r: usize)
        requires
            self.shape_ok(),
            order <= self.top(),
        ensures
            r == self.top() - order,
    {
        self.map.max_depth() - order as usize
    }

    /// The node under the cursor is a node of the system.
    proof fn lemma_cursor_valid(&self, c: Cursor)
        requires
            self.shape_ok(),
            c.fits(&self.map),
        ensures
            self.valid(c.pos().0, c.pos().1),
            0 <= c.pos().0 <= self.top(),
    {
        c.lemma_fits(&self.map);
    }

    /// Recomputes the ancestors of the node under `cursor`, from the bottom
    /// up, as the larger state of their children, stopping at the first
    /// ancestor that already holds it.
    fn fixup_map(&mut self, cursor: &mut Cursor)
        requires
            old(self).shape_ok(),
            old(self).bounded(),
            old(cursor).fits(&old(self).map),
            old(self).locally_ok_except(old(cursor).pos().0 - 1, old(cursor).pos().1 / 2),
        ensures
            final(self).wf(),
            final(self).same_shape(old(self)),
            final(self).agrees_except(old(self), old(cursor).pos().0, old(cursor).pos().1, false),
    {
        let ghost sd = cursor.pos().0;
        let ghost si = cursor.pos().1;
        proof {
            self.lemma_cursor_valid(*cursor);
        }
        while cursor.depth() != 0
            invariant
                self.shape_ok(),
                self.bounded(),
                self.same_shape(old(self)),
                cursor.fits(&self.map),
                is_anc(cursor.pos().0, cursor.pos().1, sd, si),
                self.locally_ok_except(cursor.pos().0 - 1, cursor.pos().1 / 2),
                self.agrees_except(old(self), sd, si, false),
                sd == old(cursor).pos().0,
                si == old(cursor).pos().1,
            decreases cursor.pos().0,
        {
            let ghost d = cursor.pos().0;
            let ghost i = cursor.pos().1;
            let ghost p = i / 2;
            proof {
                self.lemma_cursor_valid(*cursor);
            }
            let me = *cursor.get(&self.map);
            cursor.sibling::<Buddy>(Ghost(&self.map));
            proof {
                self.lemma_cursor_valid(*cursor);
            }
            let sib = *cursor.get(&self.map);
            let par = if me.0 >= sib.0 {
                me
            } else {
                sib
            };
            cursor.up::<Buddy>(Ghost(&self.map));
            proof {
                lemma_anc_step(sd, si, d - 1);
                assert(cursor.pos() == (d - 1, p));
                if i % 2 == 0 {
                    assert(i == 2 * p);
                } else {
                    assert(i == 2 * p + 1);
                }
                assert(par.raw() == self.child_max(d - 1, p));
                assert(self.valid(d, i));
                assert(0 <= self.value(d, i) <= self.ord(d) + 1);
                let si2 = if i % 2 == 0 { i + 1 } else { i - 1 };
                assert(0 <= self.value(d, si2) <= self.ord(d) + 1);
                assert(0 <= par.raw() <= self.ord(d - 1) + 1);
                self.map.lemma_counts();
            }
            let cur = *cursor.get(&self.map);
            if cur.0 == par.0 {
                proof {
                    assert(self.local_ok(d - 1, p));
                    assert(self.agrees_except(old(self), sd, si, false));
                }
                return ;
            }
            let ghost before = *self;
            cursor.set(&mut self.map, par);
            proof {
                cursor.lemma_fits_same_shape(&before.map, &self.map);
                assert(self.same_shape(&before));
                assert forall|e: int, j: int| self.valid(e, j) implies 0 <= #[trigger] self.value(e, j)
                    <= self.ord(e) + 1 by {
                    assert(before.valid(e, j));
                    if (e, j) != (d - 1, p) {
                        assert(self.value(e, j) == before.value(e, j));
                    }
                }
                assert forall|e: int, j: int|
                    self.valid(e, j) && e < self.top() && (e, j) != (d - 2, p / 2) implies #[trigger] self.local_ok(
                    e,
                    j,
                ) by {
                    assert(before.valid(e, j));
                    assert(self.valid(e + 1, 2 * j) && before.valid(e + 1, 2 * j) && self.valid(
                        e + 1,
                        2 * j + 1,
                    ) && before.valid(e + 1, 2 * j + 1)) by {
                        lemma_level(self.roots(), e);
                    }
                    if (e, j) != (d - 1, p) {
                        assert(before.local_ok(e, j));
                        assert(self.value(e, j) == before.value(e, j));
                        if (e + 1, 2 * j) == (d - 1, p) || (e + 1, 2 * j + 1) == (d - 1, p) {
                            assert(e == d - 2 && j == p / 2);
                        }
                        assert(self.value(e + 1, 2 * j) == before.value(e + 1, 2 * j));
                        assert(self.value(e + 1, 2 * j + 1) == before.value(e + 1, 2 * j + 1));
                    } else {
                        assert(self.value(e + 1, 2 * j) == before.value(e + 1, 2 * j));
                        assert(self.value(e + 1, 2 * j + 1) == before.value(e + 1, 2 * j + 1));
                    }
                }
                assert forall|e: int, j: int|
                    self.valid(e, j) && !(is_anc(e, j, sd, si) && e < sd) implies #[trigger] self.value(
                    e,
                    j,
                ) == old(self).value(e, j) by {
                    assert(before.valid(e, j));
                    assert(before.value(e, j) == old(self).value(e, j));
                }
            }
        }
        proof {
            assert forall|e: int, j: int| self.valid(e, j) && e < self.top() && (e, j) != (-1int, -1int) implies #[trigger] self.local_ok(e, j) by {
                assert((e, j) != (cursor.pos().0 - 1, cursor.pos().1 / 2));
            }
        }
    }

    /// Free a reserved block of `2^order` frames starting at frame `idx`.
    pub fn free(&mut self, idx: usize, order: u8)
        requires
            old(self).wf(),
            order <= old(self).top(),
            old(self).allocated(old(self).top() - order, idx as int / pow2(order as nat) as int),
        ensures
            final(self).wf(),
            final(self).same_shape(old(self)),
            final(self).whole_free(old(self).top() - order, idx as int / pow2(order as nat) as int),
            final(self).agrees_except(
                old(self),
                old(self).top() - order,
                idx as int / pow2(order as nat) as int,
                true,
            ),
    {
        let depth = self.order_to_depth(order);
        proof {
            vstd::bits::lemma_usize_shr_is_div(idx, order as usize);
        }
        let idx = idx >> order as usize;
        let mut cursor = self.map.cursor(depth, idx);
        let ghost before = *self;
        cursor.set(&mut self.map, Buddy::free(order));
        proof {
            let t = depth as int;
            let x = idx as int;
            assert(cursor.pos() == (t, x));
            self.map.lemma_counts();
            assert forall|e: int, j: int| self.valid(e, j) implies 0 <= #[trigger] self.value(e, j)
                <= self.ord(e) + 1 by {
                assert(before.valid(e, j));
                if (e, j) != (t, x) {
                    assert(self.value(e, j) == before.value(e, j));
                }
            }
            assert forall|e: int, j: int|
                self.valid(e, j) && e < self.top() && (e, j) != (t - 1, x / 2) implies #[trigger] self.local_ok(
                e,
                j,
            ) by {
                assert(before.valid(e, j));
                assert(self.valid(e + 1, 2 * j) && before.valid(e + 1, 2 * j) && self.valid(
                    e + 1,
                    2 * j + 1,
                ) && before.valid(e + 1, 2 * j + 1)) by {
                    lemma_level(self.roots(), e);
                }
                if (e + 1, 2 * j) == (t, x) || (e + 1, 2 * j + 1) == (t, x) {
                    assert(e == t - 1 && j == x / 2);
                }
                assert(self.value(e + 1, 2 * j) == before.value(e + 1, 2 * j));
                assert(self.value(e + 1, 2 * j + 1) == before.value(e + 1, 2 * j + 1));
                if (e, j) != (t, x) {
                    assert(before.local_ok(e, j));
                    assert(self.value(e, j) == before.value(e, j));
                }
            }
        }
        proof {
            cursor.lemma_fits_same_shape(&before.map, &self.map);
        }
        self.fixup_map(&mut cursor);
    }
}

} // verus!

verus! {

/// The ancestor at level `t` of node `j` of level `d` is `j / 2^(d - t)`.
pub proof fn lemma_anc_div(d: int, j: int, t: int)
    requires
        0 <= t <= d,
        j >= 0,
    ensures
        anc_at(d, j, t) == j / pow2((d - t) as nat) as int,
    decreases d - t,
{
    if d == t {
        assert(pow2(0) == 1) by {
            vstd::arithmetic::power2::lemma2_to64();
        }
        assert(anc_at(d, j, t) == j);
        assert(j / 1 == j);
    } else {
        lemma_anc_div(d - 1, j / 2, t);
        assert(anc_at(d, j, t) == anc_at(d - 1, j / 2, t));
        lemma_pow2_unfold((d - t) as nat);
        lemma_pow2_pos((d - t - 1) as nat);
        vstd::arithmetic::div_mod::lemma_div_denominator(j, 2, pow2((d - t - 1) as nat) as int);
        assert(j / 2 / pow2((d - t - 1) as nat) as int == j / pow2((d - t) as nat) as int);
        assert(anc_at(d, j, t) == j / pow2((d - t) as nat) as int);
    }
}

/// `j / k == x` exactly when `j` lies in `x * k .. (x + 1) * k`.
pub proof fn lemma_div_range(j: int, k: int, x: int)
    requires
        j >= 0,
        k > 0,
    ensures
        j / k == x <==> x * k <= j < (x + 1) * k,
{
    vstd::arithmetic::div_mod::lemma_fundamental_div_mod(j, k);
    let q = j / k;
    let r = j % k;
    assert(0 <= r < k) by {
        vstd::arithmetic::div_mod::lemma_mod_bound(j, k);
    }
    assert(j == k * q + r);
    if q == x {
        assert(x * k <= j < (x + 1) * k) by (nonlinear_arith)
            requires
                j == k * q + r,
                0 <= r < k,
                q == x,
        ;
    }
    if x * k <= j < (x + 1) * k {
        assert(q == x) by (nonlinear_arith)
            requires
                j == k * q + r,
                0 <= r < k,
                x * k <= j < (x + 1) * k,
                k > 0,
        ;
    }
}

impl BuddySystem {
    /// Creates a buddy system that manages `page_cnt` frames, all reserved.
    /// The maximum order is the smallest order whose block holds all frames,
    /// capped at [`BUDDY_MAX_ORDER`], and there are as many blocks of the
    /// maximum order as needed to cover the frames.
    pub fn new(page_cnt: usize) -> (r: Self)
        requires
            4 * page_cnt + 0x8_0000 <= usize::MAX,
        ensures
            r.wf(),
            r.top() == BUDDY_MAX_ORDER || page_cnt <= pow2(r.top() as nat),
            r.top() == 0 || page_cnt > pow2((r.top() - 1) as nat),
            r.roots() == (page_cnt + pow2(r.top() as nat) - 1) / pow2(r.top() as nat) as int,
            forall|d: int, i: int| r.valid(d, i) ==> r.reserved_at(d, i),
    {
        let mut max_order: u8 = 0;
        let mut size: usize = 1;
        proof {
            vstd::arithmetic::power2::lemma2_to64();
        }
        while max_order < BUDDY_MAX_ORDER && size < page_cnt
            invariant
                max_order <= BUDDY_MAX_ORDER,
                size == pow2(max_order as nat),
                max_order == 0 || page_cnt > pow2((max_order - 1) as nat),
                size <= 0x4_0000,
            decreases BUDDY_MAX_ORDER - max_order,
        {
            proof {
                lemma_pow2_unfold((max_order + 1) as nat);
                vstd::arithmetic::power2::lemma2_to64();
                if max_order < 18 {
                    vstd::arithmetic::power2::lemma_pow2_strictly_increases(max_order as nat, 18);
                }
            }
            size = size * 2;
            max_order = max_order + 1;
        }
        let tree_depth = max_order as usize + 1;
        let tree_cnt = (page_cnt + (size - 1)) / size;
        proof {
            lemma_pow2_unfold(tree_depth as nat);
            let tc = tree_cnt as int;
            let pc = page_cnt as int;
            let sz = size as int;
            assert(tc * sz <= pc + sz - 1) by (nonlinear_arith)
                requires
                    tc == (pc + sz - 1) / sz,
                    sz > 0,
                    pc >= 0,
            ;
            if max_order > 0 {
                lemma_pow2_unfold(max_order as nat);
            }
            assert(level_start(tc, tree_depth as int) == tc * (2 * sz));
            assert(tc * (2 * sz) == 2 * (tc * sz)) by (nonlinear_arith);
            if max_order < BUDDY_MAX_ORDER {
                assert(pc <= sz);
                assert(tc <= 1) by (nonlinear_arith)
                    requires
                        tc * sz <= pc + sz - 1,
                        pc <= sz,
                        sz > 0,
                ;
                assert(tc * sz <= sz) by (nonlinear_arith)
                    requires
                        tc <= 1,
                        tc >= 0,
                        sz > 0,
                ;
            }
        }
        let map = ArrayForest::new(tree_cnt, tree_depth, Buddy::reserved());
        let r = BuddySystem { map, max_order };
        proof {
            assert forall|d: int, i: int| r.valid(d, i) && d < r.top() implies #[trigger] r.local_ok(d, i) by {
                assert(r.valid(d + 1, 2 * i) && r.valid(d + 1, 2 * i + 1)) by {
                    r.map.lemma_counts();
                    lemma_level(r.roots(), d);
                }
            }
        }
        r
    }
}

} // verus!

verus! {

impl BuddySystem {
    /// Node `(d, j)` lies in the subtree of node `(t, x)`.
    pub open spec fn in_subtree(d: int, j: int, t: int, x: int) -> bool {
        is_anc(t, x, d, j)
    }

    /// Mark the block of `2^order` frames starting at frame `idx` as free
    /// regardless of whether it was reserved: every node of its subtree
    /// becomes wholly free, and its ancestors are recomputed.
    ///
    /// This is used in initialization when transfering over from the boot
    /// memory manager.
    pub fn free_forced(&mut self, idx: usize, order: u8)
        requires
            old(self).wf(),
            order <= old(self).top(),
            idx as int % pow2(order as nat) as int == 0,
            old(self).valid(old(self).top() - order, idx as int / pow2(order as nat) as int),
        ensures
            final(self).wf(),
            final(self).same_shape(old(self)),
            forall|d: int, j: int|
                final(self).valid(d, j) && Self::in_subtree(
                    d,
                    j,
                    old(self).top() - order,
                    idx as int / pow2(order as nat) as int,
                ) ==> #[trigger] final(self).whole_free(d, j),
            forall|d: int, j: int|
                final(self).valid(d, j) && !Self::in_subtree(
                    d,
                    j,
                    old(self).top() - order,
                    idx as int / pow2(order as nat) as int,
                ) && !(is_anc(d, j, old(self).top() - order, idx as int / pow2(order as nat) as int)
                    && d < old(self).top() - order) ==> #[trigger] final(self).value(d, j) == old(
                    self,
                ).value(d, j),
    {
        let max_depth = self.map.max_depth();
        let target_depth = max_depth - order as usize;
        let ghost t = target_depth as int;
        let ghost x = idx as int / pow2(order as nat) as int;
        proof {
            self.map.lemma_counts();
            lemma_pow2_pos(order as nat);
        }
        let mut depth = target_depth;
        while depth <= max_depth
            invariant
                self.shape_ok(),
                self.same_shape(old(self)),
                max_depth == self.top(),
                target_depth == t,
                t == old(self).top() - order,
                x == idx as int / pow2(order as nat) as int,
                idx as int % pow2(order as nat) as int == 0,
                old(self).valid(t, x),
                t <= depth <= max_depth + 1,
                forall|e: int, j: int|
                    self.valid(e, j) ==> #[trigger] self.value(e, j) == if t <= e < depth
                        && Self::in_subtree(e, j, t, x) {
                        self.ord(e) + 1
                    } else {
                        old(self).value(e, j)
                    },
            decreases max_depth + 1 - depth,
        {
            let order = max_depth - depth;
            proof {
                vstd::arithmetic::power2::lemma2_to64();
                vstd::arithmetic::power2::lemma_pow2_strictly_increases((depth - target_depth) as nat, 19);
                self.map.lemma_level_bound(depth as int);
            }
            let block_cnt = shl_usize(1, depth - target_depth);
            proof {
                vstd::bits::lemma_usize_shr_is_div(idx, order);
            }
            let start = idx >> order;
            proof {
                assert(self.valid(t, x));
                self.lemma_subtree_range(idx as int, t, x, depth as int);
                assert(start == x * pow2((depth - t) as nat));
                assert(block_cnt == pow2((depth - t) as nat));
                assert((x + 1) * pow2((depth - t) as nat) <= level_start(self.roots(), depth as int));
                assert((x + 1) * pow2((depth - t) as nat) == x * pow2((depth - t) as nat) + pow2(
                    (depth - t) as nat,
                )) by (nonlinear_arith);
            }
            let end = start + block_cnt;
            let ghost before = *self;
            self.map.fill_level_range(depth, start, end, Buddy::free(order as u8));
            proof {
                assert forall|e: int, j: int| self.valid(e, j) implies #[trigger] self.value(e, j)
                    == if t <= e < depth + 1 && Self::in_subtree(e, j, t, x) {
                    self.ord(e) + 1
                } else {
                    old(self).value(e, j)
                } by {
                    assert(before.valid(e, j));
                    assert(before.value(e, j) == if t <= e < depth && Self::in_subtree(e, j, t, x) {
                        before.ord(e) + 1
                    } else {
                        old(self).value(e, j)
                    });
                    if e == depth {
                        self.lemma_subtree_range(idx as int, t, x, depth as int);
                        assert(Self::in_subtree(e, j, t, x) ==> t <= e);
                    }
                }
            }
            depth = depth + 1;
        }
        proof {
            vstd::bits::lemma_usize_shr_is_div(idx, order as usize);
        }
        let ghost filled = *self;
        proof {
            assert forall|e: int, j: int| self.valid(e, j) implies 0 <= #[trigger] self.value(e, j)
                <= self.ord(e) + 1 by {
                assert(old(self).valid(e, j));
                if Self::in_subtree(e, j, t, x) {
                    assert(t <= e);
                }
            }
            assert forall|e: int, j: int|
                self.valid(e, j) && e < self.top() && (e, j) != (t - 1, x / 2) implies #[trigger] self.local_ok(
                e,
                j,
            ) by {
                assert(old(self).valid(e, j));
                assert(self.valid(e + 1, 2 * j) && self.valid(e + 1, 2 * j + 1)) by {
                    lemma_level(self.roots(), e);
                }
                assert(old(self).valid(e + 1, 2 * j) && old(self).valid(e + 1, 2 * j + 1));
                assert((2 * j) / 2 == j && (2 * j + 1) / 2 == j);
                let in0 = Self::in_subtree(e + 1, 2 * j, t, x);
                let in1 = Self::in_subtree(e + 1, 2 * j + 1, t, x);
                let inn = Self::in_subtree(e, j, t, x);
                if e >= t {
                    assert(anc_at(e + 1, 2 * j, t) == anc_at(e, j, t));
                    assert(anc_at(e + 1, 2 * j + 1, t) == anc_at(e, j, t));
                    assert(in0 == inn && in1 == inn);
                } else {
                    assert(!inn);
                    if e + 1 == t {
                        assert(anc_at(e + 1, 2 * j, t) == 2 * j);
                        assert(anc_at(e + 1, 2 * j + 1, t) == 2 * j + 1);
                        assert(2 * j != x && 2 * j + 1 != x);
                    }
                    assert(!in0 && !in1);
                }
                assert(self.value(e, j) == if t <= e && inn {
                    self.ord(e) + 1
                } else {
                    old(self).value(e, j)
                });
                assert(self.value(e + 1, 2 * j) == if t <= e + 1 && in0 {
                    self.ord(e + 1) + 1
                } else {
                    old(self).value(e + 1, 2 * j)
                });
                assert(self.value(e + 1, 2 * j + 1) == if t <= e + 1 && in1 {
                    self.ord(e + 1) + 1
                } else {
                    old(self).value(e + 1, 2 * j + 1)
                });
                if !(e >= t && inn) {
                    assert(old(self).local_ok(e, j));
                }
            }
        }
        let mut cursor = self.map.cursor(target_depth, idx >> order as usize);
        self.fixup_map(&mut cursor);
        proof {
            assert forall|d: int, j: int|
                self.valid(d, j) && Self::in_subtree(d, j, t, x) implies #[trigger] self.whole_free(d, j) by {
                assert(filled.valid(d, j));
                assert(filled.value(d, j) == self.value(d, j));
            }
            assert forall|d: int, j: int|
                self.valid(d, j) && !Self::in_subtree(d, j, t, x) && !(is_anc(d, j, t, x) && d < t) implies #[trigger] self.value(
                d,
                j,
            ) == old(self).value(d, j) by {
                assert(filled.valid(d, j));
                assert(filled.value(d, j) == self.value(d, j));
            }
        }
    }

    /// At level `d` of the subtree of `(t, x)`, where `x = idx / 2^(top - t)`
    /// and `idx` is aligned, the subtree spans the nodes from
    /// `idx / 2^(top - d)` on, `2^(d - t)` of them, all within the level.
    proof fn lemma_subtree_range(&self, idx: int, t: int, x: int, d: int)
        requires
            self.shape_ok(),
            0 <= t <= d <= self.top(),
            idx >= 0,
            x == idx / pow2((self.top() - t) as nat) as int,
            idx % pow2((self.top() - t) as nat) as int == 0,
            self.valid(t, x),
        ensures
            ({
                let k = pow2((d - t) as nat) as int;
                let start = idx / pow2((self.top() - d) as nat) as int;
                &&& start == x * k
                &&& (x + 1) * k <= level_start(self.roots(), d)
                &&& forall|j: int| 0 <= j ==> (Self::in_subtree(d, j, t, x) <==> start <= j < start + k)
            }),
    {
        let k = pow2((d - t) as nat) as int;
        let a = pow2((self.top() - d) as nat) as int;
        let o = pow2((self.top() - t) as nat) as int;
        lemma_pow2_pos((d - t) as nat);
        lemma_pow2_pos((self.top() - d) as nat);
        vstd::arithmetic::power2::lemma_pow2_adds((self.top() - d) as nat, (d - t) as nat);
        assert(o == a * k);
        lemma_pow2_pos((self.top() - t) as nat);
        vstd::arithmetic::div_mod::lemma_fundamental_div_mod(idx, o);
        assert(idx == o * x);
        assert(idx == (x * k) * a) by (nonlinear_arith)
            requires
                idx == o * x,
                o == a * k,
        ;
        vstd::arithmetic::div_mod::lemma_div_multiples_vanish(x * k, a);
        assert(idx / a == x * k) by {
            assert((x * k) * a == a * (x * k)) by (nonlinear_arith);
        }
        self.map.lemma_counts();
        let tc = self.roots();
        assert(x < level_start(tc, t));
        vstd::arithmetic::power2::lemma_pow2_adds((t) as nat, (d - t) as nat);
        assert(level_start(tc, d) == level_start(tc, t) * k) by (nonlinear_arith)
            requires
                level_start(tc, d) == tc * pow2(d as nat),
                level_start(tc, t) == tc * pow2(t as nat),
                pow2(d as nat) == pow2(t as nat) * k,
        ;
        assert((x + 1) * k <= level_start(tc, t) * k) by (nonlinear_arith)
            requires
                x + 1 <= level_start(tc, t),
                k > 0,
        ;
        assert forall|j: int| 0 <= j implies (Self::in_subtree(d, j, t, x) <==> x * k <= j < x * k + k) by {
            lemma_anc_div(d, j, t);
            lemma_div_range(j, k, x);
            assert((x + 1) * k == x * k + k) by (nonlinear_arith);
        }
    }
}

} // verus!

verus! {

/// Number of nodes of a subtree whose root is on level `d`, counting the
/// levels down to `t`.
pub open spec fn sub_size(t: int, d: int) -> int {
    pow2((t - d + 1) as nat) - 1
}

/// Total number of nodes of the subtrees under the cursors of `s`.
pub open spec fn stack_size(s: Seq<Cursor>, t: int) -> int
    decreases s.len(),
{
    if s.len() == 0 {
        0
    } else {
        stack_size(s.drop_last(), t) + sub_size(t, s.last().pos().0)
    }
}

/// The node count of any stack of subtrees is non-negative.
proof fn lemma_stack_size_nonneg(s: Seq<Cursor>, t: int)
    ensures
        stack_size(s, t) >= 0,
    decreases s.len(),
{
    if s.len() > 0 {
        lemma_stack_size_nonneg(s.drop_last(), t);
        lemma_pow2_pos((t - s.last().pos().0 + 1) as nat);
    }
}

impl BuddySystem {
    /// A wholly free inner node has wholly free children.
    proof fn lemma_whole_free_children(&self, d: int, j: int)
        requires
            self.wf(),
            self.valid(d, j),
            d < self.top(),
            self.whole_free(d, j),
        ensures
            self.whole_free(d + 1, 2 * j),
            self.whole_free(d + 1, 2 * j + 1),
    {
        self.lemma_children_valid(d, j);
        assert(self.local_ok(d, j));
        assert(self.value(d + 1, 2 * j) <= self.ord(d + 1) + 1);
        assert(self.value(d + 1, 2 * j + 1) <= self.ord(d + 1) + 1);
    }

    /// The children of a valid inner node are valid.
    proof fn lemma_children_valid(&self, d: int, j: int)
        requires
            self.shape_ok(),
            self.valid(d, j),
            d < self.top(),
        ensures
            self.valid(d + 1, 2 * j),
            self.valid(d + 1, 2 * j + 1),
    {
        self.map.lemma_counts();
        lemma_level(self.roots(), d);
    }

    /// A valid node has a valid parent.
    proof fn lemma_parent_valid(&self, d: int, j: int)
        requires
            self.shape_ok(),
            self.valid(d, j),
            d > 0,
        ensures
            self.valid(d - 1, j / 2),
    {
        self.map.lemma_counts();
        lemma_level(self.roots(), d - 1);
    }

    /// A valid node has valid ancestors.
    proof fn lemma_anc_valid(&self, d: int, j: int, t: int, x: int)
        requires
            self.shape_ok(),
            self.valid(t, x),
            is_anc(d, j, t, x),
        ensures
            self.valid(d, j),
        decreases t - d,
    {
        if d < t {
            lemma_anc_step(t, x, d);
            self.lemma_anc_valid(d + 1, anc_at(t, x, d + 1), t, x);
            self.lemma_parent_valid(d + 1, anc_at(t, x, d + 1));
        }
    }

    /// The ancestors of a reachable node are unreserved.
    proof fn lemma_reachable_anc(&self, t: int, x: int, d: int)
        requires
            self.reachable(t, x),
            0 <= d < t,
        ensures
            self.value(d, anc_at(t, x, d)) != 0,
            self.reachable(d, anc_at(t, x, d)),
        decreases t,
    {
        assert(anc_at(t, x, d) == anc_at(t - 1, x / 2, d));
        if d < t - 1 {
            self.lemma_reachable_anc(t - 1, x / 2, d);
        } else {
            assert(anc_at(t - 1, x / 2, d) == x / 2);
        }
    }

    /// A node with a free order of at least `ord(t)` and unreserved
    /// ancestors has an available descendant on level `t`.
    proof fn lemma_exists_available(&self, d: int, j: int, t: int) -> (x: int)
        requires
            self.wf(),
            self.valid(d, j),
            0 <= d <= t <= self.top(),
            self.value(d, j) >= self.ord(t) + 1,
            self.reachable(d, j),
        ensures
            self.available(t, x),
            is_anc(d, j, t, x),
        decreases t - d,
    {
        if d == t {
            assert(anc_at(t, j, t) == j);
            j
        } else {
            self.lemma_children_valid(d, j);
            assert(self.local_ok(d, j));
            let c = if self.value(d + 1, 2 * j) >= self.ord(t) + 1 {
                2 * j
            } else {
                2 * j + 1
            };
            assert(self.value(d + 1, c) >= self.ord(t) + 1);
            assert(c / 2 == j);
            assert(self.reachable(d + 1, c));
            let x = self.lemma_exists_available(d + 1, c, t);
            lemma_anc_step(t, x, d);
            x
        }
    }

    /// Every node on the path to an available node records a free order of
    /// at least that of the available node.
    proof fn lemma_path_value(&self, d: int, j: int, t: int, x: int)
        requires
            self.wf(),
            self.available(t, x),
            is_anc(d, j, t, x),
        ensures
            self.value(d, j) >= self.ord(t) + 1,
        decreases t - d,
    {
        if d < t {
            lemma_anc_step(t, x, d);
            let c = anc_at(t, x, d + 1);
            self.lemma_path_value(d + 1, c, t, x);
            self.lemma_anc_valid(d, j, t, x);
            self.lemma_reachable_anc(t, x, d);
            self.lemma_children_valid(d, j);
            assert(self.local_ok(d, j));
            assert(c == 2 * j || c == 2 * j + 1);
            if self.whole_free(d, j) {
            } else {
                assert(self.value(d, j) == self.child_max(d, j));
            }
        } else {
            assert(j == x);
        }
    }
}

} // verus!

verus! {

/// The first node at level `t` below node `(d, i)`.
pub open spec fn first_below(t: int, d: int, i: int) -> int {
    i * pow2((t - d) as nat)
}

/// The nodes at level `t` below the children of `(d, i)` split its range:
/// the left child's comes first, the right child's after it.
proof fn lemma_below_children(t: int, d: int, i: int)
    requires
        0 <= d < t,
    ensures
        first_below(t, d + 1, 2 * i) == first_below(t, d, i),
        first_below(t, d + 1, 2 * i + 2) == first_below(t, d, i + 1),
{
    lemma_pow2_unfold((t - d) as nat);
    assert(((t - d) - 1) as nat == (t - (d + 1)) as nat);
    let p = pow2((t - (d + 1)) as nat) as int;
    assert(pow2((t - d) as nat) == 2 * p);
    assert((2 * i) * p == i * (2 * p)) by (nonlinear_arith);
    assert((2 * i + 2) * p == (i + 1) * (2 * p)) by (nonlinear_arith);
}

/// Node `(t, y)` lies below `(d, i)` exactly when `y` lies in the range of
/// level-`t` nodes below `(d, i)`.
proof fn lemma_below_range(t: int, d: int, i: int, y: int)
    requires
        0 <= d <= t,
        y >= 0,
    ensures
        is_anc(d, i, t, y) == (first_below(t, d, i) <= y < first_below(t, d, i + 1)),
{
    lemma_anc_div(t, y, d);
    let p = pow2((t - d) as nat) as int;
    lemma_pow2_pos((t - d) as nat);
    vstd::arithmetic::div_mod::lemma_fundamental_div_mod(y, p);
    let q = y / p;
    if q == i {
        assert(i * p <= y < (i + 1) * p) by (nonlinear_arith)
            requires
                y == p * q + y % p,
                0 <= y % p < p,
                q == i,
        ;
    }
    if i * p <= y < (i + 1) * p {
        assert(q == i) by (nonlinear_arith)
            requires
                y == p * q + y % p,
                0 <= y % p < p,
                i * p <= y < (i + 1) * p,
                p > 0,
        ;
    }
}

impl BuddySystem {
    /// Reserve a block of `2^order` frames. The search starts at the first
    /// block of the maximum order whose free order is at least `order` and
    /// walks its tree depth first, left to right, so the block taken is the
    /// first available one of that order. Returns the index of the first
    /// frame of the reserved block.
    pub fn reserve(&mut self, order: u8) -> (r: Option<usize>)
        requires
            old(self).wf(),
            order <= old(self).top(),
        ensures
            final(self).wf(),
            final(self).same_shape(old(self)),
            r.is_none() <==> forall|j: int|
                0 <= j < old(self).roots() ==> #[trigger] old(self).value(0, j) <= order,
            r.is_none() <==> forall|y: int| !#[trigger] old(self).available(old(self).top() - order, y),
            r.is_none() ==> forall|d: int, j: int|
                old(self).valid(d, j) ==> #[trigger] final(self).value(d, j) == old(self).value(d, j),
            r.is_some() ==> exists|x: int|
                {
                    &&& r.unwrap() == x * pow2(order as nat)
                    &&& #[trigger] old(self).available(old(self).top() - order, x)
                    &&& forall|y: int| #[trigger] old(self).available(old(self).top() - order, y) ==> x <= y
                    &&& final(self).allocated(old(self).top() - order, x)
                    &&& final(self).agrees_except(old(self), old(self).top() - order, x, true)
                },
    {
        let ghost t = self.top() - order;
        proof {
            self.map.lemma_counts();
        }
        let roots = self.map.slice(0);
        proof {
            vstd::arithmetic::power2::lemma2_to64();
            assert(level_start(self.roots(), 0) == self.roots());
        }
        let mut j: usize = 0;
        let mut found_root = false;
        while j < roots.len() && !found_root
            invariant
                self.wf(),
                *self == *old(self),
                roots@.len() == self.roots(),
                forall|k: int| 0 <= k < roots@.len() ==> roots@[k] == self.map.node(0, k),
                j <= roots@.len(),
                forall|k: int| 0 <= k < j ==> #[trigger] self.value(0, k) <= order,
                found_root ==> j < roots@.len() && self.value(0, j as int) > order,
            decreases roots@.len() - j + if found_root { 0int } else { 1int },
        {
            let root = roots[j];
            if root.is_free() && root.order() >= order {
                found_root = true;
            } else {
                j = j + 1;
            }
        }
        if !found_root {
            proof {
                self.lemma_no_available(order);
            }
            return None;
        }
        assert(self.valid(0, j as int));
        let mut cursor = self.map.cursor(0, j);
        let mut stack = stack_new();
        let ghost mut gstack: Seq<Cursor> = Seq::empty();
        proof {
            let x = self.lemma_exists_available(0, j as int, t);
            assert(is_anc(cursor.pos().0, cursor.pos().1, t, x));
            assert(stack_items(stack) =~= gstack.map_values(|c: Cursor| c.fields()));
            assert forall|y: int| #[trigger] self.available(t, y) implies first_below(t, 0, j as int) <= y by {
                let k = anc_at(t, y, 0);
                lemma_below_range(t, 0, k, y);
                assert(is_anc(0, k, t, y));
                self.lemma_path_value(0, k, t, y);
                if y < first_below(t, 0, j as int) {
                    lemma_below_range(t, 0, j as int, y);
                    self.lemma_anc_valid(0, k, t, y);
                    assert(k < j) by {
                        if k >= j {
                            assert(first_below(t, 0, j as int) <= first_below(t, 0, k)) by {
                                lemma_pow2_pos(t as nat);
                                assert(j * pow2((t - 0) as nat) <= k * pow2((t - 0) as nat)) by (nonlinear_arith)
                                    requires
                                        j <= k,
                                        pow2((t - 0) as nat) > 0,
                                ;
                            }
                        }
                    }
                    assert(self.value(0, k) <= order);
                }
            }
        }
        loop
            invariant
                self.wf(),
                *self == *old(self),
                t == self.top() - order,
                order <= self.top(),
                cursor.fits(&self.map),
                0 <= cursor.pos().0 <= t,
                self.reachable(cursor.pos().0, cursor.pos().1),
                stack_items(stack) == gstack.map_values(|c: Cursor| c.fields()),
                gstack.len() <= cursor.pos().0,
                forall|k: int|
                    0 <= k < gstack.len() ==> {
                        &&& (#[trigger] gstack[k]).fits(&self.map)
                        &&& gstack[k].pos().0 <= t
                        &&& self.reachable(gstack[k].pos().0, gstack[k].pos().1)
                        &&& gstack[k].pos().0 >= k + 1
                        &&& gstack[k].pos().0 <= cursor.pos().0
                    },
                forall|k1: int, k2: int|
                    0 <= k1 < k2 < gstack.len() ==> (#[trigger] gstack[k1]).pos().0 < (
                    #[trigger] gstack[k2]).pos().0,
                forall|y: int| #[trigger] self.available(t, y) ==> first_below(t, cursor.pos().0, cursor.pos().1) <= y,
                gstack.len() > 0 ==> first_below(t, gstack.last().pos().0, gstack.last().pos().1) == first_below(
                    t,
                    cursor.pos().0,
                    cursor.pos().1 + 1,
                ),
                forall|k: int|
                    0 <= k < gstack.len() - 1 ==> first_below(t, (#[trigger] gstack[k]).pos().0, gstack[k].pos().1)
                        == first_below(t, gstack[k + 1].pos().0, gstack[k + 1].pos().1 + 1),
                exists|x: int|
                    #[trigger] self.available(t, x) && (is_anc(cursor.pos().0, cursor.pos().1, t, x)
                        || exists|k: int|
                        0 <= k < gstack.len() && is_anc(
                            (#[trigger] gstack[k]).pos().0,
                            gstack[k].pos().1,
                            t,
                            x,
                        )),
            ensures
                cursor.fits(&self.map),
                self.wf(),
                *self == *old(self),
                cursor.pos().0 == t,
                self.available(t, cursor.pos().1),
                forall|y: int| #[trigger] self.available(t, y) ==> first_below(t, cursor.pos().0, cursor.pos().1) <= y,
            decreases sub_size(t, cursor.pos().0) + stack_size(gstack, t),
        {
            proof {
                self.lemma_cursor_valid(cursor);
            }
            let node = *cursor.get(&self.map);
            let cur_max_order = self.depth_to_order(cursor.depth());
            let cur_order = node.order();
            if node.is_reserved() || cur_order < order {
                let ghost x = choose|x: int|
                    #[trigger] self.available(t, x) && (is_anc(cursor.pos().0, cursor.pos().1, t, x)
                        || exists|k: int|
                        0 <= k < gstack.len() && is_anc(
                            (#[trigger] gstack[k]).pos().0,
                            gstack[k].pos().1,
                            t,
                            x,
                        ));
                proof {
                    if is_anc(cursor.pos().0, cursor.pos().1, t, x) {
                        self.lemma_path_value(cursor.pos().0, cursor.pos().1, t, x);
                        assert(false);
                    }
                }
                let ghost old_stack = gstack;
                match stack_pop(&mut stack) {
                    Some(c) => {
                        proof {
                            assert(gstack.len() > 0);
                            assert(old_stack.map_values(|c: Cursor| c.fields()).last()
                                == old_stack.last().fields());
                            c.lemma_fields(old_stack.last());
                            gstack = old_stack.drop_last();
                            assert(stack_items(stack) =~= gstack.map_values(|c: Cursor| c.fields()));
                            let k = choose|k: int|
                                0 <= k < old_stack.len() && is_anc(
                                    (#[trigger] old_stack[k]).pos().0,
                                    old_stack[k].pos().1,
                                    t,
                                    x,
                                );
                            if k < old_stack.len() - 1 {
                                assert(gstack[k] == old_stack[k]);
                            } else {
                                assert(is_anc(c.pos().0, c.pos().1, t, x));
                            }
                            assert(old_stack.drop_last() == gstack);
                            lemma_pow2_unfold((t - cursor.pos().0 + 1) as nat);
                            lemma_pow2_pos((t - cursor.pos().0) as nat);
                            assert(stack_size(old_stack, t) == stack_size(gstack, t) + sub_size(
                                t,
                                c.pos().0,
                            ));
                            assert(sub_size(t, cursor.pos().0) > 0);
                            lemma_stack_size_nonneg(gstack, t);
                            lemma_pow2_pos((t - c.pos().0 + 1) as nat);
                            assert(sub_size(t, c.pos().0) + stack_size(gstack, t) < sub_size(
                                t,
                                cursor.pos().0,
                            ) + stack_size(old_stack, t));
                            assert forall|y: int| #[trigger] self.available(t, y) implies first_below(
                                t,
                                c.pos().0,
                                c.pos().1,
                            ) <= y by {
                                lemma_below_range(t, cursor.pos().0, cursor.pos().1, y);
                                if is_anc(cursor.pos().0, cursor.pos().1, t, y) {
                                    self.lemma_path_value(cursor.pos().0, cursor.pos().1, t, y);
                                }
                            }
                            if gstack.len() > 0 {
                                assert(gstack.last() == old_stack[old_stack.len() - 2]);
                            }
                            assert forall|k: int| 0 <= k < gstack.len() - 1 implies first_below(
                                t,
                                (#[trigger] gstack[k]).pos().0,
                                gstack[k].pos().1,
                            ) == first_below(t, gstack[k + 1].pos().0, gstack[k + 1].pos().1 + 1) by {
                                assert(gstack[k] == old_stack[k] && gstack[k + 1] == old_stack[k + 1]);
                            }
                        }
                        cursor = c;
                        continue ;
                    },
                    None => {
                        proof {
                            assert(gstack.len() == 0);
                            old(self).lemma_no_available(order);
                        }
                        return None;
                    },
                }
            }
            if cur_order == order && cur_order == cur_max_order {
                break ;
            }
            proof {
                assert(cursor.pos().0 < t) by {
                    if cursor.pos().0 == t {
                        assert(self.value(t, cursor.pos().1) <= self.ord(t) + 1);
                    }
                }
            }
            let ghost old_stack = gstack;
            let ghost old_cursor = cursor;
            let mut rewind = cursor;
            let not_end = rewind.right::<Buddy>(Ghost(&self.map));
            stack_push(&mut stack, rewind);
            cursor.left::<Buddy>(Ghost(&self.map));
            proof {
                let d = old_cursor.pos().0;
                let i = old_cursor.pos().1;
                gstack = old_stack.push(rewind);
                assert(stack_items(stack) =~= gstack.map_values(|c: Cursor| c.fields()));
                assert((2 * i) / 2 == i && (2 * i + 1) / 2 == i);
                assert(self.reachable(d + 1, 2 * i));
                assert(self.reachable(d + 1, 2 * i + 1));
                let x = choose|x: int|
                    #[trigger] self.available(t, x) && (is_anc(d, i, t, x) || exists|k: int|
                        0 <= k < old_stack.len() && is_anc(
                            (#[trigger] old_stack[k]).pos().0,
                            old_stack[k].pos().1,
                            t,
                            x,
                        ));
                if is_anc(d, i, t, x) {
                    lemma_anc_step(t, x, d);
                    let c = anc_at(t, x, d + 1);
                    assert(c == 2 * i || c == 2 * i + 1);
                    if c == 2 * i {
                        assert(is_anc(cursor.pos().0, cursor.pos().1, t, x));
                    } else {
                        assert(is_anc(gstack[old_stack.len() as int].pos().0, gstack[old_stack.len() as int].pos().1, t, x));
                    }
                } else {
                    let k = choose|k: int|
                        0 <= k < old_stack.len() && is_anc(
                            (#[trigger] old_stack[k]).pos().0,
                            old_stack[k].pos().1,
                            t,
                            x,
                        );
                    assert(gstack[k] == old_stack[k]);
                }
                vstd::arithmetic::power2::lemma_pow2_unfold((t - d + 1) as nat);
                assert(rewind.pos().0 == d + 1 && cursor.pos().0 == d + 1);
                assert(stack_size(gstack, t) == stack_size(old_stack, t) + sub_size(t, d + 1)) by {
                    assert(gstack.drop_last() == old_stack);
                }
                assert(sub_size(t, d) == 2 * sub_size(t, d + 1) + 1);
                lemma_stack_size_nonneg(gstack, t);
                lemma_pow2_pos((t - d) as nat);
                assert(sub_size(t, cursor.pos().0) + stack_size(gstack, t) < sub_size(t, d)
                    + stack_size(old_stack, t));
                lemma_below_children(t, d, i);
                assert(gstack.last() == rewind);
                assert forall|k: int| 0 <= k < gstack.len() - 1 implies first_below(
                    t,
                    (#[trigger] gstack[k]).pos().0,
                    gstack[k].pos().1,
                ) == first_below(t, gstack[k + 1].pos().0, gstack[k + 1].pos().1 + 1) by {
                    assert(gstack[k] == old_stack[k]);
                    if k + 1 < old_stack.len() {
                        assert(gstack[k + 1] == old_stack[k + 1]);
                    } else {
                        assert(k == old_stack.len() - 1);
                        assert(old_stack.last() == old_stack[k]);
                    }
                }
            }
        }
        let ghost x = cursor.pos().1;
        let idx = cursor.idx::<Buddy>(Ghost(&self.map));
        proof {
            self.lemma_cursor_valid(cursor);
            if t < self.top() {
                self.lemma_whole_free_children(t, x);
                self.lemma_children_valid(t, x);
            }
            self.map.lemma_level_bound(self.top());
            lemma_level(self.roots(), t);
            vstd::arithmetic::power2::lemma_pow2_adds(t as nat, order as nat);
            assert(x * pow2(order as nat) <= level_start(self.roots(), self.top())) by (nonlinear_arith)
                requires
                    0 <= x < level_start(self.roots(), t),
                    level_start(self.roots(), t) == self.roots() * pow2(t as nat),
                    level_start(self.roots(), self.top()) == self.roots() * pow2(self.top() as nat),
                    pow2(self.top() as nat) == pow2(t as nat) * pow2(order as nat),
            ;
        }
        let ghost before = *self;
        cursor.set(&mut self.map, Buddy::reserved());
        proof {
            assert forall|e: int, j2: int| self.valid(e, j2) implies 0 <= #[trigger] self.value(e, j2)
                <= self.ord(e) + 1 by {
                assert(before.valid(e, j2));
                if (e, j2) != (t, x) {
                    assert(self.value(e, j2) == before.value(e, j2));
                }
            }
            assert forall|e: int, j2: int|
                self.valid(e, j2) && e < self.top() && (e, j2) != (t - 1, x / 2) implies #[trigger] self.local_ok(
                e,
                j2,
            ) by {
                assert(before.valid(e, j2));
                self.lemma_children_valid(e, j2);
                assert(before.valid(e + 1, 2 * j2) && before.valid(e + 1, 2 * j2 + 1));
                if (e + 1, 2 * j2) == (t, x) || (e + 1, 2 * j2 + 1) == (t, x) {
                    assert(e == t - 1 && j2 == x / 2);
                }
                assert(self.value(e + 1, 2 * j2) == before.value(e + 1, 2 * j2));
                assert(self.value(e + 1, 2 * j2 + 1) == before.value(e + 1, 2 * j2 + 1));
                if (e, j2) != (t, x) {
                    assert(before.local_ok(e, j2));
                    assert(self.value(e, j2) == before.value(e, j2));
                }
            }
            cursor.lemma_fits_same_shape(&before.map, &self.map);
        }
        let ghost reserved = *self;
        self.fixup_map(&mut cursor);
        proof {
            assert(self.valid(t, x));
            assert(reserved.value(t, x) == 0);
            if t < self.top() {
                assert(self.value(t + 1, 2 * x) == reserved.value(t + 1, 2 * x));
                assert(self.value(t + 1, 2 * x + 1) == reserved.value(t + 1, 2 * x + 1));
                assert(reserved.value(t + 1, 2 * x) == before.value(t + 1, 2 * x));
                assert(reserved.value(t + 1, 2 * x + 1) == before.value(t + 1, 2 * x + 1));
            }
            assert forall|d: int, j2: int|
                self.valid(d, j2) && !(is_anc(d, j2, t, x) && (true || d < t)) implies #[trigger] self.value(
                d,
                j2,
            ) == old(self).value(d, j2) by {
                assert(reserved.valid(d, j2));
                assert(before.valid(d, j2));
                assert(reserved.value(d, j2) == before.value(d, j2));
            }
            assert(self.allocated(t, x));
            assert(first_below(t, t, x) == x) by {
                vstd::arithmetic::power2::lemma2_to64();
                assert((t - t) as nat == 0);
                assert(pow2(0) == 1);
                assert(x * 1 == x);
            }
        }
        let r = shl_usize(idx, order as usize);
        Some(r)
    }
}

} // verus!

verus! {

/// A block handed out by [`BuddySystem::reserve`] is accepted back by
/// [`BuddySystem::free`]: the system is well formed, the order is in range,
/// and the node of the returned frame index is allocated.
pub proof fn lemma_reserved_block_can_be_freed(s0: BuddySystem, s1: BuddySystem, order: u8, idx: usize, x: int)
    requires
        s0.wf(),
        s1.wf(),
        s1.same_shape(&s0),
        order <= s0.top(),
        idx == x * pow2(order as nat),
        s1.allocated(s0.top() - order, x),
    ensures
        order <= s1.top(),
        s1.allocated(s1.top() - order, idx as int / pow2(order as nat) as int),
{
    lemma_pow2_pos(order as nat);
    vstd::arithmetic::div_mod::lemma_div_multiples_vanish(x, pow2(order as nat) as int);
    assert(x * pow2(order as nat) == pow2(order as nat) * x) by (nonlinear_arith);
}

/// Reserving a block and freeing it again leaves the block wholly free, and
/// every node that is neither the block's nor one of its ancestors as it
/// was before the reservation.
pub proof fn lemma_reserve_then_free(
    s0: BuddySystem,
    s1: BuddySystem,
    s2: BuddySystem,
    order: u8,
    x: int,
)
    requires
        s0.wf(),
        order <= s0.top(),
        s1.same_shape(&s0),
        s1.allocated(s0.top() - order, x),
        s1.agrees_except(&s0, s0.top() - order, x, true),
        s2.same_shape(&s1),
        s2.whole_free(s1.top() - order, x),
        s2.agrees_except(&s1, s1.top() - order, x, true),
    ensures
        s2.whole_free(s0.top() - order, x),
        forall|d: int, j: int|
            s0.valid(d, j) && !is_anc(d, j, s0.top() - order, x) ==> #[trigger] s2.value(d, j)
                == s0.value(d, j),
{
    assert forall|d: int, j: int|
        s0.valid(d, j) && !is_anc(d, j, s0.top() - order, x) implies #[trigger] s2.value(d, j)
        == s0.value(d, j) by {
        assert(s1.valid(d, j));
        assert(s2.valid(d, j));
        assert(s2.value(d, j) == s1.value(d, j));
        assert(s1.value(d, j) == s0.value(d, j));
    }
}

} // verus!

verus! {

impl BuddySystem {
    /// Whether `2^order` frames from frame `idx` form a block of the
    /// system: the order is in range, `idx` is aligned to it, and the node
    /// exists.
    pub fn is_block(&self, idx: usize, order: u8) -> (r: bool)
        requires
            self.wf(),
        ensures
            r == (order <= self.top() && idx as int % pow2(order as nat) as int == 0 && self.valid(
                self.top() - order,
                idx as int / pow2(order as nat) as int,
            )),
    {
        if order > self.max_order {
            return false;
        }
        proof {
            vstd::arithmetic::power2::lemma2_to64();
            vstd::arithmetic::power2::lemma_pow2_strictly_increases(order as nat, 19);
            vstd::arithmetic::power2::lemma_pow2_pos(order as nat);
        }
        let size = shl_usize(1, order as usize);
        if idx % size != 0 {
            return false;
        }
        proof {
            vstd::bits::lemma_usize_shr_is_div(idx, order as usize);
        }
        let node = idx >> order as usize;
        let depth = self.order_to_depth(order);
        proof {
            self.map.lemma_counts();
            self.map.lemma_level_bound(depth as int);
        }
        let level_len = shl_usize(self.map.tree_cnt(), depth);
        node < level_len
    }
}

} // verus!

verus! {

/// Taking the ancestor at level `b` of a node, then its ancestor at level
/// `a`, gives the ancestor at level `a`.
pub proof fn lemma_anc_compose(top: int, f: int, a: int, b: int)
    requires
        0 <= a <= b <= top,
        f >= 0,
    ensures
        anc_at(b, anc_at(top, f, b), a) == anc_at(top, f, a),
{
    lemma_anc_div(top, f, b);
    lemma_anc_div(top, f, a);
    let pb = pow2((top - b) as nat) as int;
    let pa = pow2((b - a) as nat) as int;
    lemma_pow2_pos((top - b) as nat);
    lemma_pow2_pos((b - a) as nat);
    let j = f / pb;
    assert(j >= 0) by {
        vstd::arithmetic::div_mod::lemma_div_pos_is_pos(f, pb);
    }
    lemma_anc_div(b, j, a);
    vstd::arithmetic::div_mod::lemma_div_denominator(f, pb, pa);
    vstd::arithmetic::power2::lemma_pow2_adds((top - b) as nat, (b - a) as nat);
    assert(((top - b) as nat + (b - a) as nat) as nat == (top - a) as nat);
}

/// The ancestors of a node of negative index have negative indices.
pub proof fn lemma_anc_neg(t: int, x: int, d: int)
    requires
        x < 0,
    ensures
        anc_at(t, x, d) < 0,
    decreases t - d,
{
    if d < t {
        lemma_anc_neg(t - 1, x / 2, d);
    }
}

impl BuddySystem {
    /// Frame `f` lies in a block that was handed out: one of the nodes on
    /// its path, itself included, is allocated.
    pub open spec fn held(&self, f: int) -> bool {
        exists|d: int| 0 <= d <= self.top() && #[trigger] self.allocated(d, anc_at(self.top(), f, d))
    }

    /// The nodes of a well-formed system: on each level `d` up to the
    /// maximum order, `2^d` for each block of the maximum order.
    pub proof fn lemma_valid_nodes(&self, d: int, i: int)
        requires
            self.wf(),
        ensures
            self.valid(d, i) <==> 0 <= d <= self.top() && 0 <= i < self.roots() * pow2(d as nat),
    {
        self.map.lemma_counts();
    }

    /// When every block of the maximum order records a free order below
    /// `order`, no block of `order` is available.
    pub proof fn lemma_no_available(&self, order: u8)
        requires
            self.wf(),
            order <= self.top(),
            forall|j: int| 0 <= j < self.roots() ==> #[trigger] self.value(0, j) <= order,
        ensures
            forall|y: int| !#[trigger] self.available(self.top() - order, y),
    {
        let t = self.top() - order;
        assert forall|y: int| !#[trigger] self.available(t, y) by {
            if self.available(t, y) {
                self.lemma_available_root(t, y);
                self.lemma_valid_nodes(0, anc_at(t, y, 0));
                vstd::arithmetic::power2::lemma2_to64();
                assert(self.value(0, anc_at(t, y, 0)) <= order);
            }
        }
    }

    /// Above an available node of level `t`, the block of the maximum order
    /// holding it has a free order of at least `ord(t)`.
    pub proof fn lemma_available_root(&self, t: int, y: int)
        requires
            self.wf(),
            self.available(t, y),
        ensures
            self.valid(0, anc_at(t, y, 0)),
            self.value(0, anc_at(t, y, 0)) >= self.ord(t) + 1,
    {
        self.lemma_top_bound(t, y);
        assert(is_anc(0, anc_at(t, y, 0), t, y));
        self.lemma_anc_valid(0, anc_at(t, y, 0), t, y);
        self.lemma_path_value(0, anc_at(t, y, 0), t, y);
    }

    /// Handing out the available block `(t, x)` leaves available no block
    /// of level `t` that was not available before, and not `(t, x)` itself.
    pub proof fn lemma_available_after_reserve(&self, old_s: &Self, t: int, x: int, y: int)
        requires
            old_s.wf(),
            self.wf(),
            self.same_shape(old_s),
            old_s.available(t, x),
            self.agrees_except(old_s, t, x, true),
            self.allocated(t, x),
            self.available(t, y),
        ensures
            y != x,
            old_s.available(t, y),
    {
        old_s.lemma_top_bound(t, x);
        assert(y != x);
        assert(!is_anc(t, y, t, x));
        assert(self.value(t, y) == old_s.value(t, y));
        self.lemma_reachable_back(old_s, t, x, t, y);
    }

    /// The ancestors of `(d, j)` that are unreserved after handing out
    /// `(t, x)` were unreserved before.
    proof fn lemma_reachable_back(&self, old_s: &Self, t: int, x: int, d: int, j: int)
        requires
            old_s.wf(),
            self.same_shape(old_s),
            old_s.available(t, x),
            self.agrees_except(old_s, t, x, true),
            self.shape_ok(),
            self.reachable(d, j),
            self.valid(d, j),
            0 <= d <= t,
        ensures
            old_s.reachable(d, j),
        decreases d,
    {
        if d > 0 {
            let p = j / 2;
            self.lemma_parent_valid(d, j);
            self.lemma_reachable_back(old_s, t, x, d - 1, p);
            if is_anc(d - 1, p, t, x) {
                old_s.lemma_reachable_anc(t, x, d - 1);
            } else {
                assert(self.value(d - 1, p) == old_s.value(d - 1, p));
            }
        }
    }

    /// Every frame within the blocks of the maximum order names a node of
    /// the deepest level.
    pub proof fn lemma_leaf_valid(&self, f: int)
        requires
            self.wf(),
            0 <= f < self.roots() * pow2(self.top() as nat),
        ensures
            self.valid(self.top(), f),
    {
        self.map.lemma_counts();
    }

    /// The maximum order of a well-formed system is bounded, and every
    /// node lies on a level from 0 to it.
    pub proof fn lemma_top_bound(&self, d: int, i: int)
        requires
            self.wf(),
        ensures
            0 <= self.top() <= BUDDY_MAX_ORDER,
            self.valid(d, i) ==> 0 <= d <= self.top() && i >= 0,
    {
    }

    /// The descendants of a wholly free node are wholly free.
    pub proof fn lemma_whole_free_below(&self, t: int, x: int, d: int, j: int)
        requires
            self.wf(),
            self.valid(t, x),
            self.whole_free(t, x),
            t <= d,
            is_anc(t, x, d, j),
            self.valid(d, j),
        ensures
            self.whole_free(d, j),
        decreases d - t,
    {
        if d > t {
            assert(anc_at(d, j, t) == anc_at(d - 1, j / 2, t));
            self.lemma_parent_valid(d, j);
            self.lemma_whole_free_below(t, x, d - 1, j / 2);
            self.lemma_whole_free_children(d - 1, j / 2);
        } else {
            assert(anc_at(d, j, t) == j);
        }
    }

    /// No frame inside an available block is held.
    pub proof fn lemma_available_not_held(&self, t: int, x: int, f: int)
        requires
            self.wf(),
            self.available(t, x),
            f >= 0,
            t <= self.top(),
            anc_at(self.top(), f, t) == x,
        ensures
            !self.held(f),
    {
        assert forall|d: int| 0 <= d <= self.top() implies !#[trigger] self.allocated(
            d,
            anc_at(self.top(), f, d),
        ) by {
            let j = anc_at(self.top(), f, d);
            if self.valid(d, j) {
                if d >= t {
                    lemma_anc_compose(self.top(), f, t, d);
                    self.lemma_whole_free_below(t, x, d, j);
                } else {
                    lemma_anc_compose(self.top(), f, d, t);
                    self.lemma_reachable_anc(t, x, d);
                }
            }
        }
    }

    /// The descendants of an allocated node are wholly free.
    proof fn lemma_allocated_below(&self, t: int, x: int, d: int, j: int)
        requires
            self.wf(),
            self.allocated(t, x),
            t < d,
            is_anc(t, x, d, j),
            self.valid(d, j),
        ensures
            self.whole_free(d, j),
    {
        let c = anc_at(d, j, t + 1);
        lemma_anc_step(d, j, t);
        self.lemma_children_valid(t, x);
        assert(c == 2 * x || c == 2 * x + 1);
        lemma_anc_compose(d, j, t + 1, t + 1);
        assert(anc_at(t + 1, c, t + 1) == c);
        assert(is_anc(t + 1, c, d, j));
        self.lemma_whole_free_below(t + 1, c, d, j);
    }

    /// Handing out an available block keeps every held frame held.
    pub proof fn lemma_held_after_reserve(&self, old_s: &Self, t: int, x: int, f: int)
        requires
            old_s.wf(),
            self.same_shape(old_s),
            old_s.available(t, x),
            self.agrees_except(old_s, t, x, true),
            old_s.held(f),
        ensures
            self.held(f),
    {
        let d = choose|d: int| 0 <= d <= old_s.top() && #[trigger] old_s.allocated(d, anc_at(old_s.top(), f, d));
        let j = anc_at(old_s.top(), f, d);
        assert(!is_anc(d, j, t, x)) by {
            if is_anc(d, j, t, x) {
                if d < t {
                    old_s.lemma_reachable_anc(t, x, d);
                } else {
                    assert(anc_at(t, x, t) == x);
                }
            }
        }
        assert(self.valid(d, j));
        assert(self.value(d, j) == old_s.value(d, j));
        if d < old_s.top() {
            old_s.lemma_children_valid(d, j);
            assert(!is_anc(d + 1, 2 * j, t, x)) by {
                if is_anc(d + 1, 2 * j, t, x) {
                    lemma_anc_step(t, x, d);
                }
            }
            assert(!is_anc(d + 1, 2 * j + 1, t, x)) by {
                if is_anc(d + 1, 2 * j + 1, t, x) {
                    lemma_anc_step(t, x, d);
                }
            }
            assert(self.valid(d + 1, 2 * j));
            assert(self.valid(d + 1, 2 * j + 1));
            assert(self.value(d + 1, 2 * j) == old_s.value(d + 1, 2 * j));
            assert(self.value(d + 1, 2 * j + 1) == old_s.value(d + 1, 2 * j + 1));
        }
        assert(self.allocated(d, anc_at(self.top(), f, d)));
    }

    /// Above a reserved node, no node on its path is wholly free.
    proof fn lemma_path_not_free(&self, t: int, x: int, k: int)
        requires
            self.wf(),
            self.valid(t, x),
            self.reserved_at(t, x),
            0 <= k <= t,
        ensures
            self.valid(k, anc_at(t, x, k)),
            self.value(k, anc_at(t, x, k)) <= self.ord(k),
        decreases t - k,
    {
        self.lemma_anc_valid(k, anc_at(t, x, k), t, x);
        self.lemma_top_bound(t, x);
        if k < t {
            lemma_anc_step(t, x, k);
            let a = anc_at(t, x, k);
            let c = anc_at(t, x, k + 1);
            self.lemma_path_not_free(t, x, k + 1);
            self.lemma_children_valid(k, a);
            assert(self.local_ok(k, a));
            assert(self.value(k + 1, 2 * a) <= self.ord(k + 1) + 1);
            assert(self.value(k + 1, 2 * a + 1) <= self.ord(k + 1) + 1);
            assert(c == 2 * a || c == 2 * a + 1);
        }
    }

    /// Handing out the available block `(t, x)` holds no frame outside it
    /// that was not held before: together with
    /// [`Self::lemma_held_after_reserve`], every frame outside the block
    /// keeps its state.
    pub proof fn lemma_free_kept_after_reserve(&self, old_s: &Self, t: int, x: int, f: int)
        requires
            old_s.wf(),
            self.wf(),
            self.same_shape(old_s),
            self.allocated(t, x),
            self.agrees_except(old_s, t, x, true),
            0 <= t <= old_s.top(),
            anc_at(old_s.top(), f, t) != x,
            !old_s.held(f),
        ensures
            !self.held(f),
    {
        let top = self.top();
        if self.held(f) {
            let d = choose|d: int| 0 <= d <= top && #[trigger] self.allocated(d, anc_at(top, f, d));
            let j = anc_at(top, f, d);
            if is_anc(d, j, t, x) {
                if d == t {
                    assert(false);
                } else {
                    lemma_anc_step(t, x, d);
                    self.lemma_path_not_free(t, x, d + 1);
                    let c = anc_at(t, x, d + 1);
                    assert(c == 2 * j || c == 2 * j + 1);
                    assert(!self.whole_free(d + 1, c));
                    assert(false);
                }
            } else {
                assert(self.value(d, j) == old_s.value(d, j));
                if d < top {
                    self.lemma_children_valid(d, j);
                    if d < t {
                        lemma_anc_step(t, x, d);
                    }
                    assert(!is_anc(d + 1, 2 * j, t, x));
                    assert(!is_anc(d + 1, 2 * j + 1, t, x));
                    assert(self.value(d + 1, 2 * j) == old_s.value(d + 1, 2 * j));
                    assert(self.value(d + 1, 2 * j + 1) == old_s.value(d + 1, 2 * j + 1));
                }
                assert(old_s.allocated(d, anc_at(old_s.top(), f, d)));
                assert(false);
            }
        }
    }

    /// A system whose nodes all kept their states holds the same frames.
    pub proof fn lemma_held_unchanged(&self, old_s: &Self, f: int)
        requires
            old_s.wf(),
            self.same_shape(old_s),
            forall|d: int, j: int| old_s.valid(d, j) ==> #[trigger] self.value(d, j) == old_s.value(d, j),
            old_s.held(f),
        ensures
            self.held(f),
    {
        let top = old_s.top();
        let d = choose|d: int| 0 <= d <= top && #[trigger] old_s.allocated(d, anc_at(top, f, d));
        let j = anc_at(top, f, d);
        if d < top {
            old_s.lemma_children_valid(d, j);
            assert(self.value(d + 1, 2 * j) == old_s.value(d + 1, 2 * j));
            assert(self.value(d + 1, 2 * j + 1) == old_s.value(d + 1, 2 * j + 1));
        }
        assert(self.value(d, j) == old_s.value(d, j));
        assert(self.allocated(d, anc_at(self.top(), f, d)));
    }

    /// Giving back an allocated block keeps every held frame outside it
    /// held.
    pub proof fn lemma_held_after_free(&self, old_s: &Self, t: int, x: int, f: int)
        requires
            old_s.wf(),
            self.same_shape(old_s),
            old_s.allocated(t, x),
            self.agrees_except(old_s, t, x, true),
            old_s.held(f),
            f >= 0,
            0 <= t <= old_s.top(),
            anc_at(old_s.top(), f, t) != x,
        ensures
            self.held(f),
    {
        let top = old_s.top();
        let d = choose|d: int| 0 <= d <= top && #[trigger] old_s.allocated(d, anc_at(top, f, d));
        let j = anc_at(top, f, d);
        assert(!is_anc(d, j, t, x)) by {
            if is_anc(d, j, t, x) {
                if d < t {
                    lemma_anc_compose(top, f, d, t);
                    old_s.lemma_anc_valid(d, j, t, x);
                    lemma_anc_compose(t, x, d, d);
                    old_s.lemma_allocated_below(d, j, t, x);
                } else {
                    lemma_anc_compose(top, f, t, t);
                    assert(anc_at(t, x, t) == x);
                }
            }
        }
        assert(self.valid(d, j));
        assert(self.value(d, j) == old_s.value(d, j));
        if d < top {
            old_s.lemma_children_valid(d, j);
            assert(!is_anc(d + 1, 2 * j, t, x)) by {
                if is_anc(d + 1, 2 * j, t, x) {
                    lemma_anc_step(t, x, d);
                }
            }
            assert(!is_anc(d + 1, 2 * j + 1, t, x)) by {
                if is_anc(d + 1, 2 * j + 1, t, x) {
                    lemma_anc_step(t, x, d);
                }
            }
            assert(self.value(d + 1, 2 * j) == old_s.value(d + 1, 2 * j));
            assert(self.value(d + 1, 2 * j + 1) == old_s.value(d + 1, 2 * j + 1));
        }
        assert(self.allocated(d, anc_at(self.top(), f, d)));
    }
}

} // verus!
