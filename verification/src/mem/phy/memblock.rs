//! The boot-time record of physical memory: the ranges the firmware reports
//! as usable, and the ranges reserved within them.
use crate::mem::addr::{Addr, AddrRange, AddrSpace};
use crate::mem::phy::UMASpace;
use arrayvec::ArrayVec;
use vstd::prelude::*;

verus! {

/// The capacity of a memblock list.
pub const MEMBLOCKS_LEN: usize = 128;

/// The fields of a range: its base address and its size.
pub open spec fn pair_of(r: AddrRange<UMASpace>) -> (u64, u64) {
    (r.base@, r.size)
}

/// Address `a` lies in the range `p`, given as (base, size).
pub open spec fn pair_has(p: (u64, u64), a: int) -> bool {
    p.0 <= a < p.0 + p.1
}

/// Address `a` lies in one of the ranges of `s`.
pub open spec fn in_ranges(s: Seq<(u64, u64)>, a: int) -> bool {
    exists|k: int| 0 <= k < s.len() && #[trigger] pair_has(s[k], a)
}

/// Address `a` lies in one of the ranges of `s` at index `from` or later.
pub open spec fn covers_from(s: Seq<AddrRange<UMASpace>>, from: int, a: int) -> bool {
    exists|k: int| from <= k < s.len() && #[trigger] s[k].has(a)
}

/// Address `a` lies in one of the ranges of `s`.
pub open spec fn covers(s: Seq<AddrRange<UMASpace>>, a: int) -> bool {
    covers_from(s, 0, a)
}

/// Two lists that one sweep can intersect: every range well formed, the
/// first list sorted by start, and each range of the second ending at or
/// before the start of every later one.
pub open spec fn sweepable(r1: Seq<AddrRange<UMASpace>>, r2: Seq<AddrRange<UMASpace>>) -> bool {
    &&& forall|k: int| 0 <= k < r1.len() ==> #[trigger] r1[k].wf()
    &&& forall|k: int| 0 <= k < r2.len() ==> #[trigger] r2[k].wf()
    &&& forall|i: int, j: int| 0 <= i < j < r1.len() ==> #[trigger] r1[i].lo() <= #[trigger] r1[j].lo()
    &&& forall|i: int, j: int| 0 <= i < j < r2.len() ==> #[trigger] r2[i].hi() <= #[trigger] r2[j].lo()
}

/// The two ranges overlap: each starts before the other ends.
pub open spec fn pair_overlaps(p: (u64, u64), q: (u64, u64)) -> bool {
    p.0 < q.0 + q.1 && q.0 < p.0 + p.1
}

/// `b` overlaps some range of `s`.
pub open spec fn overlaps_any(s: Seq<(u64, u64)>, b: (u64, u64)) -> bool {
    exists|k: int| 0 <= k < s.len() && #[trigger] pair_overlaps(s[k], b)
}

/// Each range of `s` ends at or before the start of every later one.
pub open spec fn separated(s: Seq<(u64, u64)>) -> bool {
    forall|i: int, j: int| 0 <= i < j < s.len() ==> #[trigger] s[i].0 + s[i].1 <= #[trigger] s[j].0
}

/// The shape of a memblock list: at most [`MEMBLOCKS_LEN`] non-empty ranges
/// of the space, strictly sorted by start.
pub open spec fn sorted_ranges(s: Seq<(u64, u64)>) -> bool {
    &&& s.len() <= MEMBLOCKS_LEN
    &&& forall|k: int| 0 <= k < s.len() ==> #[trigger] s[k].1 > 0 && s[k].0 + s[k].1 <= UMASpace::range_end()
    &&& forall|i: int, j: int| 0 <= i < j < s.len() ==> #[trigger] s[i].0 < #[trigger] s[j].0
}

/// The range from the start of the first range of `s` to the end of its
/// last; empty, at address 0, when `s` is empty.
pub open spec fn bounding(s: Seq<(u64, u64)>) -> (u64, u64) {
    if s.len() == 0 {
        (0, 0)
    } else {
        (s[0].0, (s.last().0 + s.last().1 - s[0].0) as u64)
    }
}

/// The ranges held by a memblock list, as (base, size), first to last.
pub uninterp spec fn range_items(v: ArrayVec<AddrRange<UMASpace>, MEMBLOCKS_LEN>) -> Seq<(u64, u64)>;

/// `ArrayVec::new`: an empty vector.
#[verifier::external_body]
fn ranges_new() -> (r: ArrayVec<AddrRange<UMASpace>, MEMBLOCKS_LEN>)
    ensures
        range_items(r) == Seq::<(u64, u64)>::empty(),
{
    ArrayVec::new()
}

/// `ArrayVec::len`: the number of items.
#[verifier::external_body]
fn ranges_len(v: &ArrayVec<AddrRange<UMASpace>, MEMBLOCKS_LEN>) -> (r: usize)
    ensures
        r == range_items(*v).len(),
{
    v.len()
}

/// Indexing through `ArrayVec`'s `Deref` to a slice: the item at `i`, which
/// must be below the length (the slice index panics otherwise).
#[verifier::external_body]
fn range_at(v: &ArrayVec<AddrRange<UMASpace>, MEMBLOCKS_LEN>, i: usize) -> (r: AddrRange<
    UMASpace,
>)
    requires
        i < range_items(*v).len(),
    ensures
        pair_of(r) == range_items(*v)[i as int],
{
    v[i]
}

/// `ArrayVec::drain` of `start..end`, with the returned iterator dropped at
/// once: the items at `start..end` are removed and the rest keep their
/// order. It panics unless `start <= end <= len`, which the precondition
/// rules out.
#[verifier::external_body]
fn ranges_drain(v: &mut ArrayVec<AddrRange<UMASpace>, MEMBLOCKS_LEN>, start: usize, end: usize)
    requires
        start <= end <= range_items(*old(v)).len(),
    ensures
        range_items(*final(v)) == range_items(*old(v)).subrange(0, start as int) + range_items(
            *old(v),
        ).subrange(end as int, range_items(*old(v)).len() as int),
{
    v.drain(start..end);
}

/// `ArrayVec::insert`: puts `r` at `index`, shifting the later items up. It
/// panics when the vector is full or `index` is past the length, which the
/// precondition rules out.
#[verifier::external_body]
fn ranges_insert(
    v: &mut ArrayVec<AddrRange<UMASpace>, MEMBLOCKS_LEN>,
    index: usize,
    r: AddrRange<UMASpace>,
)
    requires
        index <= range_items(*old(v)).len(),
        range_items(*old(v)).len() < MEMBLOCKS_LEN,
    ensures
        range_items(*final(v)) == range_items(*old(v)).insert(index as int, pair_of(r)),
{
    v.insert(index, r)
}

/// Two non-empty ranges overlap exactly when some address lies in both.
pub proof fn lemma_overlap_witness(p: (u64, u64), q: (u64, u64))
    requires
        p.1 > 0,
        q.1 > 0,
    ensures
        pair_overlaps(p, q) <==> exists|a: int| pair_has(p, a) && pair_has(q, a),
{
    if pair_overlaps(p, q) {
        let a: int = if p.0 >= q.0 {
            p.0 as int
        } else {
            q.0 as int
        };
        assert(pair_has(p, a) && pair_has(q, a));
    }
}

/// A set union of address ranges, kept sorted by start, with the range from
/// the start of the first to the end of the last.
pub struct Memblocks {
    data: ArrayVec<AddrRange<UMASpace>, MEMBLOCKS_LEN>,
    bound: AddrRange<UMASpace>,
}

impl Memblocks {
    /// The ranges, as (base, size), first to last.
    pub closed spec fn items(&self) -> Seq<(u64, u64)> {
        range_items(self.data)
    }

    /// The bounding range, as (base, size).
    pub closed spec fn bound(&self) -> (u64, u64) {
        pair_of(self.bound)
    }

    /// The ranges are sorted, lie apart, and the bound matches them.
    pub closed spec fn wf(&self) -> bool {
        &&& sorted_ranges(self.items())
        &&& separated(self.items())
        &&& self.bound() == bounding(self.items())
    }

    /// An empty list.
    pub fn new() -> (r: Self)
        ensures
            r.wf(),
            r.items().len() == 0,
    {
        Memblocks { data: ranges_new(), bound: AddrRange::empty() }
    }

    /// Recomputes the bound from the first and the last range.
    fn update_bound(&mut self)
        requires
            sorted_ranges(range_items(old(self).data)),
            separated(range_items(old(self).data)),
        ensures
            final(self).data == old(self).data,
            final(self).wf(),
    {
        let len = ranges_len(&self.data);
        if len == 0 {
            self.bound = AddrRange::empty();
            return ;
        }
        let first = range_at(&self.data, 0);
        let last = range_at(&self.data, len - 1);
        proof {
            let s = range_items(self.data);
            if len > 1 {
                assert(s[0].0 < s[len - 1].0);
            }
            assert(s[len - 1].1 > 0);
        }
        self.bound = AddrRange::from_bounds(first.start(), last.end());
    }

    /// Merges `block`, which must not be empty, into the list, as a set
    /// union: the range just before the first one that starts at or after
    /// `block`, and the ranges from that one on, are folded into it while
    /// they overlap it. Returns whether `block` overlapped a range of the
    /// list.
    #[verifier::rlimit(60)]
    pub fn insert(&mut self, block: AddrRange<UMASpace>) -> (r: bool)
        requires
            old(self).wf(),
            block.wf(),
            block.size > 0,
            old(self).items().len() < MEMBLOCKS_LEN || overlaps_any(old(self).items(), pair_of(block)),
        ensures
            final(self).wf(),
            r == overlaps_any(old(self).items(), pair_of(block)),
            forall|a: int|
                #[trigger] in_ranges(final(self).items(), a) <==> in_ranges(old(self).items(), a)
                    || block.has(a),
            final(self).items().len() <= old(self).items().len() + 1,
            !r ==> final(self).items().len() == old(self).items().len() + 1,
    {
        let ghost s = self.items();
        let len = ranges_len(&self.data);
        let mut p: usize = 0;
        loop
            invariant
                p <= len,
                len == s.len(),
                range_items(self.data) == s,
                sorted_ranges(s),
                forall|k: int| 0 <= k < p ==> #[trigger] s[k].0 < block.base@,
            ensures
                p <= len,
                range_items(self.data) == s,
                forall|k: int| 0 <= k < p ==> #[trigger] s[k].0 < block.base@,
                p < len ==> s[p as int].0 >= block.base@,
            decreases len - p,
        {
            if p == len {
                break;
            }
            let cur = range_at(&self.data, p);
            if cur.start().usize() >= block.start().usize() {
                break;
            }
            p = p + 1;
        }
        let mut merged = block;
        let mut start = p;
        let mut cnt: usize = 0;
        if p > 0 {
            let prev = range_at(&self.data, p - 1);
            proof {
                assert(s[p - 1].1 > 0);
            }
            match prev.range_sum_strict(&block) {
                Some(mr) => {
                    proof {
                        let q = (p - 1) as int;
                        assert forall|a: int| #[trigger]
                            mr.has(a) <==> block.has(a) || exists|k: int|
                                q <= k < q + 1 && #[trigger] pair_has(s[k], a) by {
                            if prev.has(a) {
                                assert(pair_has(s[q], a));
                            }
                            if exists|k: int| q <= k < q + 1 && #[trigger] pair_has(s[k], a) {
                                assert(pair_has(s[q], a));
                                assert(prev.has(a));
                            }
                        }
                        assert(s[q].0 < block.base@);
                    }
                    merged = mr;
                    start = p - 1;
                    cnt = 1;
                },
                None => {},
            }
        }
        loop
            invariant
                p <= len,
                start <= p,
                start + cnt >= p,
                start + cnt <= len,
                start < p ==> start == p - 1 && cnt >= 1,
                start == p ==> merged.lo() == block.lo(),
                start < p ==> merged.lo() == s[start as int].0 && pair_overlaps(s[start as int], pair_of(block)),
                len == s.len(),
                range_items(self.data) == s,
                sorted_ranges(s),
                forall|k: int| 0 <= k < p ==> #[trigger] s[k].0 < block.base@,
                p < len ==> s[p as int].0 >= block.base@,
                p > 0 && start == p ==> !pair_overlaps(s[p - 1], pair_of(block)),
                block.wf(),
                block.size > 0,
                merged.wf(),
                merged.hi() >= block.hi(),
                forall|a: int|
                    #[trigger] merged.has(a) <==> block.has(a) || exists|k: int|
                        start <= k < start + cnt && #[trigger] pair_has(s[k], a),
                start == p && cnt > 0 ==> pair_overlaps(s[p as int], pair_of(block)),
                cnt == 0 ==> merged == block,
            ensures
                start + cnt <= len,
                start + cnt >= p,
                start <= p,
                start < p ==> start == p - 1 && cnt >= 1,
                start == p ==> merged.lo() == block.lo(),
                start < p ==> merged.lo() == s[start as int].0 && pair_overlaps(s[start as int], pair_of(block)),
                p > 0 && start == p ==> !pair_overlaps(s[p - 1], pair_of(block)),
                range_items(self.data) == s,
                merged.wf(),
                merged.hi() >= block.hi(),
                forall|a: int|
                    #[trigger] merged.has(a) <==> block.has(a) || exists|k: int|
                        start <= k < start + cnt && #[trigger] pair_has(s[k], a),
                start == p && cnt > 0 ==> pair_overlaps(s[p as int], pair_of(block)),
                cnt == 0 ==> merged == block,
                start + cnt < len ==> !pair_overlaps(s[start + cnt], pair_of(merged)),
            decreases len - start - cnt,
        {
            if start + cnt == len {
                break;
            }
            let cur = range_at(&self.data, start + cnt);
            let ghost i: int = start + cnt;
            proof {
                assert(s[i].1 > 0);
            }
            match merged.range_sum_strict(&cur) {
                Some(mr) => {
                    proof {
                        assert forall|a: int| #[trigger]
                            mr.has(a) <==> block.has(a) || exists|k: int|
                                start <= k < start + cnt + 1 && #[trigger] pair_has(s[k], a) by {
                            if mr.has(a) && !block.has(a) {
                                if cur.has(a) {
                                    assert(pair_has(s[i], a));
                                } else {
                                    assert(merged.has(a));
                                }
                            }
                            if exists|k: int| start <= k < start + cnt + 1 && #[trigger] pair_has(s[k], a) {
                                let k = choose|k: int| start <= k < start + cnt + 1 && #[trigger] pair_has(s[k], a);
                                if k == i {
                                    assert(cur.has(a));
                                } else {
                                    assert(merged.has(a));
                                }
                            }
                        }
                        if cnt == 0 {
                            assert(merged == block);
                            assert(i == p);
                            assert(pair_overlaps(s[p as int], pair_of(block)));
                        }
                        if start < p {
                            assert(s[start as int].0 < s[i].0);
                        } else {
                            assert(s[i].0 >= block.base@) by {
                                if i > p {
                                    assert(s[p as int].0 < s[i].0);
                                }
                            }
                        }
                    }
                    merged = mr;
                    cnt = cnt + 1;
                },
                None => {
                    break;
                },
            }
        }
        proof {
            lemma_insert_result(s, p as int, start as int, cnt as int, block, merged);
        }
        ranges_drain(&mut self.data, start, start + cnt);
        ranges_insert(&mut self.data, start, merged);
        let ghost n = range_items(self.data);
        proof {
            assert(n.len() == len - cnt + 1);
            assert forall|k: int| 0 <= k < start implies #[trigger] n[k] == s[k] by {}
            assert(n[start as int] == pair_of(merged));
            assert forall|k: int| start < k < n.len() implies #[trigger] n[k] == s[k + cnt - 1] by {}
            lemma_insert_shape(s, n, p as int, start as int, cnt as int, block, merged);
        }
        self.update_bound();
        cnt != 0
    }
}

/// What [`Memblocks::insert`] folds: a range was merged exactly when the
/// block overlaps a range of the list.
proof fn lemma_insert_result(
    s: Seq<(u64, u64)>,
    p: int,
    start: int,
    cnt: int,
    block: AddrRange<UMASpace>,
    merged: AddrRange<UMASpace>,
)
    requires
        sorted_ranges(s),
        separated(s),
        0 <= start <= p <= s.len(),
        start + cnt <= s.len(),
        start + cnt >= p,
        0 <= cnt,
        start < p ==> start == p - 1 && cnt >= 1 && pair_overlaps(s[start], pair_of(block)),
        forall|k: int| 0 <= k < p ==> #[trigger] s[k].0 < block.base@,
        p < s.len() ==> s[p].0 >= block.base@,
        p > 0 && start == p ==> !pair_overlaps(s[p - 1], pair_of(block)),
        block.wf(),
        block.size > 0,
        start == p && cnt > 0 ==> pair_overlaps(s[p], pair_of(block)),
        cnt == 0 ==> merged == block,
        start + cnt < s.len() ==> !pair_overlaps(s[start + cnt], pair_of(merged)),
    ensures
        (cnt > 0) == overlaps_any(s, pair_of(block)),
{
    if cnt > 0 {
        if start < p {
            assert(pair_overlaps(s[start], pair_of(block)));
        } else {
            assert(pair_overlaps(s[p], pair_of(block)));
        }
    } else {
        assert(start == p);
        assert forall|k: int| 0 <= k < s.len() implies !#[trigger] pair_overlaps(s[k], pair_of(block)) by {
            if k < p - 1 {
                assert(s[k].0 + s[k].1 <= s[p - 1].0);
                assert(s[p - 1].0 < block.base@);
            } else if k > p {
                assert(s[p].0 < s[k].0);
                assert(!pair_overlaps(s[p], pair_of(block)));
            }
        }
    }
}

/// The list that [`Memblocks::insert`] leaves: what comes before the merged
/// ranges, then the merged range, then what follows them.
proof fn lemma_insert_shape(
    s: Seq<(u64, u64)>,
    n: Seq<(u64, u64)>,
    p: int,
    start: int,
    cnt: int,
    block: AddrRange<UMASpace>,
    merged: AddrRange<UMASpace>,
)
    requires
        sorted_ranges(s),
        separated(s),
        0 <= start <= p,
        0 <= cnt,
        start + cnt >= p,
        start + cnt <= s.len(),
        s.len() - cnt < MEMBLOCKS_LEN,
        n.len() == s.len() - cnt + 1,
        forall|k: int| 0 <= k < start ==> #[trigger] n[k] == s[k],
        n[start] == pair_of(merged),
        forall|k: int| start < k < n.len() ==> #[trigger] n[k] == s[k + cnt - 1],
        forall|k: int| 0 <= k < p ==> #[trigger] s[k].0 < block.base@,
        p < s.len() ==> s[p].0 >= block.base@,
        start < p ==> start == p - 1 && merged.lo() == s[start].0,
        start == p ==> merged.lo() == block.lo(),
        p > 0 && start == p ==> !pair_overlaps(s[p - 1], pair_of(block)),
        block.wf(),
        block.size > 0,
        merged.wf(),
        merged.hi() >= block.hi(),
        forall|a: int|
            #[trigger] merged.has(a) <==> block.has(a) || exists|k: int|
                start <= k < start + cnt && #[trigger] pair_has(s[k], a),
        start + cnt < s.len() ==> !pair_overlaps(s[start + cnt], pair_of(merged)),
    ensures
        sorted_ranges(n),
        separated(n),
        forall|a: int| in_ranges(n, a) <==> in_ranges(s, a) || block.has(a),
{
    let m = pair_of(merged);
    // Every range from the merge point on starts at or after the merged one.
    assert forall|k: int| p <= k < s.len() implies #[trigger] s[k].0 >= m.0 by {
        if k > p {
            assert(s[p].0 < s[k].0);
        }
    }
    // What follows the merged range starts at or after its end.
    assert forall|k: int| start + cnt <= k < s.len() implies #[trigger] s[k].0 >= m.0 + m.1 by {
        assert(s[start + cnt].0 >= m.0);
        assert(s[start + cnt].0 >= m.0 + m.1);
        if k > start + cnt {
            assert(s[start + cnt].0 < s[k].0);
        }
    }
    // What comes before the merged range ends at or before its start.
    assert forall|k: int| 0 <= k < start implies #[trigger] s[k].0 + s[k].1 <= m.0 by {
        if start < p {
            assert(s[k].0 + s[k].1 <= s[start].0);
        } else {
            assert(s[p - 1].0 + s[p - 1].1 <= block.base@);
            if k < p - 1 {
                assert(s[k].0 + s[k].1 <= s[p - 1].0);
            }
        }
    }
    assert forall|i: int, j: int| 0 <= i < j < n.len() implies #[trigger] n[i].0 < #[trigger] n[j].0 by {
        if j < start {
            assert(s[i].0 < s[j].0);
        } else if j == start {
            assert(s[i].1 > 0);
        } else if i < start {
            assert(s[i].1 > 0);
            assert(s[j + cnt - 1].0 >= m.0 + m.1);
        } else if i == start {
            assert(s[j + cnt - 1].0 >= m.0 + m.1);
        } else {
            assert(s[i + cnt - 1].0 < s[j + cnt - 1].0);
        }
    }
    assert forall|i: int, j: int| 0 <= i < j < n.len() implies #[trigger] n[i].0 + n[i].1
        <= #[trigger] n[j].0 by {
        if j < start {
            assert(s[i].0 + s[i].1 <= s[j].0);
        } else if j == start {
        } else if i < start {
            assert(s[j + cnt - 1].0 >= m.0 + m.1);
        } else if i == start {
            assert(s[j + cnt - 1].0 >= m.0 + m.1);
        } else {
            assert(s[i + cnt - 1].0 + s[i + cnt - 1].1 <= s[j + cnt - 1].0);
        }
    }
    assert forall|k: int| 0 <= k < n.len() implies #[trigger] n[k].1 > 0 && n[k].0 + n[k].1
        <= UMASpace::range_end() by {
        if k < start {
            assert(s[k].1 > 0);
        } else if k > start {
            assert(s[k + cnt - 1].1 > 0);
        } else {
            assert(merged.hi() >= block.hi());
        }
    }
    assert forall|a: int| in_ranges(n, a) <==> in_ranges(s, a) || block.has(a) by {
        if in_ranges(n, a) {
            let k = choose|k: int| 0 <= k < n.len() && #[trigger] pair_has(n[k], a);
            if k < start {
                assert(pair_has(s[k], a));
            } else if k == start {
                assert(merged.has(a));
            } else {
                assert(pair_has(s[k + cnt - 1], a));
            }
        }
        if in_ranges(s, a) {
            let k = choose|k: int| 0 <= k < s.len() && #[trigger] pair_has(s[k], a);
            if k < start {
                assert(pair_has(n[k], a));
            } else if k < start + cnt {
                assert(merged.has(a));
                assert(pair_has(n[start], a));
            } else {
                assert(n[k - cnt + 1] == s[k]);
                assert(pair_has(n[k - cnt + 1], a));
            }
        }
        if block.has(a) {
            assert(merged.has(a));
            assert(pair_has(n[start], a));
        }
    }
}

/// One step of the sweep over `r1` from `i` and `r2` from `j`: what both
/// still cover is the intersection of the two current ranges together with
/// what both cover after the range that ends first (or both, when they end
/// together) is passed.
proof fn lemma_sweep_step(r1: Seq<AddrRange<UMASpace>>, r2: Seq<AddrRange<UMASpace>>, i: int, j: int)
    requires
        sweepable(r1, r2),
        0 <= i < r1.len(),
        0 <= j < r2.len(),
    ensures
        forall|a: int|
            covers_from(r1, i, a) && covers_from(r2, j, a) <==> (r1[i].has(a) && r2[j].has(a)) || (
            covers_from(
                r1,
                if r1[i].hi() <= r2[j].hi() {
                    i + 1
                } else {
                    i
                },
                a,
            ) && covers_from(
                r2,
                if r2[j].hi() <= r1[i].hi() {
                    j + 1
                } else {
                    j
                },
                a,
            )),
{
    let i2 = if r1[i].hi() <= r2[j].hi() {
        i + 1
    } else {
        i
    };
    let j2 = if r2[j].hi() <= r1[i].hi() {
        j + 1
    } else {
        j
    };
    assert forall|a: int|
        covers_from(r1, i, a) && covers_from(r2, j, a) <==> (r1[i].has(a) && r2[j].has(a)) || (
        covers_from(r1, i2, a) && covers_from(r2, j2, a)) by {
        if covers_from(r1, i, a) && covers_from(r2, j, a) {
            let k1 = choose|k: int| i <= k < r1.len() && #[trigger] r1[k].has(a);
            let k2 = choose|k: int| j <= k < r2.len() && #[trigger] r2[k].has(a);
            if k1 < i2 || k2 < j2 {
                if k1 < i2 {
                    assert(k1 == i);
                    if k2 > j {
                        assert(r2[j].hi() <= r2[k2].lo());
                    }
                    assert(k2 == j);
                } else {
                    assert(k2 == j);
                    if k1 > i {
                        assert(r1[i].lo() <= r1[k1].lo());
                    }
                    assert(r1[i].has(a));
                }
            }
        }
        if r1[i].has(a) && r2[j].has(a) {
            assert(covers_from(r1, i, a));
            assert(covers_from(r2, j, a));
        }
        if covers_from(r1, i2, a) && covers_from(r2, j2, a) {
            let k1 = choose|k: int| i2 <= k < r1.len() && #[trigger] r1[k].has(a);
            let k2 = choose|k: int| j2 <= k < r2.len() && #[trigger] r2[k].has(a);
            assert(covers_from(r1, i, a));
            assert(covers_from(r2, j, a));
        }
    }
}

/// The sweep that intersects two lists of ranges: the first sorted by start,
/// the second made of ranges that each end before the next starts. It hands
/// out the non-empty intersections one by one.
pub struct IntersectRanges {
    ranges1: Vec<AddrRange<UMASpace>>,
    ranges2: Vec<AddrRange<UMASpace>>,
    next1: usize,
    next2: usize,
}

impl IntersectRanges {
    /// The lists are fit for the sweep and the positions lie within them.
    pub closed spec fn wf(&self) -> bool {
        &&& sweepable(self.ranges1@, self.ranges2@)
        &&& self.next1 <= self.ranges1@.len()
        &&& self.next2 <= self.ranges2@.len()
    }

    /// Address `a` is still to be handed out: it lies in both lists, past
    /// the ranges already passed.
    pub closed spec fn pending(&self, a: int) -> bool {
        covers_from(self.ranges1@, self.next1 as int, a) && covers_from(
            self.ranges2@,
            self.next2 as int,
            a,
        )
    }

    /// The number of ranges not yet passed.
    pub closed spec fn left(&self) -> nat {
        ((self.ranges1@.len() - self.next1) + (self.ranges2@.len() - self.next2)) as nat
    }

    /// A sweep over the two lists, from their first ranges.
    pub fn new(ranges1: Vec<AddrRange<UMASpace>>, ranges2: Vec<AddrRange<UMASpace>>) -> (r: Self)
        requires
            sweepable(ranges1@, ranges2@),
        ensures
            r.wf(),
            forall|a: int| r.pending(a) <==> covers(ranges1@, a) && covers(ranges2@, a),
    {
        IntersectRanges { ranges1, ranges2, next1: 0, next2: 0 }
    }

    /// The next non-empty intersection, or `None` when nothing is left.
    /// What it hands out, together with what is left after, is exactly what
    /// was left before.
    pub fn next(&mut self) -> (r: Option<AddrRange<UMASpace>>)
        requires
            old(self).wf(),
        ensures
            final(self).wf(),
            forall|a: int|
                old(self).pending(a) <==> (r.is_some() && r.unwrap().has(a))
                    || final(self).pending(a),
            r.is_some() ==> r.unwrap().wf() && r.unwrap().size > 0,
            r.is_some() ==> final(self).left() < old(self).left(),
            r.is_none() ==> forall|a: int| !final(self).pending(a),
    {
        loop
            invariant
                self.wf(),
                forall|a: int| old(self).pending(a) <==> self.pending(a),
                self.left() <= old(self).left(),
            decreases self.left(),
        {
            if self.next1 >= self.ranges1.len() || self.next2 >= self.ranges2.len() {
                return None;
            }
            let r1 = self.ranges1[self.next1];
            let r2 = self.ranges2[self.next2];
            let ghost before = *self;
            proof {
                lemma_sweep_step(self.ranges1@, self.ranges2@, self.next1 as int, self.next2 as int);
            }
            let intersect = r1.range_intersect(&r2);
            if r1.end().usize() <= r2.end().usize() {
                self.next1 = self.next1 + 1;
            }
            if r2.end().usize() <= r1.end().usize() {
                self.next2 = self.next2 + 1;
            }
            proof {
                assert forall|a: int|
                    before.pending(a) <==> intersect.has(a) || self.pending(a) by {
                    assert(intersect.has(a) <==> r1.has(a) && r2.has(a));
                }
            }
            if !intersect.is_empty() {
                return Some(intersect);
            }
        }
    }
}

/// The gaps around the `reserved` ranges, which must be sorted and apart:
/// from address 0 to the first, between each two, and from the last up to
/// the last address of the space, which stays out.
fn gaps_around(reserved: &Vec<AddrRange<UMASpace>>) -> (r: Vec<AddrRange<UMASpace>>)
    requires
        forall|k: int| 0 <= k < reserved@.len() ==> #[trigger] reserved@[k].wf() && reserved@[k].size > 0,
        forall|i: int, j: int|
            0 <= i < j < reserved@.len() ==> #[trigger] reserved@[i].hi() <= #[trigger] reserved@[j].lo(),
    ensures
        forall|k: int| 0 <= k < r@.len() ==> #[trigger] r@[k].wf(),
        forall|i: int, j: int| 0 <= i < j < r@.len() ==> #[trigger] r@[i].hi() <= #[trigger] r@[j].lo(),
        forall|a: int|
            covers(r@, a) <==> 0 <= a < UMASpace::range_end() - 1 && !covers(reserved@, a),
{
    let mut gaps: Vec<AddrRange<UMASpace>> = Vec::new();
    let mut start: Addr<UMASpace> = Addr::new(UMASpace::start());
    let mut k: usize = 0;
    while k < reserved.len()
        invariant
            k <= reserved@.len(),
            forall|m: int| 0 <= m < reserved@.len() ==> (#[trigger] reserved@[m]).wf() && reserved@[m].size > 0,
            forall|m: int| 0 <= m < gaps@.len() ==> (#[trigger] gaps@[m]).hi() <= UMASpace::range_end() - 1,
            forall|i: int, j: int|
                0 <= i < j < reserved@.len() ==> #[trigger] reserved@[i].hi() <= #[trigger] reserved@[j].lo(),
            k == 0 ==> start@ == 0,
            k > 0 ==> start@ == reserved@[k - 1].hi(),
            forall|m: int| 0 <= m < gaps@.len() ==> (#[trigger] gaps@[m]).wf() && gaps@[m].hi() <= start@,
            forall|i: int, j: int| 0 <= i < j < gaps@.len() ==> #[trigger] gaps@[i].hi() <= #[trigger] gaps@[j].lo(),
            forall|a: int|
                a < start@ ==> (covers(gaps@, a) <==> 0 <= a && !exists|m: int|
                    0 <= m < k && #[trigger] reserved@[m].has(a)),
            forall|a: int| a >= start@ ==> !covers(gaps@, a),
        decreases reserved@.len() - k,
    {
        let r = reserved[k];
        proof {
            if k > 0 {
                assert(reserved@[k - 1].hi() <= reserved@[k as int].lo());
            }
        }
        let gap = AddrRange::from_bounds(start, r.start());
        let ghost old_gaps = gaps@;
        let ghost old_start = start@;
        gaps.push(gap);
        start = r.end();
        proof {
            assert(gaps@ == old_gaps.push(gap));
            assert(old_start <= r.lo());
            assert(gap.hi() <= r.lo());
            assert forall|m: int| 0 <= m < gaps@.len() implies (#[trigger] gaps@[m]).hi() <= UMASpace::range_end() - 1 by {
                if m < old_gaps.len() {
                    assert(old_gaps[m] == gaps@[m]);
                }
            }
            assert forall|m: int| 0 <= m < gaps@.len() implies (#[trigger] gaps@[m]).wf() && gaps@[m].hi() <= start@ by {
                if m < old_gaps.len() {
                    assert(old_gaps[m] == gaps@[m]);
                    assert(old_gaps[m].wf() && old_gaps[m].hi() <= old_start);
                }
            }
            assert forall|i: int, j: int| 0 <= i < j < gaps@.len() implies #[trigger] gaps@[i].hi() <= #[trigger] gaps@[j].lo() by {
                assert(gaps@[i] == old_gaps[i]);
                assert(old_gaps[i].wf() && old_gaps[i].hi() <= old_start);
                if j < old_gaps.len() {
                    assert(gaps@[j] == old_gaps[j]);
                    assert(old_gaps[i].hi() <= old_gaps[j].lo());
                }
            }
            assert forall|a: int| #![auto] covers(gaps@, a) <==> covers(old_gaps, a) || gap.has(a) by {
                if covers(gaps@, a) {
                    let m = choose|m: int| 0 <= m < gaps@.len() && #[trigger] gaps@[m].has(a);
                    if m < old_gaps.len() {
                        assert(old_gaps[m].has(a));
                    }
                }
                if covers(old_gaps, a) {
                    let m = choose|m: int| 0 <= m < old_gaps.len() && #[trigger] old_gaps[m].has(a);
                    assert(gaps@[m].has(a));
                }
                if gap.has(a) {
                    assert(gaps@[old_gaps.len() as int].has(a));
                }
            }
            assert forall|a: int|
                a < start@ implies (covers(gaps@, a) <==> 0 <= a && !exists|m: int|
                    0 <= m < k + 1 && #[trigger] reserved@[m].has(a)) by {
                if exists|m: int| 0 <= m < k + 1 && #[trigger] reserved@[m].has(a) {
                    let m = choose|m: int| 0 <= m < k + 1 && #[trigger] reserved@[m].has(a);
                    if m < k {
                        assert(reserved@[m].hi() <= old_start) by {
                            if m < k - 1 {
                                assert(reserved@[m].hi() <= reserved@[k - 1].lo());
                            }
                        }
                    }
                }
                if a < old_start {
                    assert(!gap.has(a));
                    assert(!reserved@[k as int].has(a));
                    assert((exists|m: int| 0 <= m < k + 1 && #[trigger] reserved@[m].has(a)) <==> (
                    exists|m: int| 0 <= m < k && #[trigger] reserved@[m].has(a)));
                } else if a < r.lo() {
                    assert(gap.has(a));
                    assert forall|m: int| 0 <= m < k + 1 implies !(#[trigger] reserved@[m].has(a)) by {
                        if m < k - 1 {
                            assert(reserved@[m].hi() <= reserved@[k - 1].lo());
                        }
                    }
                } else {
                    assert(reserved@[k as int].has(a));
                    assert(!gap.has(a));
                    assert(!covers(old_gaps, a));
                }
            }
        }
        k = k + 1;
    }
    let last = AddrRange::from_bounds(start, Addr::new(UMASpace::end() - 1));
    let ghost old_gaps = gaps@;
    gaps.push(last);
    proof {
        assert forall|m: int| 0 <= m < reserved@.len() implies (#[trigger] reserved@[m]).hi() <= start@ by {
            if m < reserved@.len() - 1 {
                assert(reserved@[m].hi() <= reserved@[reserved@.len() - 1].lo());
            }
        }
        assert(gaps@ == old_gaps.push(last));
        assert forall|m: int| 0 <= m < gaps@.len() implies (#[trigger] gaps@[m]).wf() by {
            if m < old_gaps.len() {
                assert(old_gaps[m] == gaps@[m]);
                assert(old_gaps[m].wf() && old_gaps[m].hi() <= start@);
            }
        }
        assert forall|i: int, j: int| 0 <= i < j < gaps@.len() implies #[trigger] gaps@[i].hi() <= #[trigger] gaps@[j].lo() by {
            assert(gaps@[i] == old_gaps[i]);
            assert(old_gaps[i].wf() && old_gaps[i].hi() <= start@);
            if j < old_gaps.len() {
                assert(gaps@[j] == old_gaps[j]);
                assert(old_gaps[i].hi() <= old_gaps[j].lo());
            }
        }
        assert forall|a: int|
            covers(gaps@, a) <==> 0 <= a < UMASpace::range_end() - 1 && !covers(reserved@, a) by {
            if covers(gaps@, a) {
                let m = choose|m: int| 0 <= m < gaps@.len() && #[trigger] gaps@[m].has(a);
                if m < old_gaps.len() {
                    assert(old_gaps[m] == gaps@[m]);
                    assert(old_gaps[m].has(a));
                    assert(covers(old_gaps, a));
                    assert(a < start@);
                    assert(old_gaps[m].hi() <= UMASpace::range_end() - 1);
                } else {
                    assert(last.has(a));
                    assert(!covers(reserved@, a)) by {
                        if covers(reserved@, a) {
                            let q = choose|q: int| 0 <= q < reserved@.len() && #[trigger] reserved@[q].has(a);
                            assert(reserved@[q].hi() <= start@);
                        }
                    }
                }
            }
            if a < start@ && covers(old_gaps, a) {
                let m = choose|m: int| 0 <= m < old_gaps.len() && #[trigger] old_gaps[m].has(a);
                assert(gaps@[m].has(a));
            }
            if 0 <= a < UMASpace::range_end() - 1 && !covers(reserved@, a) {
                if a < start@ {
                    assert(covers(old_gaps, a));
                    let m = choose|m: int| 0 <= m < old_gaps.len() && #[trigger] old_gaps[m].has(a);
                    assert(gaps@[m].has(a));
                } else {
                    assert(gaps@[old_gaps.len() as int].has(a));
                }
            }
            if covers(reserved@, a) {
                let m = choose|m: int| 0 <= m < reserved@.len() && #[trigger] reserved@[m].has(a);
                assert(a < start@);
            }
        }
    }
    gaps
}

/// The ranges of `items` as a list of ranges of the space.
fn copy_ranges(blocks: &Memblocks) -> (r: Vec<AddrRange<UMASpace>>)
    requires
        blocks.wf(),
    ensures
        r@.len() == blocks.items().len(),
        forall|k: int| 0 <= k < r@.len() ==> #[trigger] pair_of(r@[k]) == blocks.items()[k],
        forall|k: int| 0 <= k < r@.len() ==> (#[trigger] r@[k]).wf() && r@[k].size > 0,
        forall|a: int| covers(r@, a) <==> in_ranges(blocks.items(), a),
{
    let ghost s = blocks.items();
    let len = ranges_len(&blocks.data);
    let mut out: Vec<AddrRange<UMASpace>> = Vec::new();
    let mut k: usize = 0;
    while k < len
        invariant
            k <= len,
            len == s.len(),
            s == range_items(blocks.data),
            sorted_ranges(s),
            out@.len() == k,
            forall|m: int| 0 <= m < k ==> #[trigger] pair_of(out@[m]) == s[m],
        decreases len - k,
    {
        let r = range_at(&blocks.data, k);
        out.push(r);
        k = k + 1;
    }
    proof {
        assert forall|m: int| 0 <= m < out@.len() implies (#[trigger] out@[m]).wf() && out@[m].size > 0 by {
            assert(pair_of(out@[m]) == s[m]);
            assert(s[m].1 > 0);
        }
        assert forall|a: int| covers(out@, a) <==> in_ranges(s, a) by {
            if covers(out@, a) {
                let m = choose|m: int| 0 <= m < out@.len() && #[trigger] out@[m].has(a);
                assert(pair_of(out@[m]) == s[m]);
                assert(pair_has(s[m], a));
            }
            if in_ranges(s, a) {
                let m = choose|m: int| 0 <= m < s.len() && #[trigger] pair_has(s[m], a);
                assert(pair_of(out@[m]) == s[m]);
                assert(out@[m].has(a));
            }
        }
    }
    out
}

/// The boot-time record of physical memory: the ranges that can be used,
/// and the ranges reserved among them.
pub struct MemblockSystem {
    memory_blocks: Memblocks,
    reserved_blocks: Memblocks,
}

impl MemblockSystem {
    /// The usable ranges, as (base, size), sorted by start.
    pub closed spec fn memory(&self) -> Seq<(u64, u64)> {
        self.memory_blocks.items()
    }

    /// The reserved ranges, as (base, size), sorted by start.
    pub closed spec fn reserved(&self) -> Seq<(u64, u64)> {
        self.reserved_blocks.items()
    }

    /// Both lists are well formed, and the reserved ranges lie apart.
    pub closed spec fn wf(&self) -> bool {
        &&& self.memory_blocks.wf()
        &&& self.reserved_blocks.wf()
        &&& separated(self.reserved())
    }

    /// An empty record.
    pub fn init() -> (r: Self)
        ensures
            r.wf(),
            r.memory().len() == 0,
            r.reserved().len() == 0,
    {
        MemblockSystem { memory_blocks: Memblocks::new(), reserved_blocks: Memblocks::new() }
    }

    /// Adds `region` to the usable memory; an empty region is ignored.
    pub fn add(&mut self, region: AddrRange<UMASpace>)
        requires
            old(self).wf(),
            region.wf(),
            region.size > 0 ==> old(self).memory().len() < MEMBLOCKS_LEN || overlaps_any(
                old(self).memory(),
                pair_of(region),
            ),
        ensures
            final(self).wf(),
            final(self).reserved() == old(self).reserved(),
            forall|a: int|
                in_ranges(final(self).memory(), a) <==> in_ranges(old(self).memory(), a)
                    || region.has(a),
            final(self).memory().len() <= old(self).memory().len() + 1,
            region.size == 0 ==> final(self).memory() == old(self).memory(),
    {
        let ghost before = self.memory_blocks.items();
        if !region.is_empty() {
            self.memory_blocks.insert(region);
        }
        proof {
            assert forall|a: int|
                in_ranges(self.memory_blocks.items(), a) <==> in_ranges(before, a) || region.has(a) by {
                if region.size == 0 {
                    assert(!region.has(a));
                }
            }
        }
    }

    /// Marks `region` as reserved; an empty region is ignored. A non-empty
    /// region that overlaps no reserved range needs room for one more.
    pub fn reserve(&mut self, region: AddrRange<UMASpace>)
        requires
            old(self).wf(),
            region.wf(),
            region.size > 0 ==> old(self).reserved().len() < MEMBLOCKS_LEN || overlaps_any(
                old(self).reserved(),
                pair_of(region),
            ),
        ensures
            final(self).wf(),
            final(self).memory() == old(self).memory(),
            forall|a: int|
                in_ranges(final(self).reserved(), a) <==> in_ranges(old(self).reserved(), a)
                    || region.has(a),
            final(self).reserved().len() <= old(self).reserved().len() + 1,
            region.size == 0 ==> final(self).reserved() == old(self).reserved(),
    {
        let ghost before = self.reserved_blocks.items();
        if !region.is_empty() {
            self.reserved_blocks.insert(region);
        }
        proof {
            assert forall|a: int|
                in_ranges(self.reserved_blocks.items(), a) <==> in_ranges(before, a) || region.has(a) by {
                if region.size == 0 {
                    assert(!region.has(a));
                }
            }
        }
    }

    /// The range from the start of the first usable range to the end of the
    /// last one.
    pub fn managed_range(&self) -> (r: AddrRange<UMASpace>)
        requires
            self.wf(),
        ensures
            pair_of(r) == bounding(self.memory()),
    {
        self.memory_blocks.bound
    }

    /// The reserved ranges, sorted by start. Adjacent reservations may share
    /// one range.
    pub fn reserved_regions(&self) -> (r: Vec<AddrRange<UMASpace>>)
        requires
            self.wf(),
        ensures
            r@.len() == self.reserved().len(),
            forall|k: int| 0 <= k < r@.len() ==> #[trigger] pair_of(r@[k]) == self.reserved()[k],
    {
        copy_ranges(&self.reserved_blocks)
    }

    /// The usable ranges, sorted by start.
    pub fn memory_regions(&self) -> (r: Vec<AddrRange<UMASpace>>)
        requires
            self.wf(),
        ensures
            r@.len() == self.memory().len(),
            forall|k: int| 0 <= k < r@.len() ==> #[trigger] pair_of(r@[k]) == self.memory()[k],
    {
        copy_ranges(&self.memory_blocks)
    }

    /// The ranges still available: non-empty ranges that together hold
    /// exactly the usable addresses that are not reserved, short of the last
    /// address of the space.
    pub fn available_regions(&self) -> (r: Vec<AddrRange<UMASpace>>)
        requires
            self.wf(),
        ensures
            forall|k: int| 0 <= k < r@.len() ==> (#[trigger] r@[k]).wf() && r@[k].size > 0,
            forall|a: int|
                covers(r@, a) <==> in_ranges(self.memory(), a) && !in_ranges(self.reserved(), a)
                    && a < UMASpace::range_end() - 1,
    {
        let memory = copy_ranges(&self.memory_blocks);
        let reserved = copy_ranges(&self.reserved_blocks);
        proof {
            let s = self.reserved();
            assert forall|i: int, j: int| 0 <= i < j < reserved@.len() implies #[trigger] reserved@[i].hi()
                <= #[trigger] reserved@[j].lo() by {
                assert(pair_of(reserved@[i]) == s[i]);
                assert(pair_of(reserved@[j]) == s[j]);
                assert(s[i].0 + s[i].1 <= s[j].0);
            }
        }
        let gaps = gaps_around(&reserved);
        proof {
            let s = self.memory();
            assert forall|i: int, j: int| 0 <= i < j < memory@.len() implies #[trigger] memory@[i].lo()
                <= #[trigger] memory@[j].lo() by {
                assert(pair_of(memory@[i]) == s[i]);
                assert(pair_of(memory@[j]) == s[j]);
                assert(s[i].0 < s[j].0);
            }
        }
        let ghost m = memory@;
        let mut sweep = IntersectRanges::new(memory, gaps);
        let mut out: Vec<AddrRange<UMASpace>> = Vec::new();
        loop
            invariant
                sweep.wf(),
                forall|k: int| 0 <= k < out@.len() ==> (#[trigger] out@[k]).wf() && out@[k].size > 0,
                forall|a: int| covers(m, a) && covers(gaps@, a) <==> covers(out@, a) || sweep.pending(a),
            ensures
                forall|k: int| 0 <= k < out@.len() ==> (#[trigger] out@[k]).wf() && out@[k].size > 0,
                forall|a: int| covers(m, a) && covers(gaps@, a) <==> covers(out@, a),
            decreases sweep.left(),
        {
            let ghost old_out = out@;
            match sweep.next() {
                Some(x) => {
                    out.push(x);
                    proof {
                        assert forall|a: int| #![auto] covers(out@, a) <==> covers(old_out, a) || x.has(a) by {
                            if covers(out@, a) {
                                let k = choose|k: int| 0 <= k < out@.len() && #[trigger] out@[k].has(a);
                                if k < old_out.len() {
                                    assert(old_out[k].has(a));
                                }
                            }
                            if covers(old_out, a) {
                                let k = choose|k: int| 0 <= k < old_out.len() && #[trigger] old_out[k].has(a);
                                assert(out@[k].has(a));
                            }
                            if x.has(a) {
                                assert(out@[old_out.len() as int].has(a));
                            }
                        }
                        assert forall|k: int| 0 <= k < out@.len() implies (#[trigger] out@[k]).wf() && out@[k].size > 0 by {
                            if k < old_out.len() {
                                assert(out@[k] == old_out[k]);
                            }
                        }
                    }
                },
                None => {
                    break;
                },
            }
        }
        out
    }
}

/// The ranges of `regions` as (base, size).
pub open spec fn pairs_of(regions: Seq<AddrRange<UMASpace>>) -> Seq<(u64, u64)> {
    regions.map_values(|r: AddrRange<UMASpace>| pair_of(r))
}

/// The reservations made at boot, in order: the first frame, the kernel
/// image, the boot information, then each boot module.
pub open spec fn boot_reservations(
    kernel: AddrRange<UMASpace>,
    boot_info: AddrRange<UMASpace>,
    modules: Seq<AddrRange<UMASpace>>,
) -> Seq<(u64, u64)> {
    seq![(0u64, 4096u64), pair_of(kernel), pair_of(boot_info)] + pairs_of(modules)
}

/// Builds the boot-time record: the `available` areas of the memory map
/// become usable memory, then the first frame, the kernel image, the boot
/// information and each boot module are reserved. The non-empty
/// reservations must lie apart from each other.
pub fn init(
    available: &Vec<AddrRange<UMASpace>>,
    kernel: AddrRange<UMASpace>,
    boot_info: AddrRange<UMASpace>,
    modules: &Vec<AddrRange<UMASpace>>,
) -> (r: MemblockSystem)
    requires
        available@.len() <= MEMBLOCKS_LEN,
        forall|k: int| 0 <= k < available@.len() ==> (#[trigger] available@[k]).wf(),
        kernel.wf(),
        boot_info.wf(),
        modules@.len() + 3 <= MEMBLOCKS_LEN,
        forall|k: int| 0 <= k < modules@.len() ==> (#[trigger] modules@[k]).wf(),
    ensures
        r.wf(),
        forall|a: int| in_ranges(r.memory(), a) <==> covers(available@, a),
        forall|a: int|
            in_ranges(r.reserved(), a) <==> in_ranges(
                boot_reservations(kernel, boot_info, modules@),
                a,
            ),
{
    let mut mb = MemblockSystem::init();
    let mut k: usize = 0;
    while k < available.len()
        invariant
            k <= available@.len(),
            available@.len() <= MEMBLOCKS_LEN,
            forall|m: int| 0 <= m < available@.len() ==> (#[trigger] available@[m]).wf(),
            mb.wf(),
            mb.memory().len() <= k,
            mb.reserved().len() == 0,
            forall|a: int|
                in_ranges(mb.memory(), a) <==> exists|m: int| 0 <= m < k && #[trigger] available@[m].has(a),
        decreases available@.len() - k,
    {
        let region = available[k];
        mb.add(region);
        proof {
            assert forall|a: int|
                in_ranges(mb.memory(), a) <==> exists|m: int| 0 <= m < k + 1 && #[trigger] available@[m].has(a) by {
                if region.has(a) {
                    assert(available@[k as int].has(a));
                }
            }
        }
        k = k + 1;
    }
    let ghost resv = boot_reservations(kernel, boot_info, modules@);
    let ghost mem = mb.memory();
    let first_frame = AddrRange::new(Addr::new(UMASpace::start()), 4096);
    let mut k: usize = 0;
    while k < modules.len() + 3
        invariant
            k <= modules@.len() + 3,
            modules@.len() + 3 <= MEMBLOCKS_LEN,
            resv == boot_reservations(kernel, boot_info, modules@),
            resv.len() == modules@.len() + 3,
            pair_of(first_frame) == (0u64, 4096u64),
            first_frame.wf(),
            kernel.wf(),
            boot_info.wf(),
            forall|m: int| 0 <= m < modules@.len() ==> (#[trigger] modules@[m]).wf(),
            mb.wf(),
            mb.memory() == mem,
            mb.reserved().len() <= k,
            forall|a: int|
                in_ranges(mb.reserved(), a) <==> exists|m: int| 0 <= m < k && #[trigger] pair_has(resv[m], a),
        decreases modules@.len() + 3 - k,
    {
        let region = if k == 0 {
            first_frame
        } else if k == 1 {
            kernel
        } else if k == 2 {
            boot_info
        } else {
            modules[k - 3]
        };
        proof {
            assert(pair_of(region) == resv[k as int]);
        }
        mb.reserve(region);
        proof {
            assert forall|a: int|
                in_ranges(mb.reserved(), a) <==> exists|m: int| 0 <= m < k + 1 && #[trigger] pair_has(resv[m], a) by {
                if region.has(a) {
                    assert(pair_has(resv[k as int], a));
                }
            }
        }
        k = k + 1;
    }
    proof {
        assert forall|a: int| in_ranges(mb.memory(), a) <==> covers(available@, a) by {}
        assert forall|a: int| in_ranges(mb.reserved(), a) <==> in_ranges(resv, a) by {}
    }
    mb
}

} // verus!
