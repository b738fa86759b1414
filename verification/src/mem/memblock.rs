//! A boot-time memory manager that keeps free and reserved extents in two
//! sorted arrays of [`Memblock`]s.
use vstd::prelude::*;

verus! {

/// An extent of physical memory as a `(base, size)` pair.
pub type Extent = (u64, u64);

/// One past the last byte of an extent.
pub open spec fn extent_end(e: Extent) -> int {
    e.0 + e.1
}

/// Whether the extent `e` holds the address `a`.
pub open spec fn extent_holds(e: Extent, a: int) -> bool {
    e.0 <= a < extent_end(e)
}

/// Whether some extent of `s` holds the address `a`.
pub open spec fn covers(s: Seq<Extent>, a: int) -> bool {
    exists|i: int| 0 <= i < s.len() && extent_holds(#[trigger] s[i], a)
}

/// The extents are sorted by base, each fits in the 64-bit address space,
/// and consecutive extents are separated by at least one byte (so that
/// touching extents are always merged).
pub open spec fn separated(s: Seq<Extent>) -> bool {
    &&& forall|i: int| 0 <= i < s.len() ==> extent_end(#[trigger] s[i]) <= u64::MAX
    &&& forall|i: int, j: int| 0 <= i < j < s.len() ==> extent_end(#[trigger] s[i]) < (#[trigger] s[j]).0
}

/// The position at which an extent starting at `key` is inserted into the
/// sorted sequence `s`: every extent before it starts below `key`, every
/// extent from it on starts at or above `key`.
pub open spec fn is_lower_bound(s: Seq<Extent>, key: u64, p: int) -> bool {
    &&& 0 <= p <= s.len()
    &&& forall|i: int| 0 <= i < p ==> (#[trigger] s[i]).0 < key
    &&& forall|i: int| p <= i < s.len() ==> (#[trigger] s[i]).0 >= key
}

/// The insertion position of `key` in `s`.
pub open spec fn lower_bound(s: Seq<Extent>, key: u64) -> int {
    choose|p: int| is_lower_bound(s, key, p)
}

/// The result of inserting the extent `b` into the separated sequence `s`:
/// `None` if it starts where another extent starts or overlaps one;
/// otherwise the new sequence, where `b` is merged with the extents it
/// touches.
pub open spec fn merged(s: Seq<Extent>, b: Extent) -> Option<Seq<Extent>> {
    let p = lower_bound(s, b.0);
    if p < s.len() && s[p].0 == b.0 {
        None
    } else if p > 0 && b.0 - s[p - 1].0 < s[p - 1].1 {
        None
    } else if p < s.len() && s[p].0 - b.0 < b.1 {
        None
    } else {
        let merge_prev = p > 0 && extent_end(s[p - 1]) == b.0;
        let merge_next = p < s.len() && extent_end(b) == s[p].0;
        if merge_prev && merge_next {
            Some(s.update(p - 1, (s[p - 1].0, (s[p - 1].1 + b.1 + s[p].1) as u64)).remove(p))
        } else if merge_prev {
            Some(s.update(p - 1, (s[p - 1].0, (s[p - 1].1 + b.1) as u64)))
        } else if merge_next {
            Some(s.update(p, (b.0, (b.1 + s[p].1) as u64)))
        } else {
            Some(s.insert(p, b))
        }
    }
}

/// An extent of memory used in [`BootMemoryManager`]. A present `Memblock`
/// orders before a not present one.
#[derive(Debug, Clone, Copy)]
pub struct Memblock {
    is_present: usize,
    base: u64,
    size: u64,
}

impl Memblock {
    /// The extent described by the block.
    pub closed spec fn extent(self) -> Extent {
        (self.base, self.size)
    }

    /// Whether the block is present.
    pub closed spec fn present(self) -> bool {
        self.is_present != 0
    }

    /// Returns true if the block is not present.
    pub fn is_empty(&self) -> (r: bool)
        ensures
            r == !self.present(),
    {
        self.is_present == 0
    }

    /// A block that is not present.
    pub fn empty() -> (r: Self)
        ensures
            !r.present(),
            r.extent() == (0u64, 0u64),
    {
        Self { is_present: 0, base: 0, size: 0 }
    }

    /// A present block at `base` of `size` bytes.
    pub fn new(base: u64, size: u64) -> (r: Self)
        ensures
            r.present(),
            r.extent() == (base, size),
    {
        Self { is_present: 1, base, size }
    }

    /// The base address of the block.
    pub fn base(&self) -> (r: u64)
        ensures
            r == self.extent().0,
    {
        self.base
    }

    /// The size of the block in bytes.
    pub fn size(&self) -> (r: u64)
        ensures
            r == self.extent().1,
    {
        self.size
    }
}

/// A fixed-capacity array of `Memblock`s: the present blocks come first,
/// sorted by base and separated; the remaining slots are not present.
pub struct Memblocks {
    data: Vec<Memblock>,
    len: usize,
}

impl Memblocks {
    /// The present extents, in order.
    pub closed spec fn view(&self) -> Seq<Extent> {
        Seq::new(self.len as nat, |i: int| self.data@[i].extent())
    }

    /// The number of slots.
    pub closed spec fn capacity(&self) -> nat {
        self.data@.len()
    }

    /// The structural invariant.
    pub closed spec fn wf(&self) -> bool {
        &&& self.len <= self.data@.len()
        &&& forall|i: int| 0 <= i < self.len ==> (#[trigger] self.data@[i]).present()
        &&& forall|i: int| self.len <= i < self.data@.len() ==> !(#[trigger] self.data@[i]).present()
        &&& separated(self@)
    }

    /// Creates a `Memblocks` with `capacity` slots, none of them present.
    pub fn new(capacity: usize) -> (r: Self)
        ensures
            r.wf(),
            r@ == Seq::<Extent>::empty(),
            r.capacity() == capacity,
    {
        let mut data: Vec<Memblock> = Vec::new();
        let mut i: usize = 0;
        while i < capacity
            invariant
                i <= capacity,
                data@.len() == i,
                forall|k: int| 0 <= k < i ==> !(#[trigger] data@[k]).present(),
            decreases capacity - i,
        {
            data.push(Memblock::empty());
            i = i + 1;
        }
        let r = Self { data, len: 0 };
        assert(r@ =~= Seq::<Extent>::empty());
        r
    }

    /// The number of present blocks.
    pub fn len(&self) -> (r: usize)
        requires
            self.wf(),
        ensures
            r == self@.len(),
    {
        self.len
    }

    /// The number of slots.
    pub fn capacity_len(&self) -> (r: usize)
        ensures
            r == self.capacity(),
    {
        self.data.len()
    }

    /// Binary search for the present block starting at `key`: `Ok` with its
    /// index if there is one, otherwise `Err` with the insertion position.
    fn search(&self, key: u64) -> (r: Result<usize, usize>)
        requires
            self.wf(),
        ensures
            match r {
                Ok(i) => i < self@.len() && self@[i as int].0 == key && is_lower_bound(
                    self@,
                    key,
                    i as int,
                ),
                Err(p) => is_lower_bound(self@, key, p as int) && !(p < self@.len() && self@[p as int].0 == key),
            },
    {
        let ghost s = self@;
        let mut lo: usize = 0;
        let mut hi: usize = self.len;
        while lo < hi
            invariant
                self.wf(),
                s == self@,
                0 <= lo <= hi <= self.len,
                forall|i: int| 0 <= i < lo ==> (#[trigger] s[i]).0 < key,
                forall|i: int| hi <= i < s.len() ==> (#[trigger] s[i]).0 > key,
            decreases hi - lo,
        {
            let mid = lo + (hi - lo) / 2;
            let b = self.data[mid].base;
            assert(s[mid as int].0 == b);
            if b == key {
                proof {
                    assert forall|i: int| 0 <= i < mid implies (#[trigger] s[i]).0 < key by {
                        assert(extent_end(s[i]) < s[mid as int].0);
                    }
                    assert forall|i: int| mid <= i < s.len() implies (#[trigger] s[i]).0 >= key by {
                        if i > mid {
                            assert(extent_end(s[mid as int]) < s[i].0);
                        }
                    }
                }
                return Ok(mid);
            } else if b < key {
                proof {
                    assert forall|i: int| 0 <= i < mid + 1 implies (#[trigger] s[i]).0 < key by {
                        if i < mid {
                            assert(extent_end(s[i]) < s[mid as int].0);
                        }
                    }
                }
                lo = mid + 1;
            } else {
                proof {
                    assert forall|i: int| mid <= i < s.len() implies (#[trigger] s[i]).0 > key by {
                        if i > mid {
                            assert(extent_end(s[mid as int]) < s[i].0);
                        }
                    }
                }
                hi = mid;
            }
        }
        Err(lo)
    }
}

impl Memblocks {
    /// Inserts `block`, merging it with the blocks it touches. Returns false
    /// if the array is full, or if `block` starts where a present block
    /// starts or overlaps one. Inserting a block that is not present is a
    /// no-op that succeeds.
    pub fn put_block(&mut self, block: Memblock) -> (r: bool)
        requires
            old(self).wf(),
            block.present() ==> extent_end(block.extent()) <= u64::MAX,
        ensures
            final(self).wf(),
            final(self).capacity() == old(self).capacity(),
            old(self)@.len() == old(self).capacity() ==> !r && final(self)@ == old(self)@,
            old(self)@.len() < old(self).capacity() && !block.present() ==> r && final(self)@
                == old(self)@,
            old(self)@.len() < old(self).capacity() && block.present() ==> match merged(
                old(self)@,
                block.extent(),
            ) {
                None => !r && final(self)@ == old(self)@,
                Some(n) => r && final(self)@ == n,
            },
    {
        // Memblocks is full
        if self.len == self.data.len() {
            return false;
        }
        // Inserting empty block is no-op
        if block.is_empty() {
            return true;
        }
        let ghost s = self@;
        let ghost b = block.extent();
        let pivot = match self.search(block.base) {
            Ok(i) => {
                proof {
                    lemma_lower_bound_unique(s, block.base, i as int);
                }
                // Inserting overlapping block
                return false;
            },
            Err(p) => p,
        };
        proof {
            lemma_lower_bound_unique(s, block.base, pivot as int);
        }
        // Check if block overlap or merge with prev or next block
        let mut merge_prev = false;
        let mut merge_next = false;
        if pivot > 0 {
            let prev = self.data[pivot - 1];
            assert(prev.extent() == s[pivot - 1]);
            if block.base - prev.base < prev.size {
                return false;
            }
            if block.base - prev.base == prev.size {
                merge_prev = true;
            }
        }
        let next = self.data[pivot];
        if !next.is_empty() {
            assert(next.extent() == s[pivot as int]);
            if next.base - block.base < block.size {
                return false;
            }
            if next.base - block.base == block.size {
                merge_next = true;
            }
        }
        assert(merged(s, b).is_some());
        let ghost n = merged(s, b).unwrap();
        if !merge_prev && !merge_next {
            self.data.remove(self.len);
            self.data.insert(pivot, block);
            self.len = self.len + 1;
            assert(self@ =~= n);
        } else if !merge_prev && merge_next {
            let size = next.size + block.size;
            self.data[pivot] = Memblock { is_present: 1, base: block.base, size };
            assert(self@ =~= n);
        } else if merge_prev && !merge_next {
            let prev = self.data[pivot - 1];
            self.data[pivot - 1] = Memblock { is_present: 1, base: prev.base, size: prev.size + block.size };
            assert(self@ =~= n);
        } else {
            let prev = self.data[pivot - 1];
            let size = prev.size + next.size + block.size;
            self.data[pivot - 1] = Memblock { is_present: 1, base: prev.base, size };
            let ghost d1 = self.data@;
            self.data.remove(pivot);
            let ghost d2 = self.data@;
            self.data.insert(self.len - 1, Memblock::empty());
            self.len = self.len - 1;
            assert(self@ =~= n);
            proof {
                let d = old(self).data@;
                assert forall|k: int| 0 <= k < self.len implies (#[trigger] self.data@[k]).present()
                    by {
                    assert(self.data@[k] == d2[k]);
                    if k < pivot {
                        assert(d2[k] == d1[k]);
                    } else {
                        assert(d2[k] == d1[k + 1]);
                    }
                }
                assert forall|k: int| self.len <= k < self.data@.len() implies !(
                #[trigger] self.data@[k]).present() by {
                    if k > self.len {
                        assert(self.data@[k] == d2[k - 1]);
                        assert(d2[k - 1] == d1[k]);
                        assert(d1[k] == d[k]);
                    }
                }
            }
        }
        proof {
            lemma_merged_separated(s, b, pivot as int);
            let d = old(self).data@;
            assert forall|k: int| 0 <= k < self.len implies (#[trigger] self.data@[k]).present()
                by {
                if !merge_prev && !merge_next {
                    if k != pivot {
                        if k < pivot {
                            assert(self.data@[k] == d[k]);
                        } else {
                            assert(self.data@[k] == d[k - 1]);
                        }
                    }
                } else if !(merge_prev && merge_next) {
                    assert(k == pivot || k == pivot - 1 || self.data@[k] == d[k]);
                }
            }
            assert forall|k: int| self.len <= k < self.data@.len() implies !(
            #[trigger] self.data@[k]).present() by {
                if !(merge_prev && merge_next) {
                    assert(self.data@[k] == d[k]);
                }
            }
        }
        true
    }
}

/// Whether the extent `e` holds the whole range of `size` bytes at `base`.
pub open spec fn holds_range(e: Extent, base: u64, size: u64) -> bool {
    e.0 <= base && base + size <= extent_end(e)
}

/// The sequence after taking the range of `size` bytes at `base` out of
/// extent `i`: what lies below the range and what lies above it stay, each
/// where it is not empty.
pub open spec fn carve(s: Seq<Extent>, i: int, base: u64, size: u64) -> Seq<Extent> {
    let e = s[i];
    let lo: Extent = (e.0, (base - e.0) as u64);
    let hi: Extent = ((base + size) as u64, (extent_end(e) - base - size) as u64);
    if lo.1 > 0 && hi.1 > 0 {
        s.update(i, lo).insert(i + 1, hi)
    } else if lo.1 > 0 {
        s.update(i, lo)
    } else if hi.1 > 0 {
        s.update(i, hi)
    } else {
        s.remove(i)
    }
}

impl Memblocks {
    /// The index of the present block holding the whole range of `size`
    /// bytes at `base`, if any.
    fn find_holding(&self, base: u64, size: u64) -> (r: Option<usize>)
        requires
            self.wf(),
        ensures
            match r {
                Some(i) => i < self@.len() && holds_range(self@[i as int], base, size),
                None => forall|i: int| 0 <= i < self@.len() ==> !holds_range(#[trigger] self@[i], base, size),
            },
    {
        let mut idx: usize = 0;
        while idx < self.len
            invariant
                self.wf(),
                idx <= self@.len(),
                forall|i: int| 0 <= i < idx ==> !holds_range(#[trigger] self@[i], base, size),
            decreases self@.len() - idx,
        {
            let b = self.data[idx];
            assert(b.extent() == self@[idx as int]);
            assert(extent_end(self@[idx as int]) <= u64::MAX);
            if b.base <= base && size <= b.size && base - b.base <= b.size - size {
                return Some(idx);
            }
            idx = idx + 1;
        }
        None
    }

    /// Takes the range of `size` bytes at `base` out of block `i`, which
    /// holds it: the block keeps what lies below the range, and what lies
    /// above it becomes a block of its own.
    fn carve_block(&mut self, i: usize, base: u64, size: u64)
        requires
            old(self).wf(),
            i < old(self)@.len(),
            size > 0,
            holds_range(old(self)@[i as int], base, size),
            old(self)@.len() < old(self).capacity(),
        ensures
            final(self).wf(),
            final(self).capacity() == old(self).capacity(),
            final(self)@ == carve(old(self)@, i as int, base, size),
    {
        let ghost s = self@;
        let ghost d = self.data@;
        let b = self.data[i];
        assert(b.extent() == s[i as int]);
        assert(extent_end(s[i as int]) <= u64::MAX);
        let lo_size = base - b.base;
        let hi_size = b.size - lo_size - size;
        let hi_base = base + size;
        let ghost n = carve(s, i as int, base, size);
        if lo_size > 0 && hi_size > 0 {
            self.data.set(i, Memblock { is_present: 1, base: b.base, size: lo_size });
            let ghost d1 = self.data@;
            self.data.remove(self.len);
            let ghost d2 = self.data@;
            self.data.insert(i + 1, Memblock { is_present: 1, base: hi_base, size: hi_size });
            let cap = self.data.len();
            assert(self.len < cap);
            self.len = self.len + 1;
            proof {
                assert forall|k: int| 0 <= k < self.len implies #[trigger] self.data@[k] == if k <= i {
                    d1[k]
                } else if k == i + 1 {
                    Memblock { is_present: 1, base: hi_base, size: hi_size }
                } else {
                    d[k - 1]
                } by {
                    if k <= i {
                        assert(self.data@[k] == d2[k]);
                    } else if k > i + 1 {
                        assert(self.data@[k] == d2[k - 1]);
                        assert(d2[k - 1] == d1[k - 1]);
                    }
                }
                assert(self@ =~= n);
                assert forall|k: int| self.len <= k < self.data@.len() implies !(
                #[trigger] self.data@[k]).present() by {
                    assert(self.data@[k] == d2[k - 1]);
                    assert(d2[k - 1] == d1[k]);
                    assert(d1[k] == d[k]);
                }
            }
        } else if lo_size > 0 {
            self.data.set(i, Memblock { is_present: 1, base: b.base, size: lo_size });
            proof {
                assert(self@ =~= n);
                assert forall|k: int| 0 <= k < self.len implies (#[trigger] self.data@[k]).present() by {
                    assert(k == i || self.data@[k] == d[k]);
                }
                assert forall|k: int| self.len <= k < self.data@.len() implies !(
                #[trigger] self.data@[k]).present() by {
                    assert(self.data@[k] == d[k]);
                }
            }
        } else if hi_size > 0 {
            self.data.set(i, Memblock { is_present: 1, base: hi_base, size: hi_size });
            proof {
                assert(self@ =~= n);
                assert forall|k: int| 0 <= k < self.len implies (#[trigger] self.data@[k]).present() by {
                    assert(k == i || self.data@[k] == d[k]);
                }
                assert forall|k: int| self.len <= k < self.data@.len() implies !(
                #[trigger] self.data@[k]).present() by {
                    assert(self.data@[k] == d[k]);
                }
            }
        } else {
            self.data.set(i, Memblock::empty());
            let ghost d1 = self.data@;
            self.data.remove(i);
            let ghost d2 = self.data@;
            self.data.insert(self.len - 1, Memblock::empty());
            self.len = self.len - 1;
            proof {
                assert forall|k: int| 0 <= k < self.len implies #[trigger] self.data@[k] == if k < i {
                    d[k]
                } else {
                    d[k + 1]
                } by {
                    assert(self.data@[k] == d2[k]);
                    if k < i {
                        assert(d2[k] == d1[k]);
                    } else {
                        assert(d2[k] == d1[k + 1]);
                    }
                }
                assert(self@ =~= n);
                assert forall|k: int| self.len <= k < self.data@.len() implies !(
                #[trigger] self.data@[k]).present() by {
                    if k > self.len {
                        assert(self.data@[k] == d2[k - 1]);
                        assert(d2[k - 1] == d1[k]);
                        assert(d1[k] == d[k]);
                    }
                }
            }
        }
        proof {
            let n = self@;
            assert forall|x: int, y: int| 0 <= x < y < n.len() implies extent_end(#[trigger] n[x])
                < (#[trigger] n[y]).0 by {
                assert(extent_end(s[i as int]) <= u64::MAX);
                if lo_size > 0 && hi_size > 0 {
                    let x0 = if x <= i { x } else { x - 1 };
                    let y0 = if y <= i { y } else { y - 1 };
                    if x0 != y0 {
                        assert(extent_end(s[x0]) < s[y0].0);
                    }
                } else if lo_size > 0 || hi_size > 0 {
                    assert(extent_end(s[x]) < s[y].0);
                } else {
                    let x0 = if x < i { x } else { x + 1 };
                    let y0 = if y < i { y } else { y + 1 };
                    assert(extent_end(s[x0]) < s[y0].0);
                }
            }
            assert forall|x: int| 0 <= x < n.len() implies extent_end(#[trigger] n[x]) <= u64::MAX by {
                if lo_size > 0 && hi_size > 0 {
                    if x > i + 1 {
                        assert(n[x] == s[x - 1]);
                    }
                } else if lo_size > 0 || hi_size > 0 {
                } else {
                    if x >= i {
                        assert(n[x] == s[x + 1]);
                    }
                }
            }
        }
    }
}

/// Whether a block of `size` bytes aligned to `align` can be cut off the top
/// of the extent `e`.
pub open spec fn fits(e: Extent, size: u64, align: u64) -> bool {
    e.1 >= size && cut_base(e, size, align) >= e.0
}

/// The highest `align`-aligned base at which `size` bytes fit at the top of
/// `e`.
pub open spec fn cut_base(e: Extent, size: u64, align: u64) -> int {
    let top = e.0 + (e.1 - size);
    top - top % (align as int)
}

/// The extent cut off the top of `e` for the request.
pub open spec fn cut_extent(e: Extent, size: u64, align: u64) -> Extent {
    (cut_base(e, size, align) as u64, (extent_end(e) - cut_base(e, size, align)) as u64)
}

/// `i` is the first index in `lo..hi` whose extent fits the request.
pub open spec fn is_first_fit(s: Seq<Extent>, lo: int, hi: int, i: int, size: u64, align: u64) -> bool {
    &&& lo <= i < hi
    &&& fits(s[i], size, align)
    &&& forall|j: int| lo <= j < i ==> !fits(#[trigger] s[j], size, align)
}

/// No extent in `lo..hi` fits the request.
pub open spec fn none_fits(s: Seq<Extent>, lo: int, hi: int, size: u64, align: u64) -> bool {
    forall|j: int| lo <= j < hi ==> !fits(#[trigger] s[j], size, align)
}

/// The extent chosen by a cut: the first fitting one from `start` on, or
/// else the first fitting one before `start`.
pub open spec fn is_chosen(s: Seq<Extent>, start: int, i: int, size: u64, align: u64) -> bool {
    ||| is_first_fit(s, start, s.len() as int, i, size, align)
    ||| none_fits(s, start, s.len() as int, size, align) && is_first_fit(s, 0, start, i, size, align)
}

/// The sequence after cutting the top of extent `i` off at `base`: the
/// extent keeps its lower part, or is removed if nothing is left of it.
pub open spec fn cut_at(s: Seq<Extent>, i: int, base: int) -> Seq<Extent> {
    if base - s[i].0 != 0 {
        s.update(i, (s[i].0, (base - s[i].0) as u64))
    } else {
        s.remove(i)
    }
}

/// Where a cut starts looking: at the insertion position of `at`, or at the
/// first extent.
pub open spec fn start_index(s: Seq<Extent>, at: Option<u64>) -> int {
    match at {
        Some(x) => lower_bound(s, x),
        None => 0,
    }
}

/// The outcome of a cut on the sequence `s`: `r` is the block returned and
/// `n` the sequence afterwards.
pub open spec fn cut_outcome(
    s: Seq<Extent>,
    at: Option<u64>,
    size: u64,
    align: u64,
    r: Option<Memblock>,
    n: Seq<Extent>,
) -> bool {
    let start = start_index(s, at);
    match r {
        None => none_fits(s, 0, s.len() as int, size, align) && n == s,
        Some(m) => exists|i: int|
            {
                &&& #[trigger] is_chosen(s, start, i, size, align)
                &&& m.present()
                &&& m.extent() == cut_extent(s[i], size, align)
                &&& n == cut_at(s, i, cut_base(s[i], size, align))
            },
    }
}

impl Memblocks {
    /// The first index in `lo..hi` whose block fits the request.
    fn find_fit(&self, lo: usize, hi: usize, size: u64, align: u64) -> (r: Option<(usize, u64)>)
        requires
            self.wf(),
            lo <= hi <= self@.len(),
            align > 0,
        ensures
            match r {
                None => none_fits(self@, lo as int, hi as int, size, align),
                Some((i, base)) => is_first_fit(self@, lo as int, hi as int, i as int, size, align)
                    && base == cut_base(self@[i as int], size, align),
            },
    {
        let mut idx = lo;
        while idx < hi
            invariant
                self.wf(),
                lo <= idx <= hi <= self@.len(),
                align > 0,
                none_fits(self@, lo as int, idx as int, size, align),
            decreases hi - idx,
        {
            let b = self.data[idx];
            assert(b.extent() == self@[idx as int]);
            if b.size >= size {
                assert(extent_end(self@[idx as int]) <= u64::MAX);
                let unaligned_base = b.base + (b.size - size);
                assert(unaligned_base % align <= unaligned_base) by (nonlinear_arith)
                    requires
                        align > 0,
                ;
                let aligned_base = unaligned_base - unaligned_base % align;
                if aligned_base >= b.base {
                    return Some((idx, aligned_base));
                }
            }
            idx = idx + 1;
        }
        None
    }

    /// Finds a block that can hold `size` bytes aligned to `align` and cuts
    /// such a block off its top. With `at`, the search starts at the first
    /// block whose base is at or above `at` and wraps around; without it,
    /// the search starts at the first block.
    pub fn cut_block(&mut self, size: u64, align: u64, at: Option<u64>) -> (r: Option<Memblock>)
        requires
            old(self).wf(),
            align > 0,
            at.is_some() ==> at.unwrap() < u64::MAX,
        ensures
            final(self).wf(),
            final(self).capacity() == old(self).capacity(),
            cut_outcome(old(self)@, at, size, align, r, final(self)@),
    {
        let ghost s = self@;
        let found = match at {
            Some(x) => {
                let at_idx = match self.search(x) {
                    Ok(i) => i,
                    Err(p) => p,
                };
                proof {
                    lemma_lower_bound_unique(s, x, at_idx as int);
                }
                match self.find_fit(at_idx, self.len, size, align) {
                    Some(f) => Some(f),
                    None => self.find_fit(0, at_idx, size, align),
                }
            },
            None => self.find_fit(0, self.len, size, align),
        };
        let (cut_idx, found_base) = match found {
            Some(f) => f,
            None => {
                assert(none_fits(s, 0, s.len() as int, size, align));
                return None;
            },
        };
        let b = self.data[cut_idx];
        assert(b.extent() == s[cut_idx as int]);
        let residual_size = found_base - b.base;
        let base = found_base;
        let cut_size = b.size - residual_size;
        let ghost d = self.data@;
        if residual_size != 0 {
            self.data[cut_idx] = Memblock { is_present: b.is_present, base: b.base, size: residual_size };
            proof {
                assert(self@ =~= cut_at(s, cut_idx as int, found_base as int));
                assert forall|k: int| 0 <= k < self.len implies (#[trigger] self.data@[k]).present() by {
                    assert(k == cut_idx || self.data@[k] == d[k]);
                }
                assert forall|k: int| self.len <= k < self.data@.len() implies !(
                #[trigger] self.data@[k]).present() by {
                    assert(self.data@[k] == d[k]);
                }
                let n = self@;
                assert forall|i: int, j: int| 0 <= i < j < n.len() implies extent_end(#[trigger] n[i])
                    < (#[trigger] n[j]).0 by {
                    assert(extent_end(s[i]) < s[j].0);
                }
            }
        } else {
            self.data[cut_idx] = Memblock::empty();
            let ghost d1 = self.data@;
            self.data.remove(cut_idx);
            let ghost d2 = self.data@;
            self.data.insert(self.len - 1, Memblock::empty());
            self.len = self.len - 1;
            proof {
                assert(self@ =~= cut_at(s, cut_idx as int, found_base as int));
                assert forall|k: int| 0 <= k < self.len implies (#[trigger] self.data@[k]).present() by {
                    assert(self.data@[k] == d2[k]);
                    if k < cut_idx {
                        assert(d2[k] == d[k]);
                    } else {
                        assert(d2[k] == d1[k + 1]);
                        assert(d1[k + 1] == d[k + 1]);
                    }
                }
                assert forall|k: int| self.len <= k < self.data@.len() implies !(
                #[trigger] self.data@[k]).present() by {
                    if k > self.len {
                        assert(self.data@[k] == d2[k - 1]);
                        assert(d2[k - 1] == d1[k]);
                        assert(d1[k] == d[k]);
                    }
                }
                let n = self@;
                assert forall|i: int, j: int| 0 <= i < j < n.len() implies extent_end(#[trigger] n[i])
                    < (#[trigger] n[j]).0 by {
                    let i0 = if i < cut_idx { i } else { i + 1 };
                    let j0 = if j < cut_idx { j } else { j + 1 };
                    assert(n[i] == s[i0] && n[j] == s[j0]);
                    assert(extent_end(s[i0]) < s[j0].0);
                }
            }
        }
        let m = Memblock::new(base, cut_size);
        assert(m.extent() == cut_extent(s[cut_idx as int], size, align));
        assert(is_chosen(s, start_index(s, at), cut_idx as int, size, align));
        assert(cut_outcome(s, at, size, align, Some(m), self@));
        Some(m)
    }

    /// Removes and returns the present block starting at `base`, if any.
    pub fn take_block(&mut self, base: u64) -> (r: Option<Memblock>)
        requires
            old(self).wf(),
            base < u64::MAX,
        ensures
            final(self).wf(),
            final(self).capacity() == old(self).capacity(),
            match r {
                None => final(self)@ == old(self)@ && forall|i: int|
                    0 <= i < old(self)@.len() ==> (#[trigger] old(self)@[i]).0 != base,
                Some(m) => exists|i: int|
                    0 <= i < old(self)@.len() && old(self)@[i].0 == base && m.present() && m.extent()
                        == old(self)@[i] && final(self)@ == old(self)@.remove(i),
            },
    {
        let ghost s = self@;
        let idx = match self.search(base) {
            Ok(i) => i,
            Err(_) => {
                return None;
            },
        };
        let ret = self.data[idx];
        let ghost d = self.data@;
        self.data[idx] = Memblock::empty();
        let ghost d1 = self.data@;
        self.data.remove(idx);
        let ghost d2 = self.data@;
        self.data.insert(self.len - 1, Memblock::empty());
        self.len = self.len - 1;
        proof {
            assert(self@ =~= s.remove(idx as int));
            assert forall|k: int| 0 <= k < self.len implies (#[trigger] self.data@[k]).present() by {
                assert(self.data@[k] == d2[k]);
                if k < idx {
                    assert(d2[k] == d[k]);
                } else {
                    assert(d2[k] == d1[k + 1]);
                    assert(d1[k + 1] == d[k + 1]);
                }
            }
            assert forall|k: int| self.len <= k < self.data@.len() implies !(
            #[trigger] self.data@[k]).present() by {
                if k > self.len {
                    assert(self.data@[k] == d2[k - 1]);
                    assert(d2[k - 1] == d1[k]);
                    assert(d1[k] == d[k]);
                }
            }
            let n = self@;
            assert forall|i: int, j: int| 0 <= i < j < n.len() implies extent_end(#[trigger] n[i]) < (
            #[trigger] n[j]).0 by {
                let i0 = if i < idx { i } else { i + 1 };
                let j0 = if j < idx { j } else { j + 1 };
                assert(n[i] == s[i0] && n[j] == s[j0]);
                assert(extent_end(s[i0]) < s[j0].0);
            }
        }
        Some(ret)
    }
}

/// Merging an extent into a separated sequence keeps it separated.
pub proof fn lemma_merged_separated(s: Seq<Extent>, b: Extent, p: int)
    requires
        separated(s),
        is_lower_bound(s, b.0, p),
        extent_end(b) <= u64::MAX,
        merged(s, b).is_some(),
    ensures
        separated(merged(s, b).unwrap()),
{
    lemma_lower_bound_unique(s, b.0, p);
    let n = merged(s, b).unwrap();
    assert forall|i: int| 0 <= i < n.len() implies extent_end(#[trigger] n[i]) <= u64::MAX by {
        if p < s.len() {
            assert(extent_end(s[p]) <= u64::MAX);
        }
        if p > 0 {
            assert(extent_end(s[p - 1]) <= u64::MAX);
        }
        if i > 0 {
            assert(extent_end(s[i - 1]) <= u64::MAX);
        }
        if i + 1 < s.len() {
            assert(extent_end(s[i + 1]) <= u64::MAX);
        }
        if i < s.len() {
            assert(extent_end(s[i]) <= u64::MAX);
        }
    }
    assert forall|i: int, j: int| 0 <= i < j < n.len() implies extent_end(#[trigger] n[i]) < (
    #[trigger] n[j]).0 by {
        if p > 0 {
            assert(extent_end(s[p - 1]) <= b.0);
        }
        if p < s.len() {
            assert(extent_end(b) <= s[p].0);
        }
        if i < s.len() && j < s.len() {
            assert(extent_end(s[i]) < s[j].0);
        }
        if i + 1 < s.len() && j + 1 < s.len() {
            assert(extent_end(s[i + 1]) < s[j + 1].0);
        }
        if i < s.len() && j + 1 < s.len() {
            assert(extent_end(s[i]) < s[j + 1].0);
        }
        if i + 1 < s.len() && j < s.len() && i + 1 < j {
            assert(extent_end(s[i + 1]) < s[j].0);
        }
        if i > 0 && j < s.len() {
            assert(extent_end(s[i - 1]) < s[j].0);
        }
        if i < s.len() && i + 1 < s.len() {
            assert(extent_end(s[i]) < s[i + 1].0);
        }
        if j < s.len() && j + 1 < s.len() {
            assert(extent_end(s[j]) < s[j + 1].0);
        }
    }
}

/// A separated sequence has a lower bound for every key.
pub proof fn lemma_lower_bound_exists(s: Seq<Extent>, key: u64)
    requires
        separated(s),
    ensures
        is_lower_bound(s, key, lower_bound(s, key)),
    decreases s.len(),
{
    if s.len() == 0 {
        assert(is_lower_bound(s, key, 0));
    } else {
        let t = s.drop_last();
        assert(separated(t)) by {
            assert forall|i: int| 0 <= i < t.len() implies extent_end(#[trigger] t[i]) <= u64::MAX by {
                assert(t[i] == s[i]);
            }
            assert forall|i: int, j: int| 0 <= i < j < t.len() implies extent_end(#[trigger] t[i])
                < (#[trigger] t[j]).0 by {
                assert(t[i] == s[i] && t[j] == s[j]);
            }
        }
        lemma_lower_bound_exists(t, key);
        let p = lower_bound(t, key);
        if s.last().0 < key {
            assert forall|i: int| 0 <= i < s.len() implies (#[trigger] s[i]).0 < key by {
                if i < s.len() - 1 {
                    assert(extent_end(s[i]) < s[s.len() - 1].0);
                }
            }
            assert(is_lower_bound(s, key, s.len() as int));
        } else {
            assert forall|i: int| 0 <= i < p implies (#[trigger] s[i]).0 < key by {
                assert(s[i] == t[i]);
            }
            assert forall|i: int| p <= i < s.len() implies (#[trigger] s[i]).0 >= key by {
                if i < s.len() - 1 {
                    assert(s[i] == t[i]);
                }
            }
            assert(is_lower_bound(s, key, p));
        }
    }
}

/// The lower bound of a sorted sequence is unique.
pub proof fn lemma_lower_bound_unique(s: Seq<Extent>, key: u64, p: int)
    requires
        is_lower_bound(s, key, p),
    ensures
        lower_bound(s, key) == p,
{
    let q = lower_bound(s, key);
    assert(is_lower_bound(s, key, q));
    if q < p {
        assert(s[q].0 >= key);
    } else if p < q {
        assert(s[p].0 >= key);
    }
}

} // verus!

verus! {

/// Some extent of `s` meets `e`.
pub open spec fn meets_any(s: Seq<Extent>, e: Extent) -> bool {
    exists|i: int| 0 <= i < s.len() && #[trigger] extents_meet(s[i], e)
}

/// The record after reserving `e`: `e` is added at the end unless it is
/// empty.
pub open spec fn with_reservation(s: Seq<Extent>, e: Extent) -> Seq<Extent> {
    if e.1 > 0 {
        s.push(e)
    } else {
        s
    }
}

/// The allocations a boot memory manager has handed out, each kept as an
/// extent of its own, in the order they were made.
pub struct Reservations {
    data: Vec<Extent>,
    cap: usize,
}

impl Reservations {
    /// The reserved extents, in the order they were added.
    pub closed spec fn view(&self) -> Seq<Extent> {
        self.data@
    }

    /// How many extents can be kept.
    pub closed spec fn capacity(&self) -> nat {
        self.cap as nat
    }

    /// At most as many extents as the capacity, none empty, each within
    /// the 64-bit space, no two meeting.
    pub open spec fn wf(&self) -> bool {
        &&& self@.len() <= self.capacity()
        &&& forall|i: int| 0 <= i < self@.len() ==> (#[trigger] self@[i]).1 > 0 && extent_end(self@[i]) <= u64::MAX
        &&& forall|i: int, j: int|
            0 <= i < self@.len() && 0 <= j < self@.len() && i != j ==> !extents_meet(
                #[trigger] self@[i],
                #[trigger] self@[j],
            )
    }

    /// An empty record that can keep `cap` extents.
    pub fn new(cap: usize) -> (r: Self)
        ensures
            r.wf(),
            r@ == Seq::<Extent>::empty(),
            r.capacity() == cap,
    {
        Reservations { data: Vec::new(), cap }
    }

    /// The number of extents kept.
    pub fn len(&self) -> (r: usize)
        ensures
            r == self@.len(),
    {
        self.data.len()
    }

    /// Records `e`: an empty extent is not kept; a non-empty one is added
    /// at the end unless the record is full or `e` meets a kept extent.
    pub fn add(&mut self, e: Extent) -> (r: bool)
        requires
            old(self).wf(),
            extent_end(e) <= u64::MAX,
        ensures
            final(self).wf(),
            final(self).capacity() == old(self).capacity(),
            r == (e.1 == 0 || (old(self)@.len() < old(self).capacity() && !meets_any(old(self)@, e))),
            r ==> final(self)@ == with_reservation(old(self)@, e),
            !r ==> final(self)@ == old(self)@,
    {
        if e.1 == 0 {
            return true;
        }
        if self.data.len() >= self.cap {
            return false;
        }
        let mut i: usize = 0;
        while i < self.data.len()
            invariant
                i <= self@.len(),
                *self == *old(self),
                self.wf(),
                extent_end(e) <= u64::MAX,
                e.1 > 0,
                self@.len() < self.capacity(),
                forall|k: int| 0 <= k < i ==> !#[trigger] extents_meet(self@[k], e),
            decreases self@.len() - i,
        {
            let x = self.data[i];
            if x.0 < e.0 + e.1 && e.0 < x.0 + x.1 {
                assert(extents_meet(self@[i as int], e));
                assert(extents_meet(old(self)@[i as int], e));
                return false;
            }
            i = i + 1;
        }
        let ghost s = self@;
        self.data.push(e);
        proof {
            assert forall|a: int, b: int|
                0 <= a < self@.len() && 0 <= b < self@.len() && a != b implies !extents_meet(
                #[trigger] self@[a],
                #[trigger] self@[b],
            ) by {
                if a == s.len() {
                    assert(!extents_meet(s[b], e));
                } else if b == s.len() {
                    assert(!extents_meet(s[a], e));
                } else {
                    assert(self@[a] == s[a] && self@[b] == s[b]);
                }
            }
        }
        true
    }

    /// Takes out the first kept extent starting at `base`, if any.
    pub fn take(&mut self, base: u64) -> (r: Option<Extent>)
        requires
            old(self).wf(),
        ensures
            final(self).wf(),
            final(self).capacity() == old(self).capacity(),
            match r {
                None => final(self)@ == old(self)@ && forall|i: int| 0 <= i < old(self)@.len() ==> (#[trigger] old(self)@[i]).0 != base,
                Some(e) => exists|i: int|
                    0 <= i < old(self)@.len() && old(self)@[i].0 == base && e == old(self)@[i] && final(self)@
                        == old(self)@.remove(i),
            },
    {
        let mut i: usize = 0;
        while i < self.data.len()
            invariant
                i <= self@.len(),
                *self == *old(self),
                self.wf(),
                forall|k: int| 0 <= k < i ==> (#[trigger] self@[k]).0 != base,
            decreases self@.len() - i,
        {
            if self.data[i].0 == base {
                let ghost s = self@;
                let e = self.data.remove(i);
                proof {
                    assert forall|a: int, b: int|
                        0 <= a < self@.len() && 0 <= b < self@.len() && a != b implies !extents_meet(
                        #[trigger] self@[a],
                        #[trigger] self@[b],
                    ) by {
                        let a0 = if a < i { a } else { a + 1 };
                        let b0 = if b < i { b } else { b + 1 };
                        assert(self@[a] == s[a0] && self@[b] == s[b0]);
                    }
                    assert forall|a: int| 0 <= a < self@.len() implies (#[trigger] self@[a]).1 > 0 && extent_end(self@[a])
                        <= u64::MAX by {
                        let a0 = if a < i { a } else { a + 1 };
                        assert(self@[a] == s[a0]);
                    }
                }
                return Some(e);
            }
            i = i + 1;
        }
        None
    }
}

/// Two non-empty kept extents never start at the same address.
pub proof fn lemma_bases_distinct(s: Seq<Extent>, i: int, j: int)
    requires
        forall|k: int| 0 <= k < s.len() ==> (#[trigger] s[k]).1 > 0,
        forall|a: int, b: int| 0 <= a < s.len() && 0 <= b < s.len() && a != b ==> !extents_meet(#[trigger] s[a], #[trigger] s[b]),
        0 <= i < s.len(),
        0 <= j < s.len(),
        s[i].0 == s[j].0,
    ensures
        i == j,
{
    if i != j {
        assert(s[i].1 > 0 && s[j].1 > 0);
        assert(extents_meet(s[i], s[j]));
    }
}


/// Number of slots of each array of a [`BootMemoryManager`].
pub const MAX_MEMBLOCKS_LEN: usize = 128;

/// The inner state of a boot memory manager.
pub struct Inner {
    free_blocks: Memblocks,
    reserved_blocks: Reservations,
}

/// Builds a [`BootMemoryManager`] by registering free and reserved extents.
pub struct BootMemoryManagerBuilder(BootMemoryManager);

/// A boot-time allocator that cuts allocations off free extents and records
/// them as reserved extents.
pub struct BootMemoryManager(Inner);

impl BootMemoryManager {
    /// The free extents.
    pub closed spec fn free(&self) -> Seq<Extent> {
        self.0.free_blocks@
    }

    /// The reserved extents, one per allocation, in the order they were
    /// made.
    pub closed spec fn reserved(&self) -> Seq<Extent> {
        self.0.reserved_blocks@
    }

    /// How many reserved extents can be kept.
    pub closed spec fn reserved_capacity(&self) -> nat {
        self.0.reserved_blocks.capacity()
    }

    /// Number of slots of the free array.
    pub closed spec fn free_capacity(&self) -> nat {
        self.0.free_blocks.capacity()
    }

    /// Both records are well formed, with room for [`MAX_MEMBLOCKS_LEN`]
    /// extents each.
    pub closed spec fn wf(&self) -> bool {
        &&& self.0.free_blocks.wf()
        &&& self.0.reserved_blocks.wf()
        &&& self.0.free_blocks.capacity() == MAX_MEMBLOCKS_LEN
        &&& self.0.reserved_blocks.capacity() == MAX_MEMBLOCKS_LEN
    }

    /// The reserved record can keep the block that a cut for the request
    /// would take from the free array: there is room, and the block meets
    /// no reserved extent.
    pub open spec fn accepts_cut(&self, at: Option<u64>, size: u64, align: u64) -> bool {
        &&& self.reserved().len() < self.reserved_capacity()
        &&& forall|i: int|
            #![trigger is_chosen(self.free(), start_index(self.free(), at), i, size, align)]
            is_chosen(self.free(), start_index(self.free(), at), i, size, align) ==> !meets_any(
                self.reserved(),
                cut_extent(self.free()[i], size, align),
            )
    }

    /// An allocation at `at` takes the range at `at` itself: the range is
    /// not empty, `at` is aligned, and a free extent holds the whole range.
    pub open spec fn cut_here(&self, at: u64, size: u64, align: u64) -> bool {
        &&& size > 0
        &&& at % align == 0
        &&& exists|i: int| 0 <= i < self.free().len() && #[trigger] holds_range(self.free()[i], at, size)
    }

    /// The arrays can take an allocation at `at`: room for the free extent
    /// split in two and for the reserved range when the range at `at` is
    /// taken, else what [`Self::accepts_cut`] asks.
    pub open spec fn accepts_at(&self, at: u64, size: u64, align: u64) -> bool {
        if self.cut_here(at, size, align) {
            &&& self.free().len() < self.free_capacity()
            &&& self.reserved().len() < self.reserved_capacity()
            &&& !meets_any(self.reserved(), (at, size))
        } else {
            self.accepts_cut(Some(at), size, align)
        }
    }

    /// The effect of an allocation at `at` on the two arrays: the range at
    /// `at` is carved out of the free extent holding it and recorded as
    /// reserved, or, when it cannot be, a block is cut as by
    /// [`Self::allocated`].
    pub open spec fn allocated_at(&self, at: u64, size: u64, align: u64, r: Option<u64>, after: &Self) -> bool {
        if self.cut_here(at, size, align) {
            &&& r == Some(at)
            &&& after.reserved() == with_reservation(self.reserved(), (at, size))
            &&& exists|i: int|
                0 <= i < self.free().len() && #[trigger] holds_range(self.free()[i], at, size)
                    && after.free() == carve(self.free(), i, at, size)
        } else {
            self.allocated(Some(at), size, align, r, after)
        }
    }

    /// A well-formed manager has [`MAX_MEMBLOCKS_LEN`] slots in each array.
    pub proof fn lemma_capacities(&self)
        requires
            self.wf(),
        ensures
            self.free_capacity() == MAX_MEMBLOCKS_LEN,
            self.reserved_capacity() == MAX_MEMBLOCKS_LEN,
            self.free().len() <= MAX_MEMBLOCKS_LEN,
            self.reserved().len() <= MAX_MEMBLOCKS_LEN,
    {
    }

    /// The effect of an allocation on the two arrays.
    pub open spec fn allocated(
        &self,
        at: Option<u64>,
        size: u64,
        align: u64,
        r: Option<u64>,
        after: &Self,
    ) -> bool {
        exists|m: Option<Memblock>|
            {
                &&& #[trigger] cut_outcome(self.free(), at, size, align, m, after.free())
                &&& match m {
                    None => r.is_none() && after.reserved() == self.reserved(),
                    Some(b) => r == Some(b.extent().0) && after.reserved() == with_reservation(
                        self.reserved(),
                        b.extent(),
                    ),
                }
            }
    }

    /// The effect of deallocating `addr`: the reserved extent starting at
    /// `addr` leaves the reserved record and is merged into the free array.
    pub open spec fn deallocated(&self, addr: u64, after: &Self) -> bool {
        exists|i: int|
            0 <= i < self.reserved().len() && (#[trigger] self.reserved()[i]).0 == addr
                && after.reserved() == self.reserved().remove(i) && merged(
                self.free(),
                self.reserved()[i],
            ) == Some(after.free())
    }

    fn allocate_inner(&mut self, size: u64, align: u64, at: Option<u64>) -> (r: Option<u64>)
        requires
            old(self).wf(),
            align > 0,
            at.is_some() ==> at.unwrap() < u64::MAX,
            old(self).accepts_cut(at, size, align),
        ensures
            final(self).wf(),
            old(self).allocated(at, size, align, r, final(self)),
    {
        let ghost old_free = self.free();
        let ghost start = start_index(old_free, at);
        proof {
            assert(separated(old_free));
            if let Some(x) = at {
                lemma_lower_bound_exists(old_free, x);
            }
        }
        let free_block = match self.0.free_blocks.cut_block(size, align, at) {
            Some(b) => b,
            None => {
                assert(cut_outcome(old_free, at, size, align, None, self.free()));
                return None;
            },
        };
        let ghost i = choose|i: int|
            {
                &&& #[trigger] is_chosen(old_free, start, i, size, align)
                &&& free_block.present()
                &&& free_block.extent() == cut_extent(old_free[i], size, align)
                &&& self.free() == cut_at(old_free, i, cut_base(old_free[i], size, align))
            };
        assert(is_chosen(old_free, start, i, size, align));
        assert(extent_end(old_free[i]) <= u64::MAX);
        let ret = free_block.base();
        let ok = self.0.reserved_blocks.add((free_block.base(), free_block.size()));
        assert(ok);
        assert(cut_outcome(old_free, at, size, align, Some(free_block), self.free()));
        Some(ret)
    }

    /// Allocates a block of `size` bytes aligned to `align` off the top of
    /// the first free extent that fits, and records it as reserved. Returns
    /// its base address, or `None` if no free extent fits.
    pub fn allocate(&mut self, size: u64, align: u64) -> (r: Option<u64>)
        requires
            old(self).wf(),
            align > 0,
            old(self).accepts_cut(None, size, align),
        ensures
            final(self).wf(),
            old(self).allocated(None, size, align, r, final(self)),
    {
        self.allocate_inner(size, align, None)
    }

    /// Allocates the `size` bytes at `at` when `at` is aligned to `align`
    /// and a free extent holds them: they are taken out of that extent and
    /// recorded as reserved. Otherwise, like [`Self::allocate`], but the
    /// search starts at the first free extent whose base is at or above
    /// `at`, wrapping around.
    pub fn allocate_at(&mut self, size: u64, align: u64, at: u64) -> (r: Option<u64>)
        requires
            old(self).wf(),
            align > 0,
            at < u64::MAX,
            old(self).accepts_at(at, size, align),
        ensures
            final(self).wf(),
            old(self).allocated_at(at, size, align, r, final(self)),
    {
        if size > 0 && at % align == 0 {
            match self.0.free_blocks.find_holding(at, size) {
                Some(i) => {
                    let ghost f0 = self.free();
                    let ghost r0 = self.reserved();
                    proof {
                        assert(holds_range(f0[i as int], at, size));
                        assert(self.cut_here(at, size, align));
                        assert(extent_end(f0[i as int]) <= u64::MAX);
                    }
                    self.0.free_blocks.carve_block(i, at, size);
                    let ok = self.0.reserved_blocks.add((at, size));
                    proof {
                        assert(ok);
                        assert(holds_range(f0[i as int], at, size) && self.free() == carve(f0, i as int, at, size));
                    }
                    return Some(at);
                },
                None => {
                    proof {
                        assert(!self.cut_here(at, size, align));
                    }
                },
            }
        }
        self.allocate_inner(size, align, Some(at))
    }

    /// Deallocates the allocation at `addr`: the reserved extent of that
    /// allocation is moved back to the free array.
    pub fn deallocate(&mut self, addr: u64)
        requires
            old(self).wf(),
            old(self).free().len() < old(self).free_capacity(),
            exists|i: int|
                0 <= i < old(self).reserved().len() && (#[trigger] old(self).reserved()[i]).0 == addr
                    && merged(old(self).free(), old(self).reserved()[i]).is_some(),
        ensures
            final(self).wf(),
            old(self).deallocated(addr, final(self)),
    {
        let ghost old_res = self.reserved();
        let ghost j = choose|i: int|
            0 <= i < old_res.len() && (#[trigger] old_res[i]).0 == addr && merged(
                self.free(),
                old_res[i],
            ).is_some();
        let freed = match self.0.reserved_blocks.take(addr) {
            Some(e) => e,
            None => {
                assert(old_res[j].0 == addr);
                assert(false);
                return ;
            },
        };
        let ghost k = choose|i: int|
            0 <= i < old_res.len() && old_res[i].0 == addr && freed == old_res[i] && self.reserved()
                == old_res.remove(i);
        proof {
            lemma_bases_distinct(old_res, j, k);
            assert(extent_end(old_res[k]) <= u64::MAX);
        }
        let ok = self.0.free_blocks.put_block(Memblock::new(freed.0, freed.1));
        assert(ok);
        assert(old_res[k].0 == addr);
    }
}

impl BootMemoryManagerBuilder {
    /// The manager being built.
    pub closed spec fn manager(&self) -> BootMemoryManager {
        self.0
    }

    /// Creates a builder with no free and no reserved extents.
    pub fn new() -> (r: Self)
        ensures
            r.manager().wf(),
            r.manager().free() == Seq::<Extent>::empty(),
            r.manager().reserved() == Seq::<Extent>::empty(),
    {
        let free_blocks = Memblocks::new(MAX_MEMBLOCKS_LEN);
        let reserved_blocks = Reservations::new(MAX_MEMBLOCKS_LEN);
        BootMemoryManagerBuilder(BootMemoryManager(Inner { free_blocks, reserved_blocks }))
    }

    /// Registers the free extent at `base` of `size` bytes. Returns false if
    /// the free array is full or the extent collides with a free extent.
    pub fn add_free(&mut self, base: u64, size: u64) -> (r: bool)
        requires
            old(self).manager().wf(),
            base + size <= u64::MAX,
        ensures
            final(self).manager().wf(),
            final(self).manager().reserved() == old(self).manager().reserved(),
            old(self).manager().free().len() == MAX_MEMBLOCKS_LEN ==> !r && final(self).manager().free()
                == old(self).manager().free(),
            old(self).manager().free().len() < MAX_MEMBLOCKS_LEN ==> match merged(
                old(self).manager().free(),
                (base, size),
            ) {
                None => !r && final(self).manager().free() == old(self).manager().free(),
                Some(n) => r && final(self).manager().free() == n,
            },
    {
        self.0.0.free_blocks.put_block(Memblock::new(base, size))
    }

    /// Registers the reserved extent at `base` of `size` bytes; an empty
    /// extent is not kept. Returns false if the reserved record is full or
    /// the extent meets a reserved extent.
    pub fn add_reserved(&mut self, base: u64, size: u64) -> (r: bool)
        requires
            old(self).manager().wf(),
            base + size <= u64::MAX,
        ensures
            final(self).manager().wf(),
            final(self).manager().free() == old(self).manager().free(),
            r == (size == 0 || (old(self).manager().reserved().len() < MAX_MEMBLOCKS_LEN && !meets_any(
                old(self).manager().reserved(),
                (base, size),
            ))),
            r ==> final(self).manager().reserved() == with_reservation(old(self).manager().reserved(), (base, size)),
            !r ==> final(self).manager().reserved() == old(self).manager().reserved(),
    {
        self.0.0.reserved_blocks.add((base, size))
    }

    /// Finishes building.
    pub fn build(self) -> (r: BootMemoryManager)
        ensures
            r == self.manager(),
    {
        self.0
    }
}

} // verus!

verus! {

/// Putting an extent into a separated sequence adds exactly the addresses
/// of the extent to the covered addresses.
pub proof fn lemma_merged_covers(s: Seq<Extent>, b: Extent, a: int)
    requires
        separated(s),
        extent_end(b) <= u64::MAX,
        merged(s, b).is_some(),
    ensures
        covers(merged(s, b).unwrap(), a) <==> covers(s, a) || extent_holds(b, a),
{
    lemma_lower_bound_exists(s, b.0);
    let p = lower_bound(s, b.0);
    let n = merged(s, b).unwrap();
    if covers(n, a) {
        let k = choose|k: int| 0 <= k < n.len() && extent_holds(#[trigger] n[k], a);
        if k < p - 1 || (k == p - 1 && n[k] == s[k]) {
            assert(extent_holds(s[k], a));
        } else if n.len() == s.len() + 1 {
            if k > p {
                assert(n[k] == s[k - 1]);
                assert(extent_holds(s[k - 1], a));
            }
        } else if n.len() == s.len() {
            if k != p - 1 && k != p {
                assert(n[k] == s[k]);
                assert(extent_holds(s[k], a));
            } else if k == p && p > 0 && extent_end(s[p - 1]) == b.0 {
                assert(n[k] == s[k]);
                assert(extent_holds(s[k], a));
            } else if k == p - 1 {
                if a >= b.0 {
                    assert(extent_holds(b, a));
                } else {
                    assert(extent_holds(s[k], a));
                }
            } else {
                if a < extent_end(b) {
                    assert(extent_holds(b, a));
                } else {
                    assert(extent_holds(s[k], a));
                }
            }
        } else {
            if k >= p {
                assert(n[k] == s[k + 1]);
                assert(extent_holds(s[k + 1], a));
            } else if a < b.0 {
                assert(extent_holds(s[k], a));
            } else if a < extent_end(b) {
                assert(extent_holds(b, a));
            } else {
                assert(extent_holds(s[k + 1], a));
            }
        }
    }
    if covers(s, a) {
        let k = choose|k: int| 0 <= k < s.len() && extent_holds(#[trigger] s[k], a);
        if n.len() == s.len() + 1 && k >= p {
            assert(n[k + 1] == s[k]);
            assert(extent_holds(n[k + 1], a));
        } else if n.len() == s.len() + 1 {
            assert(extent_holds(n[k], a));
        } else if n.len() == s.len() {
            if k == p - 1 || k == p {
                if k == p && p > 0 && extent_end(s[p - 1]) == b.0 {
                    assert(extent_holds(n[k], a));
                } else if k == p {
                    assert(extent_holds(n[p], a));
                } else {
                    assert(extent_holds(n[p - 1], a));
                }
            } else {
                assert(extent_holds(n[k], a));
            }
        } else {
            if k < p - 1 {
                assert(extent_holds(n[k], a));
            } else if k == p - 1 || k == p {
                assert(extent_holds(n[p - 1], a));
            } else {
                assert(extent_holds(n[k - 1], a));
            }
        }
    }
    if extent_holds(b, a) {
        if n.len() == s.len() + 1 {
            assert(extent_holds(n[p], a));
        } else if n.len() == s.len() && p > 0 && extent_end(s[p - 1]) == b.0 {
            assert(extent_holds(n[p - 1], a));
        } else if n.len() == s.len() {
            assert(extent_holds(n[p], a));
        } else {
            assert(extent_holds(n[p - 1], a));
        }
    }
}

/// Two extents meet: some address lies in both.
pub open spec fn extents_meet(e: Extent, b: Extent) -> bool {
    e.0 < extent_end(b) && b.0 < extent_end(e)
}

/// The law of [`Memblocks::put_block`]: a sequence of non-empty extents
/// refuses a non-empty extent exactly when the extent meets one of them;
/// otherwise the extent is merged in.
pub proof fn lemma_merged_refuses_meeting(s: Seq<Extent>, b: Extent)
    requires
        separated(s),
        forall|i: int| 0 <= i < s.len() ==> (#[trigger] s[i]).1 > 0,
        b.1 > 0,
    ensures
        merged(s, b).is_none() <==> exists|i: int| 0 <= i < s.len() && #[trigger] extents_meet(s[i], b),
{
    lemma_lower_bound_exists(s, b.0);
    let p = lower_bound(s, b.0);
    if merged(s, b).is_none() {
        if p < s.len() && s[p].0 == b.0 {
            assert(extents_meet(s[p], b));
        } else if p > 0 && b.0 - s[p - 1].0 < s[p - 1].1 {
            assert(extents_meet(s[p - 1], b));
        } else {
            assert(extents_meet(s[p], b));
        }
    }
    if exists|i: int| 0 <= i < s.len() && #[trigger] extents_meet(s[i], b) {
        let i = choose|i: int| 0 <= i < s.len() && #[trigger] extents_meet(s[i], b);
        if i < p {
            if i < p - 1 {
                assert(extent_end(s[i]) < s[p - 1].0);
            }
        } else if i > p {
            assert(extent_end(s[p]) < s[i].0);
        }
    }
}

/// The whole law of [`Memblocks::put_block`] on a sequence of non-empty
/// extents and a non-empty extent `b`: it is refused exactly when it meets a
/// stored extent; otherwise the result is again sorted and separated, holds
/// non-empty extents only, covers what the sequence and `b` covered and
/// nothing else, and is at most one extent longer.
pub proof fn lemma_put_block_law(s: Seq<Extent>, b: Extent)
    requires
        separated(s),
        forall|i: int| 0 <= i < s.len() ==> (#[trigger] s[i]).1 > 0,
        b.1 > 0,
        extent_end(b) <= u64::MAX,
    ensures
        merged(s, b).is_none() <==> exists|i: int| 0 <= i < s.len() && #[trigger] extents_meet(s[i], b),
        merged(s, b) matches Some(n) ==> {
            &&& separated(n)
            &&& forall|i: int| 0 <= i < n.len() ==> (#[trigger] n[i]).1 > 0
            &&& forall|a: int| #[trigger] covers(n, a) <==> covers(s, a) || extent_holds(b, a)
            &&& n.len() <= s.len() + 1
        },
{
    lemma_merged_refuses_meeting(s, b);
    lemma_lower_bound_exists(s, b.0);
    if merged(s, b).is_some() {
        let p = lower_bound(s, b.0);
        let n = merged(s, b).unwrap();
        lemma_merged_separated(s, b, p);
        assert forall|a: int| #[trigger] covers(n, a) <==> covers(s, a) || extent_holds(b, a) by {
            lemma_merged_covers(s, b, a);
        }
        assert forall|i: int| 0 <= i < n.len() implies (#[trigger] n[i]).1 > 0 by {
            if p < s.len() {
                assert(s[p].1 > 0);
            }
            if p > 0 {
                assert(s[p - 1].1 > 0);
            }
            if i + 1 < s.len() {
                assert(s[i + 1].1 > 0);
            }
            if i < s.len() {
                assert(s[i].1 > 0);
            }
        }
    }
}

/// Putting back the block that a cut took from a separated sequence
/// restores the sequence.
pub proof fn lemma_cut_then_put_restores(s: Seq<Extent>, i: int, size: u64, align: u64)
    requires
        align > 0,
        separated(s),
        0 <= i < s.len(),
        fits(s[i], size, align),
    ensures
        merged(cut_at(s, i, cut_base(s[i], size, align)), cut_extent(s[i], size, align)) == Some(s),
{
    let cb = cut_base(s[i], size, align);
    let n = cut_at(s, i, cb);
    let c = cut_extent(s[i], size, align);
    assert(extent_end(s[i]) <= u64::MAX);
    let top = s[i].0 + (s[i].1 - size);
    assert(0 <= top % (align as int) <= top) by (nonlinear_arith)
        requires
            align > 0,
            top >= 0,
    ;
    assert(c.0 == cb && c.1 == extent_end(s[i]) - cb);
    if cb - s[i].0 != 0 {
        let p = i + 1;
        assert(is_lower_bound(n, c.0, p)) by {
            assert forall|k: int| 0 <= k < p implies (#[trigger] n[k]).0 < c.0 by {
                if k < i {
                    assert(extent_end(s[k]) < s[i].0);
                }
            }
            assert forall|k: int| p <= k < n.len() implies (#[trigger] n[k]).0 >= c.0 by {
                assert(extent_end(s[i]) < s[k].0);
            }
        }
        lemma_lower_bound_unique(n, c.0, p);
        if p < n.len() {
            assert(extent_end(s[i]) < s[p].0);
        }
        assert(merged(n, c).unwrap() =~= s);
    } else {
        let p = i;
        assert(is_lower_bound(n, c.0, p)) by {
            assert forall|k: int| 0 <= k < p implies (#[trigger] n[k]).0 < c.0 by {
                assert(extent_end(s[k]) < s[i].0);
            }
            assert forall|k: int| p <= k < n.len() implies (#[trigger] n[k]).0 >= c.0 by {
                assert(n[k] == s[k + 1]);
                assert(extent_end(s[i]) < s[k + 1].0);
            }
        }
        lemma_lower_bound_unique(n, c.0, p);
        if p < n.len() {
            assert(n[p] == s[p + 1]);
            assert(extent_end(s[i]) < s[p + 1].0);
        }
        if p > 0 {
            assert(extent_end(s[p - 1]) < s[i].0);
        }
        assert(merged(n, c).unwrap() =~= s);
    }
}

/// Deallocating the address returned by an allocation of a non-empty block
/// restores the free and reserved extents.
pub proof fn lemma_allocate_then_deallocate(
    m0: BootMemoryManager,
    m1: BootMemoryManager,
    m2: BootMemoryManager,
    at: Option<u64>,
    size: u64,
    align: u64,
    addr: u64,
)
    requires
        align > 0,
        size > 0,
        m0.wf(),
        m1.wf(),
        m0.allocated(at, size, align, Some(addr), &m1),
        m1.deallocated(addr, &m2),
    ensures
        m2.free() == m0.free(),
        m2.reserved() == m0.reserved(),
{
    let s = m0.free();
    let r0 = m0.reserved();
    let r1 = m1.reserved();
    assert(separated(s));
    let m = choose|m: Option<Memblock>|
        {
            &&& #[trigger] cut_outcome(s, at, size, align, m, m1.free())
            &&& match m {
                None => false,
                Some(b) => Some(addr) == Some(b.extent().0) && r1 == with_reservation(r0, b.extent()),
            }
        };
    let b = m.unwrap();
    let start = start_index(s, at);
    if let Some(x) = at {
        lemma_lower_bound_exists(s, x);
    }
    let i = choose|i: int|
        {
            &&& #[trigger] is_chosen(s, start, i, size, align)
            &&& b.present()
            &&& b.extent() == cut_extent(s[i], size, align)
            &&& m1.free() == cut_at(s, i, cut_base(s[i], size, align))
        };
    let c = b.extent();
    assert(extent_end(s[i]) <= u64::MAX);
    let top = s[i].0 + (s[i].1 - size);
    assert(0 <= top % (align as int) <= top) by (nonlinear_arith)
        requires
            align > 0,
            top >= 0,
    ;
    assert(c.1 > 0);
    assert(r1 == r0.push(c));
    let k = choose|k: int|
        0 <= k < r1.len() && (#[trigger] r1[k]).0 == addr && m2.reserved() == r1.remove(k) && merged(
            m1.free(),
            r1[k],
        ) == Some(m2.free());
    lemma_bases_distinct(r1, k, r0.len() as int);
    assert(r1.remove(k) =~= r0);
    lemma_cut_then_put_restores(s, i, size, align);
}

} // verus!
