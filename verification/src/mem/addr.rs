use crate::mem::virt::VirtSpace;
use core::marker::PhantomData;
use core::ops::Range;
use vstd::arithmetic::power2::pow2;
use vstd::prelude::*;

verus! {

/// An address space with fixed address bounds. All addresses are within an
/// address space, and addresses derived from address operations remain
/// within it.
///
/// The bounds are aligned to the smallest page size, the range never
/// straddles the sign bit of a 64-bit address, and it spans less than 2^62
/// bytes.
pub trait AddrSpace: Sized + Copy {
    /// First valid address.
    spec fn range_start() -> u64;

    /// One past the last valid address.
    spec fn range_end() -> u64;

    /// Returns the first valid address.
    fn start() -> (r: u64)
        ensures
            r == Self::range_start(),
    ;

    /// Returns one past the last valid address.
    fn end() -> (r: u64)
        ensures
            r == Self::range_end(),
    ;

    /// The bounds of the space are well formed.
    proof fn lemma_range()
        ensures
            Self::range_start() < Self::range_end(),
            Self::range_start() % 0x1000 == 0,
            Self::range_end() % 0x1000 == 0,
            Self::range_end() - Self::range_start() < 0x4000_0000_0000_0000,
            Self::range_end() <= 0x8000_0000_0000_0000 || Self::range_start()
                >= 0x8000_0000_0000_0000,
    ;
}

/// An address within the [`AddrSpace`] `S` (its end bound included, so that
/// the end of a range is representable).
#[derive(Debug)]
pub struct Addr<S: AddrSpace> {
    value: u64,
    _addr_space: PhantomData<S>,
}

impl<S: AddrSpace> Clone for Addr<S> {
    fn clone(&self) -> (r: Self)
        ensures
            r@ == self@,
    {
        *self
    }
}

impl<S: AddrSpace> Copy for Addr<S> {

}

impl<S: AddrSpace> View for Addr<S> {
    type V = u64;

    closed spec fn view(&self) -> u64 {
        self.value
    }
}

impl<S: AddrSpace> Addr<S> {
    /// Every address lies within the bounds of its space (its end included).
    #[verifier::type_invariant]
    pub open spec fn inv(self) -> bool {
        S::range_start() <= self@ <= S::range_end()
    }

    /// Creates a new address in the address space from `value`.
    pub fn new(value: u64) -> (r: Self)
        requires
            S::range_start() <= value < S::range_end(),
        ensures
            r@ == value,
    {
        Addr { value, _addr_space: PhantomData }
    }

    /// Converts the address into a `u64`.
    pub fn usize(self) -> (r: u64)
        ensures
            r == self@,
    {
        self.value
    }
}

/// The smallest multiple of `align` at or above `v`.
pub open spec fn next_multiple(v: int, align: int) -> int {
    if v % align == 0 {
        v
    } else {
        v - v % align + align
    }
}

/// The largest multiple of `align` at or below `v`.
pub open spec fn prev_multiple(v: int, align: int) -> int {
    v - v % align
}

impl<S: AddrSpace> Addr<S> {
    /// Add `x` bytes to the address.
    pub fn byte_add(self, x: u64) -> (r: Self)
        requires
            self@ + x <= S::range_end(),
        ensures
            r@ == self@ + x,
    {
        proof {
            use_type_invariant(self);
        }
        Addr { value: self.value + x, _addr_space: PhantomData }
    }

    /// Add `x` bytes to the address. Returns `None` if the resulting address
    /// falls outside the address space.
    pub fn checked_byte_add(self, x: u64) -> (r: Option<Self>)
        ensures
            r.is_some() <==> S::range_start() <= self@ + x < S::range_end(),
            r.is_some() ==> r.unwrap()@ == self@ + x,
    {
        match self.value.checked_add(x) {
            Some(v) => {
                if S::start() <= v && v < S::end() {
                    Some(Addr { value: v, _addr_space: PhantomData })
                } else {
                    None
                }
            },
            None => {
                proof {
                    S::lemma_range();
                }
                None
            },
        }
    }

    /// Subtract `x` bytes from the address.
    pub fn byte_sub(self, x: u64) -> (r: Self)
        requires
            S::range_start() <= self@ - x,
        ensures
            r@ == self@ - x,
    {
        proof {
            use_type_invariant(self);
        }
        Addr { value: self.value - x, _addr_space: PhantomData }
    }

    /// Subtract `x` bytes from the address. Returns `None` if the resulting
    /// address falls outside the address space.
    pub fn checked_byte_sub(self, x: u64) -> (r: Option<Self>)
        ensures
            r.is_some() <==> S::range_start() <= self@ - x < S::range_end(),
            r.is_some() ==> r.unwrap()@ == self@ - x,
    {
        match self.value.checked_sub(x) {
            Some(v) => {
                if S::start() <= v && v < S::end() {
                    Some(Addr { value: v, _addr_space: PhantomData })
                } else {
                    None
                }
            },
            None => None,
        }
    }

    /// Returns the signed byte difference between two addresses.
    pub fn addr_sub(self, x: Self) -> (r: i64)
        ensures
            r == self@ - x@,
    {
        proof {
            use_type_invariant(self);
            use_type_invariant(x);
            S::lemma_range();
        }
        if self.value >= x.value {
            (self.value - x.value) as i64
        } else {
            -((x.value - self.value) as i64)
        }
    }

    /// Returns an aligned address by rounding up. `None` if no aligned
    /// address is at or above `self` and within the address space.
    pub fn align_ceil(self, align: u64) -> (r: Option<Self>)
        requires
            align > 0,
        ensures
            r.is_some() <==> next_multiple(self@ as int, align as int) < S::range_end(),
            r.is_some() ==> r.unwrap()@ == next_multiple(self@ as int, align as int),
    {
        proof {
            use_type_invariant(self);
            S::lemma_range();
        }
        let rem = self.value % align;
        proof {
            vstd::arithmetic::div_mod::lemma_mod_decreases(self.value as nat, align as nat);
        }
        let next = if rem == 0 {
            Some(self.value)
        } else {
            (self.value - rem).checked_add(align)
        };
        match next {
            Some(v) => {
                if v < S::end() {
                    Some(Addr { value: v, _addr_space: PhantomData })
                } else {
                    None
                }
            },
            None => None,
        }
    }

    /// Returns an aligned address by rounding down. `None` if no aligned
    /// address is at or below `self` and within the address space.
    pub fn align_floor(self, align: u64) -> (r: Option<Self>)
        requires
            align > 0,
        ensures
            r.is_some() <==> prev_multiple(self@ as int, align as int) >= S::range_start(),
            r.is_some() ==> r.unwrap()@ == prev_multiple(self@ as int, align as int),
    {
        proof {
            use_type_invariant(self);
            S::lemma_range();
        }
        proof {
            vstd::arithmetic::div_mod::lemma_mod_decreases(self.value as nat, align as nat);
        }
        let v = self.value - self.value % align;
        if v >= S::start() {
            Some(Addr { value: v, _addr_space: PhantomData })
        } else {
            None
        }
    }

    /// Whether the address is a multiple of `alignment`.
    pub fn is_aligned_to(self, alignment: u64) -> (r: bool)
        requires
            alignment > 0,
        ensures
            r == (self@ % alignment == 0),
    {
        self.value % alignment == 0
    }
}

impl<S: VirtSpace> Addr<S> {
    /// The bits `range.start .. range.end` of the address, as a number.
    /// Zero for an empty range.
    pub fn index_range(self, range: &Range<usize>) -> (r: u64)
        requires
            range.start < range.end ==> range.end < 64,
        ensures
            r == if range.start < range.end {
                (self@ as nat % pow2(range.end as nat)) / pow2(range.start as nat)
            } else {
                0
            },
    {
        if range.start >= range.end {
            return 0;
        }
        let end = range.end as u64;
        let start = range.start as u64;
        proof {
            vstd::bits::lemma_u64_pow2_no_overflow(end as nat);
            vstd::bits::lemma_u64_shl_is_mul(1, end);
            vstd::bits::lemma_u64_low_bits_mask_is_mod(self.value, end as nat);
        }
        let mask = (1u64 << end) - 1;
        let low = self.value & mask;
        proof {
            assert(mask == vstd::bits::low_bits_mask(end as nat) as u64);
            vstd::bits::lemma_u64_shr_is_div(low, start);
        }
        low >> start
    }
}

/// An address range in the [`AddrSpace`] `S`: `size` bytes from `base`.
#[derive(Debug)]
pub struct AddrRange<S: AddrSpace> {
    pub base: Addr<S>,
    pub size: u64,
}

impl<S: AddrSpace> Clone for AddrRange<S> {
    fn clone(&self) -> (r: Self)
        ensures
            r == *self,
    {
        *self
    }
}

impl<S: AddrSpace> Copy for AddrRange<S> {

}

impl<S: AddrSpace> AddrRange<S> {
    /// The range ends within the address space.
    pub open spec fn wf(self) -> bool {
        self.base@ + self.size <= S::range_end()
    }

    /// The first address of the range.
    pub open spec fn lo(self) -> int {
        self.base@ as int
    }

    /// One past the last address of the range.
    pub open spec fn hi(self) -> int {
        self.base@ + self.size
    }

    /// Address `a` lies in the range.
    pub open spec fn has(self, a: int) -> bool {
        self.lo() <= a < self.hi()
    }

    /// Creates a new address range from base address and range size.
    pub fn new(base: Addr<S>, size: u64) -> (r: Self)
        requires
            base@ + size <= S::range_end(),
        ensures
            r.base == base,
            r.size == size,
            r.wf(),
    {
        AddrRange { base, size }
    }

    /// The range from `start` up to `end`; empty, at `start`, if `end` is
    /// not above `start`.
    pub fn from_bounds(start: Addr<S>, end: Addr<S>) -> (r: Self)
        ensures
            r.base == start,
            r.size == if end@ > start@ {
                end@ - start@
            } else {
                0
            },
            r.wf(),
    {
        proof {
            use_type_invariant(start);
            use_type_invariant(end);
        }
        let size = if end.usize() > start.usize() {
            end.usize() - start.usize()
        } else {
            0
        };
        AddrRange { base: start, size }
    }

    /// Returns the start of the address range.
    pub fn start(&self) -> (r: Addr<S>)
        ensures
            r == self.base,
    {
        self.base
    }

    /// Returns the end of the address range.
    pub fn end(&self) -> (r: Addr<S>)
        requires
            self.wf(),
        ensures
            r@ == self.hi(),
    {
        self.base.byte_add(self.size)
    }

    /// Checks if the address range is empty.
    pub fn is_empty(&self) -> (r: bool)
        ensures
            r == (self.size == 0),
    {
        self.size == 0
    }

    /// Returns an empty range at the start of the address space.
    pub fn empty() -> (r: Self)
        ensures
            r.base@ == S::range_start(),
            r.size == 0,
            r.wf(),
    {
        proof {
            S::lemma_range();
        }
        AddrRange { base: Addr::new(S::start()), size: 0 }
    }

    /// Checks if the ranges overlap.
    pub fn overlaps(&self, other: &Self) -> (r: bool)
        requires
            self.wf(),
            other.wf(),
        ensures
            r == (self.lo() < other.hi() && other.lo() < self.hi()),
    {
        self.start().usize() < other.end().usize() && other.start().usize() < self.end().usize()
    }

    /// Checks if this range contains the other range.
    pub fn contains(&self, other: &Self) -> (r: bool)
        requires
            self.wf(),
            other.wf(),
        ensures
            r == (self.lo() <= other.lo() && other.hi() <= self.hi()),
    {
        self.start().usize() <= other.start().usize() && other.end().usize()
            <= self.end().usize()
    }

    /// Returns the intersection of `self` and `rhs`: it holds exactly the
    /// addresses that lie in both. When it is empty it starts at the larger
    /// of the two starts.
    pub fn range_intersect(&self, rhs: &Self) -> (r: Self)
        requires
            self.wf(),
            rhs.wf(),
        ensures
            r.wf(),
            r.lo() == if self.lo() >= rhs.lo() {
                self.lo()
            } else {
                rhs.lo()
            },
            forall|a: int| #[trigger] r.has(a) <==> self.has(a) && rhs.has(a),
    {
        let start = if self.start().usize() >= rhs.start().usize() {
            self.start()
        } else {
            rhs.start()
        };
        let end = if self.end().usize() <= rhs.end().usize() {
            self.end()
        } else {
            rhs.end()
        };
        Self::from_bounds(start, end)
    }

    /// The smallest range covering two overlapping ranges.
    fn hull(&self, rhs: &Self) -> (r: Self)
        requires
            self.wf(),
            rhs.wf(),
        ensures
            r.wf(),
            r.lo() == if self.lo() <= rhs.lo() {
                self.lo()
            } else {
                rhs.lo()
            },
            r.hi() == if self.hi() >= rhs.hi() {
                self.hi()
            } else {
                rhs.hi()
            },
    {
        let start = if self.start().usize() <= rhs.start().usize() {
            self.start()
        } else {
            rhs.start()
        };
        let end = if self.end().usize() >= rhs.end().usize() {
            self.end()
        } else {
            rhs.end()
        };
        Self::from_bounds(start, end)
    }

    /// Returns the union of `self` and `rhs` as two ranges: the ranges
    /// themselves when they do not overlap, else the range covering both and
    /// an empty range. Either way the two hold exactly the addresses of
    /// `self` and of `rhs`.
    pub fn range_sum(&self, rhs: &Self) -> (r: [Self; 2])
        requires
            self.wf(),
            rhs.wf(),
        ensures
            r[0].wf(),
            r[1].wf(),
            !(self.lo() < rhs.hi() && rhs.lo() < self.hi()) ==> r[0] == *self && r[1] == *rhs,
            (self.lo() < rhs.hi() && rhs.lo() < self.hi()) ==> r[1].size == 0 && r[1].base@
                == S::range_start(),
            forall|a: int| r[0].has(a) || r[1].has(a) <==> self.has(a) || rhs.has(a),
    {
        if !self.overlaps(rhs) {
            return [*self, *rhs];
        }
        [self.hull(rhs), Self::empty()]
    }

    /// Returns the union of `self` and `rhs`; `None` if they do not overlap.
    pub fn range_sum_strict(&self, rhs: &Self) -> (r: Option<Self>)
        requires
            self.wf(),
            rhs.wf(),
        ensures
            r.is_none() <==> !(self.lo() < rhs.hi() && rhs.lo() < self.hi()),
            r.is_some() ==> r.unwrap().wf() && forall|a: int|
                #[trigger] r.unwrap().has(a) <==> self.has(a) || rhs.has(a),
            r.is_some() ==> r.unwrap().lo() == if self.lo() <= rhs.lo() {
                self.lo()
            } else {
                rhs.lo()
            },
            r.is_some() ==> r.unwrap().hi() == if self.hi() >= rhs.hi() {
                self.hi()
            } else {
                rhs.hi()
            },
    {
        if !self.overlaps(rhs) {
            return None;
        }
        Some(self.hull(rhs))
    }

    /// Returns `rhs` subtracted from `self` as two ranges: the part below
    /// `rhs` and the part above it. When `rhs` is empty they are `self` and
    /// an empty range; when `self` is empty they are two empty ranges. The
    /// two hold exactly the addresses of `self` that are not in `rhs`.
    pub fn range_sub(&self, rhs: Self) -> (r: [Self; 2])
        requires
            self.wf(),
            rhs.wf(),
        ensures
            r[0].wf(),
            r[1].wf(),
            self.size == 0 ==> r[0].size == 0 && r[0].base@ == S::range_start() && r[1].size == 0
                && r[1].base@ == S::range_start(),
            self.size != 0 && rhs.size == 0 ==> r[0] == *self && r[1].size == 0 && r[1].base@
                == S::range_start(),
            self.size != 0 && rhs.size != 0 ==> {
                &&& r[0].lo() == self.lo()
                &&& r[0].hi() == if rhs.lo() <= self.lo() {
                    self.lo()
                } else if rhs.lo() >= self.hi() {
                    self.hi()
                } else {
                    rhs.lo()
                }
                &&& r[1].hi() == self.hi()
                &&& r[1].lo() == if rhs.hi() >= self.hi() {
                    self.hi()
                } else if rhs.hi() <= self.lo() {
                    self.lo()
                } else {
                    rhs.hi()
                }
            },
            forall|a: int| r[0].has(a) || r[1].has(a) <==> self.has(a) && !rhs.has(a),
    {
        if self.is_empty() {
            return [Self::empty(), Self::empty()];
        }
        if rhs.is_empty() {
            return [*self, Self::empty()];
        }
        proof {
            use_type_invariant(self.base);
            use_type_invariant(rhs.base);
            S::lemma_range();
        }
        let below = rhs.base.addr_sub(self.base);
        let low_size: u64 = if below <= 0 {
            0
        } else if below as u64 >= self.size {
            self.size
        } else {
            below as u64
        };
        let above = self.end().addr_sub(rhs.end());
        let hi_size: u64 = if above <= 0 {
            0
        } else if above as u64 >= self.size {
            self.size
        } else {
            above as u64
        };
        let lo = Self::new(self.base, low_size);
        let hi = Self::new(self.base.byte_add(self.size - hi_size), hi_size);
        [lo, hi]
    }
}

/// `next_multiple(v, a)` is the least multiple of `a` at or above `v`.
pub proof fn lemma_next_multiple(v: int, a: int, m: int)
    requires
        v >= 0,
        a > 0,
        m % a == 0,
        m >= v,
    ensures
        next_multiple(v, a) % a == 0,
        v <= next_multiple(v, a) < v + a,
        next_multiple(v, a) <= m,
{
    vstd::arithmetic::div_mod::lemma_fundamental_div_mod(v, a);
    vstd::arithmetic::div_mod::lemma_fundamental_div_mod(m, a);
    let q = v / a;
    let qm = m / a;
    assert(0 <= v % a < a);
    if v % a != 0 {
        assert(next_multiple(v, a) == a * q + a);
        assert(a * q + a == a * (q + 1)) by (nonlinear_arith);
        vstd::arithmetic::div_mod::lemma_mod_multiples_basic(q + 1, a);
        assert((q + 1) * a == a * (q + 1)) by (nonlinear_arith);
        assert(a * qm > a * q);
        assert(qm > q) by (nonlinear_arith)
            requires
                a * qm > a * q,
                a > 0,
        ;
        assert(a * qm >= a * (q + 1)) by (nonlinear_arith)
            requires
                qm >= q + 1,
                a > 0,
        ;
    }
}

/// `prev_multiple(v, a)` is the greatest multiple of `a` at or below `v`.
pub proof fn lemma_prev_multiple(v: int, a: int, m: int)
    requires
        v >= 0,
        a > 0,
        m % a == 0,
        0 <= m <= v,
    ensures
        prev_multiple(v, a) % a == 0,
        v - a < prev_multiple(v, a) <= v,
        m <= prev_multiple(v, a),
{
    vstd::arithmetic::div_mod::lemma_fundamental_div_mod(v, a);
    vstd::arithmetic::div_mod::lemma_fundamental_div_mod(m, a);
    let q = v / a;
    let qm = m / a;
    assert(0 <= v % a < a);
    assert(prev_multiple(v, a) == a * q);
    vstd::arithmetic::div_mod::lemma_mod_multiples_basic(q, a);
    assert(q * a == a * q) by (nonlinear_arith);
    assert(a * qm < a * (q + 1)) by (nonlinear_arith)
        requires
            a * qm == m,
            m <= v,
            v == a * q + v % a,
            v % a < a,
    ;
    assert(qm <= q) by (nonlinear_arith)
        requires
            a * qm < a * (q + 1),
            a > 0,
    ;
    assert(a * qm <= a * q) by (nonlinear_arith)
        requires
            qm <= q,
            a > 0,
    ;
}

/// Hardware paging page size. All page sizes are powers of two, a page is
/// aligned to its size, and the variants are listed in order.
#[derive(Debug, Clone, Copy, PartialEq, Eq, Structural)]
pub enum PageSize {
    Small,
    Large,
    Huge,
}

impl PageSize {
    /// Largest page size.
    pub const MAX: PageSize = PageSize::Huge;

    /// Smallest page size.
    pub const MIN: PageSize = PageSize::Small;

    /// Base-2 log of the page size in bytes.
    pub open spec fn bits(self) -> nat {
        match self {
            PageSize::Small => 12,
            PageSize::Large => 21,
            PageSize::Huge => 30,
        }
    }

    /// The page size in bytes.
    pub open spec fn bytes(self) -> nat {
        match self {
            PageSize::Small => 0x1000,
            PageSize::Large => 0x20_0000,
            PageSize::Huge => 0x4000_0000,
        }
    }

    /// The size in bytes is two to the power of the order.
    pub proof fn lemma_bytes(self)
        ensures
            self.bytes() == pow2(self.bits()),
    {
        vstd::arithmetic::power2::lemma2_to64();
    }

    /// Returns the memory layout of a page of size `self`, as its size and
    /// alignment in bytes.
    pub fn layout(self) -> (r: (u64, u64))
        ensures
            r == (self.bytes() as u64, self.bytes() as u64),
    {
        (self.usize(), self.align())
    }

    /// Returns the memory alignment in bytes of a page of size `self`, the
    /// same as its size.
    pub fn align(self) -> (r: u64)
        ensures
            r == self.bytes(),
    {
        self.usize()
    }

    /// Returns the base-2 log of the page size in bytes.
    pub fn order(self) -> (r: u8)
        ensures
            r == self.bits(),
    {
        match self {
            PageSize::Small => 12,
            PageSize::Large => 21,
            PageSize::Huge => 30,
        }
    }

    /// Returns the page size in bytes.
    pub fn usize(self) -> (r: u64)
        ensures
            r == self.bytes(),
    {
        proof {
            self.lemma_bytes();
            vstd::bits::lemma_u64_shl_is_mul(1, self.bits() as u64);
        }
        1u64 << (self.order() as u64)
    }

    /// Returns the smallest page size that can hold a block of `size` bytes
    /// aligned to `align`, the size rounded up to the alignment; `None` if
    /// no single page can hold it.
    pub fn fit(size: u64, align: u64) -> (r: Option<Self>)
        requires
            align > 0,
            size + align - 1 <= u64::MAX,
        ensures
            r == if next_multiple(size as int, align as int) <= PageSize::Small.bytes() {
                Some(PageSize::Small)
            } else if next_multiple(size as int, align as int) <= PageSize::Large.bytes() {
                Some(PageSize::Large)
            } else if next_multiple(size as int, align as int) <= PageSize::Huge.bytes() {
                Some(PageSize::Huge)
            } else {
                None::<PageSize>
            },
    {
        proof {
            vstd::arithmetic::div_mod::lemma_mod_decreases(size as nat, align as nat);
        }
        let rem = size % align;
        let padded = if rem == 0 {
            size
        } else {
            size - rem + align
        };
        if padded <= PageSize::Small.usize() {
            Some(PageSize::Small)
        } else if padded <= PageSize::Large.usize() {
            Some(PageSize::Large)
        } else if padded <= PageSize::Huge.usize() {
            Some(PageSize::Huge)
        } else {
            None
        }
    }
}

/// A page-aligned address, with the size of its page.
#[derive(Debug)]
pub struct Page<S: AddrSpace> {
    base: Addr<S>,
    page_size: PageSize,
}

impl<S: AddrSpace> Clone for Page<S> {
    fn clone(&self) -> (r: Self)
        ensures
            r == *self,
    {
        *self
    }
}

impl<S: AddrSpace> Copy for Page<S> {

}

impl<S: AddrSpace> Page<S> {
    /// A page starts at a multiple of its size.
    #[verifier::type_invariant]
    closed spec fn aligned(self) -> bool {
        self.base@ as nat % self.page_size.bytes() == 0
    }

    /// The address of the page.
    pub closed spec fn spec_addr(self) -> Addr<S> {
        self.base
    }

    /// The size of the page.
    pub closed spec fn size(self) -> PageSize {
        self.page_size
    }

    /// Creates the page of size `page_size` at `base`, which must be
    /// aligned to the page size.
    pub fn new(base: Addr<S>, page_size: PageSize) -> (r: Self)
        requires
            base@ as nat % page_size.bytes() == 0,
        ensures
            r.spec_addr() == base,
            r.size() == page_size,
    {
        Page { base, page_size }
    }

    /// Returns the address of the page.
    pub fn addr(&self) -> (r: Addr<S>)
        ensures
            r == self.spec_addr(),
            r@ as nat % self.size().bytes() == 0,
    {
        proof {
            use_type_invariant(self);
        }
        self.base
    }

    /// Alias of [`Self::addr`].
    pub fn start(&self) -> (r: Addr<S>)
        ensures
            r == self.spec_addr(),
            r@ as nat % self.size().bytes() == 0,
    {
        self.addr()
    }

    /// Returns the size of the page.
    pub fn page_size(&self) -> (r: PageSize)
        ensures
            r == self.size(),
    {
        self.page_size
    }

    /// Moves the page up by `page_cnt` pages. Returns `None` if the
    /// resulting address falls outside the address space.
    pub fn checked_page_add(self, page_cnt: u64) -> (r: Option<Self>)
        ensures
            r.is_some() <==> S::range_start() <= self.spec_addr()@ + page_cnt * self.size().bytes()
                < S::range_end(),
            r.is_some() ==> r.unwrap().spec_addr()@ == self.spec_addr()@ + page_cnt
                * self.size().bytes() && r.unwrap().size() == self.size(),
    {
        proof {
            use_type_invariant(self);
        }
        let step = match page_cnt.checked_mul(self.page_size.usize()) {
            Some(x) => x,
            None => {
                return None;
            },
        };
        match self.base.checked_byte_add(step) {
            Some(base) => {
                proof {
                    let b = self.page_size.bytes() as int;
                    vstd::arithmetic::div_mod::lemma_mod_multiples_basic(page_cnt as int, b);
                    vstd::arithmetic::div_mod::lemma_add_mod_noop(
                        self.base@ as int,
                        page_cnt * b,
                        b,
                    );
                    assert((page_cnt * b) % b == 0);
                    assert((self.base@ as int) % b == 0);
                    assert(base@ as int == self.base@ as int + page_cnt * b);
                    vstd::arithmetic::div_mod::lemma_small_mod(0, b as nat);
                    assert((base@ as int) % b == 0);
                }
                Some(Page { base, page_size: self.page_size })
            },
            None => None,
        }
    }

    /// Moves the page down by `page_cnt` pages. Returns `None` if the
    /// resulting address falls outside the address space.
    pub fn checked_page_sub(self, page_cnt: u64) -> (r: Option<Self>)
        ensures
            r.is_some() <==> S::range_start() <= self.spec_addr()@ - page_cnt * self.size().bytes()
                < S::range_end(),
            r.is_some() ==> r.unwrap().spec_addr()@ == self.spec_addr()@ - page_cnt
                * self.size().bytes() && r.unwrap().size() == self.size(),
    {
        proof {
            use_type_invariant(self);
        }
        let step = match page_cnt.checked_mul(self.page_size.usize()) {
            Some(x) => x,
            None => {
                return None;
            },
        };
        match self.base.checked_byte_sub(step) {
            Some(base) => {
                proof {
                    let b = self.page_size.bytes() as int;
                    vstd::arithmetic::div_mod::lemma_mod_multiples_basic(page_cnt as int, b);
                    vstd::arithmetic::div_mod::lemma_sub_mod_noop(
                        self.base@ as int,
                        page_cnt * b,
                        b,
                    );
                    assert((page_cnt * b) % b == 0);
                    assert((self.base@ as int) % b == 0);
                    assert(base@ as int == self.base@ as int - page_cnt * b);
                    vstd::arithmetic::div_mod::lemma_small_mod(0, b as nat);
                    assert((base@ as int) % b == 0);
                }
                Some(Page { base, page_size: self.page_size })
            },
            None => None,
        }
    }
}

/// A contiguous range of `len` pages starting at `base`.
#[derive(Debug)]
pub struct PageRange<S: AddrSpace> {
    /// The first page of the range.
    pub base: Page<S>,
    /// Number of pages in the range.
    pub len: u64,
}

impl<S: AddrSpace> Clone for PageRange<S> {
    fn clone(&self) -> (r: Self)
        ensures
            r == *self,
    {
        *self
    }
}

impl<S: AddrSpace> Copy for PageRange<S> {

}

impl<S: AddrSpace> PageRange<S> {
    /// Creates an empty page range of pages of `page_size`, at the start of
    /// the address space.
    pub fn empty(page_size: PageSize) -> (r: Self)
        requires
            S::range_start() as nat % page_size.bytes() == 0,
        ensures
            r.base.spec_addr()@ == S::range_start(),
            r.base.size() == page_size,
            r.len == 0,
    {
        proof {
            S::lemma_range();
        }
        PageRange { base: Page::new(Addr::new(S::start()), page_size), len: 0 }
    }

    /// Returns the size of the pages.
    pub fn page_size(&self) -> (r: PageSize)
        ensures
            r == self.base.size(),
    {
        self.base.page_size()
    }

    /// Returns the address range the pages span: from the first page, as
    /// many bytes as the pages hold.
    pub fn to_range(&self) -> (r: AddrRange<S>)
        requires
            self.base.spec_addr()@ + self.len * self.base.size().bytes() <= S::range_end(),
        ensures
            r.base == self.base.spec_addr(),
            r.size == self.len * self.base.size().bytes(),
    {
        let ps = self.base.page_size().usize();
        let base = self.base.addr();
        proof {
            assert(self.len * ps <= S::range_end()) by (nonlinear_arith)
                requires
                    base@ + self.len * ps <= S::range_end(),
                    base@ >= 0,
            ;
        }
        AddrRange::new(base, self.len * ps)
    }

    /// Creates a page range from an address range. Returns `None` if the
    /// range does not start and end on page boundaries.
    pub fn try_from_range(range: AddrRange<S>, page_size: PageSize) -> (r: Option<Self>)
        ensures
            r.is_some() <==> range.base@ as nat % page_size.bytes() == 0 && range.size as nat % page_size.bytes()
                == 0,
            r.is_some() ==> r.unwrap().base.spec_addr() == range.base && r.unwrap().base.size()
                == page_size && r.unwrap().len == range.size as nat / page_size.bytes(),
    {
        if !range.base.is_aligned_to(page_size.align()) {
            return None;
        }
        let base = Page::new(range.base, page_size);
        if range.size % page_size.align() != 0 {
            return None;
        }
        let len = range.size / page_size.align();
        Some(PageRange { base, len })
    }
}

/// Pages made from an address range span that range again: what
/// [`PageRange::try_from_range`] returns can be turned back by
/// [`PageRange::to_range`] into the range it was given.
pub proof fn lemma_pages_round_trip<S: AddrSpace>(range: AddrRange<S>, page_size: PageSize, pages: PageRange<S>)
    requires
        range.wf(),
        range.base@ as nat % page_size.bytes() == 0,
        range.size as nat % page_size.bytes() == 0,
        pages.base.spec_addr() == range.base,
        pages.base.size() == page_size,
        pages.len == range.size as nat / page_size.bytes(),
    ensures
        pages.base.spec_addr()@ + pages.len * pages.base.size().bytes() <= S::range_end(),
        pages.len * pages.base.size().bytes() == range.size,
{
    let b = page_size.bytes() as int;
    assert(b > 0) by {
        page_size.lemma_bytes();
        vstd::arithmetic::power2::lemma_pow2_pos(page_size.bits());
    }
    vstd::arithmetic::div_mod::lemma_fundamental_div_mod(range.size as int, b);
    assert(pages.len * b == range.size) by (nonlinear_arith)
        requires
            range.size == b * (range.size as int / b) + range.size as int % b,
            range.size as int % b == 0,
            pages.len == range.size as int / b,
    ;
}

impl<S: AddrSpace> AddrRange<S> {
    /// Returns the pages of `page_size` that lie wholly within the range:
    /// they start at the first page boundary in it and run as far as they
    /// fit. Empty, at the start of the space, when the range is smaller
    /// than a page.
    pub fn contained_pages(&self, page_size: PageSize) -> (r: PageRange<S>)
        requires
            self.wf(),
            S::range_start() as nat % page_size.bytes() == 0,
        ensures
            r.base.size() == page_size,
            self.size < page_size.bytes() ==> r.len == 0 && r.base.spec_addr()@
                == S::range_start(),
            self.size >= page_size.bytes() ==> {
                &&& r.base.spec_addr()@ == next_multiple(self.lo(), page_size.bytes() as int)
                &&& r.len == (self.hi() - next_multiple(self.lo(), page_size.bytes() as int))
                    / page_size.bytes() as int
            },
    {
        if self.size < page_size.usize() {
            return PageRange::empty(page_size);
        }
        let ps = page_size.usize();
        proof {
            use_type_invariant(self.base);
            S::lemma_range();
            let v = self.lo();
            vstd::arithmetic::div_mod::lemma_mod_multiples_basic(v, ps as int);
            assert(v * ps >= v) by (nonlinear_arith)
                requires
                    v >= 0,
                    ps > 0,
            ;
            lemma_next_multiple(v, ps as int, v * ps);
        }
        let base = match self.base.align_ceil(ps) {
            Some(b) => b,
            None => {
                proof {
                    assert(false);
                }
                self.base
            },
        };
        proof {
            use_type_invariant(base);
        }
        let residual = self.size - (base.usize() - self.base.usize());
        PageRange { base: Page::new(base, page_size), len: residual / ps }
    }

    /// Returns the pages of `page_size` that the range overlaps: from the
    /// page holding its first address, as many as cover it.
    pub fn overlapped_pages(&self, page_size: PageSize) -> (r: PageRange<S>)
        requires
            self.wf(),
            S::range_start() as nat % page_size.bytes() == 0,
        ensures
            r.base.size() == page_size,
            r.base.spec_addr()@ == prev_multiple(self.lo(), page_size.bytes() as int),
            r.len == (self.hi() - prev_multiple(self.lo(), page_size.bytes() as int)
                + page_size.bytes() - 1) / page_size.bytes() as int,
    {
        let ps = page_size.usize();
        proof {
            use_type_invariant(self.base);
            S::lemma_range();
            lemma_prev_multiple(self.lo(), ps as int, S::range_start() as int);
        }
        let base = match self.base.align_floor(ps) {
            Some(b) => b,
            None => {
                proof {
                    assert(false);
                }
                self.base
            },
        };
        let residual = self.size + (self.base.usize() - base.usize());
        let len = residual / ps + if residual % ps == 0 {
            0
        } else {
            1
        };
        proof {
            let x = residual as int;
            let p = ps as int;
            vstd::arithmetic::div_mod::lemma_fundamental_div_mod(x, p);
            vstd::arithmetic::div_mod::lemma_fundamental_div_mod(x + p - 1, p);
            assert(len == (x + p - 1) / p) by (nonlinear_arith)
                requires
                    x == p * (x / p) + x % p,
                    x + p - 1 == p * ((x + p - 1) / p) + (x + p - 1) % p,
                    0 <= x % p < p,
                    0 <= (x + p - 1) % p < p,
                    len == x / p + if x % p == 0 {
                        0int
                    } else {
                        1int
                    },
                    p > 0,
            ;
        }
        PageRange { base: Page::new(base, page_size), len }
    }
}

/// `2^k` bytes can be the next piece cut at address `at` with `diff` bytes
/// left: it divides the address, fits, and `k` is at most `max`.
pub open spec fn piece_fits(at: int, diff: int, max: int, k: nat) -> bool {
    &&& k <= max
    &&& pow2(k) <= diff
    &&& at % pow2(k) as int == 0
}

/// Cuts a range into pieces whose sizes are powers of two, each at an
/// address that is a multiple of its size.
#[derive(Debug)]
pub struct SplitAligned<S: AddrSpace> {
    range: AddrRange<S>,
    offset: u64,
    max_order: u32,
}

impl<S: AddrSpace> SplitAligned<S> {
    /// The range being cut.
    pub closed spec fn whole(self) -> AddrRange<S> {
        self.range
    }

    /// How many bytes of the range have been handed out.
    pub closed spec fn done(self) -> int {
        self.offset as int
    }

    /// The largest order of a piece.
    pub closed spec fn max(self) -> int {
        self.max_order as int
    }

    /// The pieces handed out so far stay within the range.
    pub closed spec fn wf(self) -> bool {
        &&& self.range.wf()
        &&& self.offset <= self.range.size
    }

    /// What a well-formed cut keeps: the range is well formed and no more
    /// of it than its size has been handed out.
    pub proof fn lemma_wf(self)
        requires
            self.wf(),
        ensures
            self.whole().wf(),
            0 <= self.done() <= self.whole().size,
    {
    }

    /// Returns the next piece, or `None` once the range is used up: the
    /// largest power of two, of order at most the maximum, that fits in what
    /// is left and divides the address reached.
    pub fn next(&mut self) -> (r: Option<AddrRange<S>>)
        requires
            old(self).wf(),
        ensures
            final(self).wf(),
            final(self).whole() == old(self).whole(),
            final(self).max() == old(self).max(),
            old(self).done() >= old(self).whole().size ==> r.is_none() && final(self).done()
                == old(self).done(),
            old(self).done() < old(self).whole().size ==> {
                let p = r.unwrap();
                let diff = old(self).whole().size - old(self).done();
                &&& r.is_some()
                &&& p.wf()
                &&& p.lo() == old(self).whole().lo() + old(self).done()
                &&& final(self).done() == old(self).done() + p.size
                &&& exists|k: nat|
                    {
                        &&& p.size == pow2(k)
                        &&& piece_fits(p.lo(), diff, old(self).max(), k)
                        &&& !piece_fits(p.lo(), diff, old(self).max(), k + 1)
                    }
            },
    {
        if self.offset >= self.range.size {
            return None;
        }
        let diff = self.range.size - self.offset;
        proof {
            vstd::arithmetic::power2::lemma2_to64();
            use_type_invariant(self.range.base);
        }
        let at = self.range.base.usize() + self.offset;
        let mut k: u32 = 0;
        let mut step: u64 = 1;
        while k < self.max_order && step <= diff / 2 && at % (step * 2) == 0
            invariant
                step == pow2(k as nat),
                step > 0,
                piece_fits(at as int, diff as int, self.max_order as int, k as nat),
                diff == self.range.size - self.offset,
            decreases self.max_order - k,
        {
            proof {
                vstd::arithmetic::power2::lemma_pow2_unfold((k + 1) as nat);
            }
            step = step * 2;
            k = k + 1;
        }
        proof {
            vstd::arithmetic::power2::lemma_pow2_unfold((k + 1) as nat);
            assert(!piece_fits(at as int, diff as int, self.max_order as int, (k + 1) as nat));
        }
        let piece = AddrRange { base: self.range.base.byte_add(self.offset), size: step };
        self.offset = self.offset + step;
        Some(piece)
    }
}

impl<S: AddrSpace> AddrRange<S> {
    /// Cuts the range into power-of-two pieces. The range is first shrunk to
    /// the multiples of `2^min_order` within it; the pieces are at most
    /// `2^max_order` bytes. Nothing is cut when no such multiple bounds a
    /// non-empty range.
    pub fn split_aligned(self, min_order: u8, max_order: u8) -> (r: SplitAligned<S>)
        requires
            self.wf(),
            min_order < 64,
        ensures
            r.wf(),
            r.done() == 0 || r.done() == r.whole().size,
            r.max() == max_order,
            ({
                let a = pow2(min_order as nat) as int;
                let lo = next_multiple(self.lo(), a);
                let hi = prev_multiple(self.hi(), a);
                if lo < S::range_end() && hi >= S::range_start() && lo <= hi {
                    r.whole().lo() == lo && r.whole().hi() == hi && r.done() == 0
                } else {
                    r.whole() == self && r.done() == self.size
                }
            }),
    {
        let empty = SplitAligned { range: self, offset: self.size, max_order: max_order as u32 };
        proof {
            vstd::bits::lemma_u64_pow2_no_overflow(min_order as nat);
            vstd::bits::lemma_u64_shl_is_mul(1, min_order as u64);
            vstd::arithmetic::power2::lemma_pow2_pos(min_order as nat);
        }
        let min_align = 1u64 << (min_order as u64);
        let base = match self.start().align_ceil(min_align) {
            Some(b) => b,
            None => {
                return empty;
            },
        };
        let end = match self.end().align_floor(min_align) {
            Some(e) => e,
            None => {
                return empty;
            },
        };
        if end.usize() < base.usize() {
            return empty;
        }
        proof {
            use_type_invariant(end);
        }
        let range = AddrRange { base, size: end.usize() - base.usize() };
        SplitAligned { range, offset: 0, max_order: max_order as u32 }
    }
}

} // verus!
