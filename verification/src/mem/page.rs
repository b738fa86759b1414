//! Pages, page ranges and a bitmap of occupied pages.
use crate::mem::addr::{next_multiple, prev_multiple, Addr, AddrSpace};
use core::ops::Range;
use vstd::prelude::*;

verus! {

/// A page size.
#[derive(Debug, Clone, Copy, PartialEq, Eq, Structural)]
pub enum PageSize {
    Small,
    Large,
    Huge,
}

impl PageSize {
    /// The page size in bytes.
    pub open spec fn bytes(self) -> nat {
        match self {
            PageSize::Small => 0x1000,
            PageSize::Large => 0x20_0000,
            PageSize::Huge => 0x4000_0000,
        }
    }

    /// Returns the alignment of a page, the same as its size.
    pub fn alignment(self) -> (r: u64)
        ensures
            r == self.bytes(),
    {
        self.usize()
    }

    /// Returns the page size in bytes.
    pub fn usize(self) -> (r: u64)
        ensures
            r == self.bytes(),
    {
        match self {
            PageSize::Small => 4 * crate::common::KiB,
            PageSize::Large => 2 * crate::common::MiB,
            PageSize::Huge => crate::common::GiB,
        }
    }
}

/// A page: an address aligned to its page size.
#[derive(Debug)]
pub struct Page<S: AddrSpace> {
    base: Addr<S>,
    size: PageSize,
}

impl<S: AddrSpace> Clone for Page<S> {
    fn clone(&self) -> (r: Self)
        ensures
            r == *self,
    {
        *self
    }
}

impl<S: AddrSpace> Copy for Page<S> {

}

impl<S: AddrSpace> Page<S> {
    /// The first address of the page.
    pub closed spec fn base(&self) -> Addr<S> {
        self.base
    }

    /// The size of the page.
    pub closed spec fn spec_size(&self) -> PageSize {
        self.size
    }

    /// Creates the page of `size` at `base`, which must be aligned to it.
    pub fn new(base: Addr<S>, size: PageSize) -> (r: Self)
        requires
            base@ as nat % size.bytes() == 0,
        ensures
            r.base() == base,
            r.spec_size() == size,
    {
        Page { base, size }
    }

    /// Returns the first address of the page.
    pub fn start(&self) -> (r: Addr<S>)
        ensures
            r == self.base(),
    {
        self.base
    }

    /// Returns the address just past the page.
    pub fn end(&self) -> (r: Addr<S>)
        requires
            self.base()@ + self.spec_size().bytes() <= S::range_end(),
        ensures
            r@ == self.base()@ + self.spec_size().bytes(),
    {
        self.base.byte_add(self.size.usize())
    }

    /// Returns the size of the page.
    pub fn size(&self) -> (r: PageSize)
        ensures
            r == self.spec_size(),
    {
        self.size
    }

    /// Returns the addresses of the page.
    pub fn range(&self) -> (r: Range<Addr<S>>)
        requires
            self.base()@ + self.spec_size().bytes() <= S::range_end(),
        ensures
            r.start == self.base(),
            r.end@ == self.base()@ + self.spec_size().bytes(),
    {
        Range { start: self.start(), end: self.end() }
    }
}

/// The pages of one size from `start` up to `end`.
#[derive(Debug)]
pub struct Pages<S: AddrSpace> {
    start: Addr<S>,
    end: Addr<S>,
    size: PageSize,
}

impl<S: AddrSpace> Pages<S> {
    /// The first address.
    pub closed spec fn first(&self) -> Addr<S> {
        self.start
    }

    /// The address the pages run up to.
    pub closed spec fn last(&self) -> Addr<S> {
        self.end
    }

    /// The size of the pages.
    pub closed spec fn spec_size(&self) -> PageSize {
        self.size
    }

    /// The pages from `start_page` up to, not including, `end_page`, of the
    /// size of `start_page`.
    pub fn new(start_page: Page<S>, end_page: Page<S>) -> (r: Self)
        ensures
            r.first() == start_page.base(),
            r.last() == end_page.base(),
            r.spec_size() == start_page.spec_size(),
    {
        Pages { start: start_page.base, end: end_page.base, size: start_page.size }
    }

    /// Returns the first address.
    pub fn start(&self) -> (r: Addr<S>)
        ensures
            r == self.first(),
    {
        self.start
    }

    /// Returns the size of the pages.
    pub fn page_size(&self) -> (r: PageSize)
        ensures
            r == self.spec_size(),
    {
        self.size
    }

    /// Returns the number of whole pages from the start to the end; zero if
    /// the end is not above the start.
    pub fn len(&self) -> (r: u64)
        ensures
            r == if self.last()@ > self.first()@ {
                (self.last()@ - self.first()@) / self.spec_size().bytes() as int
            } else {
                0
            },
    {
        let diff = self.end.usize().saturating_sub(self.start.usize());
        diff / self.size.usize()
    }

    /// No pages, of the small size, at address 0.
    pub fn empty() -> (r: Self)
        requires
            S::range_start() == 0,
        ensures
            r.first()@ == 0,
            r.last()@ == 0,
            r.spec_size() == PageSize::Small,
    {
        proof {
            S::lemma_range();
        }
        Pages { start: Addr::new(0), end: Addr::new(0), size: PageSize::Small }
    }
}

/// A source of pages.
pub trait Pager<S: AddrSpace> {
    /// Allocates `cnt` contiguous pages of `page_size`.
    fn allocate_pages(&mut self, cnt: u64, page_size: PageSize) -> Option<Page<S>>;

    /// Allocates `cnt` contiguous pages of `page_size` at `at`, or
    /// elsewhere if they are not available there.
    fn allocate_pages_at(&mut self, cnt: u64, page_size: PageSize, at: Page<S>) -> Option<Page<S>>;

    /// Gives back `cnt` pages from `page`, allocated by this pager.
    fn deallocate_pages(&mut self, page: Page<S>, cnt: u64);
}

/// Bit `i` of `map`, bits numbered from the least significant bit of the
/// first byte.
pub open spec fn bit(map: Seq<u8>, i: int) -> bool {
    (map[i / 8] >> ((i % 8) as u8)) & 1 == 1
}

/// Bits `idx .. idx + cnt` of `map` are all clear.
pub open spec fn window_clear(map: Seq<u8>, idx: int, cnt: int) -> bool {
    forall|j: int| idx <= j < idx + cnt ==> !#[trigger] bit(map, j)
}

/// Setting or clearing bit `b` of byte `w` changes that bit alone.
proof fn lemma_byte_bit(w: u8, b: u8, j: u8)
    by (bit_vector)
    requires
        b < 8,
        j < 8,
    ensures
        ((w | (1u8 << b)) >> j) & 1 == 1 <==> (j == b || (w >> j) & 1 == 1),
        ((w & !(1u8 << b)) >> j) & 1 == 1 <==> (j != b && (w >> j) & 1 == 1),
        (0xFFu8 >> j) & 1 == 1,
{
}

/// A bitmap of the occupied pages of `len` pages from `base`, a page
/// being `PAGE_SIZE` bytes.
pub struct PageBitmap<const PAGE_SIZE: u64, S: AddrSpace> {
    base: Addr<S>,
    len: u64,
    map: Vec<u8>,
}

impl<const PAGE_SIZE: u64, S: AddrSpace> PageBitmap<PAGE_SIZE, S> {
    /// The first managed address.
    pub closed spec fn spec_base(&self) -> Addr<S> {
        self.base
    }

    /// The number of managed pages.
    pub closed spec fn spec_len(&self) -> nat {
        self.len as nat
    }

    /// The bytes of the bitmap.
    pub closed spec fn bytes(&self) -> Seq<u8> {
        self.map@
    }

    /// The number of bits of the bitmap.
    pub open spec fn nbits(&self) -> int {
        (8 * self.bytes().len()) as int
    }

    /// The base is page aligned, the bitmap has a byte per managed page,
    /// and every page it has a bit for lies within the address space.
    pub closed spec fn wf(&self) -> bool {
        &&& PAGE_SIZE > 0
        &&& self.base@ % PAGE_SIZE == 0
        &&& self.map@.len() == self.len
        &&& self.base@ + 8 * self.len * PAGE_SIZE <= S::range_end()
    }

    /// Returns the alignment a bitmap's memory needs: that of a machine
    /// word.
    pub fn align_required() -> (r: u64)
        ensures
            r == 8,
    {
        8
    }

    /// Returns the bytes a bitmap managing `page_cnt` pages takes: two
    /// machine words and a byte per page.
    pub fn bytes_required(page_cnt: u64) -> (r: u64)
        requires
            page_cnt + 16 <= u64::MAX,
        ensures
            r == 16 + page_cnt,
    {
        2 * 8 + page_cnt
    }

    /// Returns the range of managed memory.
    pub fn managed_range(&self) -> (r: Range<Addr<S>>)
        requires
            self.wf(),
        ensures
            r.start == self.spec_base(),
            r.end@ == self.spec_base()@ + self.spec_len() * PAGE_SIZE,
    {
        proof {
            assert(self.len * PAGE_SIZE <= 8 * self.len * PAGE_SIZE) by (nonlinear_arith);
        }
        Range { start: self.base, end: self.base.byte_add(self.len * PAGE_SIZE) }
    }

    /// A bitmap managing `page_cnt` pages from `base`, all occupied.
    pub fn init(base: Addr<S>, page_cnt: u64) -> (r: Self)
        requires
            PAGE_SIZE > 0,
            base@ % PAGE_SIZE == 0,
            base@ + 8 * page_cnt * PAGE_SIZE <= S::range_end(),
        ensures
            r.wf(),
            r.spec_base() == base,
            r.spec_len() == page_cnt,
            forall|i: int| 0 <= i < r.nbits() ==> #[trigger] bit(r.bytes(), i),
    {
        let mut map: Vec<u8> = Vec::new();
        while (map.len() as u64) < page_cnt
            invariant
                map@.len() <= page_cnt,
                forall|k: int| 0 <= k < map@.len() ==> map@[k] == 0xFF,
            decreases page_cnt - map@.len(),
        {
            map.push(0xFF);
        }
        let r = PageBitmap { base, len: page_cnt, map };
        proof {
            assert forall|i: int| 0 <= i < r.nbits() implies #[trigger] bit(r.bytes(), i) by {
                lemma_byte_bit(0xFF, 0, (i % 8) as u8);
            }
        }
        r
    }

    /// Sets the occupancy bits of the `page_cnt` pages from the page at
    /// `addr`, which must be page aligned and lie, with them, in the bitmap.
    pub fn set_unchecked(&mut self, addr: Addr<S>, page_cnt: u64, is_occupied: bool)
        requires
            old(self).wf(),
            addr@ >= old(self).spec_base()@,
            (addr@ - old(self).spec_base()@) / PAGE_SIZE as int + page_cnt <= old(self).nbits(),
        ensures
            final(self).wf(),
            final(self).spec_base() == old(self).spec_base(),
            final(self).spec_len() == old(self).spec_len(),
            final(self).nbits() == old(self).nbits(),
            forall|i: int|
                0 <= i < old(self).nbits() ==> #[trigger] bit(final(self).bytes(), i) == if (addr@
                    - old(self).spec_base()@) / PAGE_SIZE as int <= i < (addr@ - old(
                    self,
                ).spec_base()@) / PAGE_SIZE as int + page_cnt {
                    is_occupied
                } else {
                    bit(old(self).bytes(), i)
                },
    {
        let idx = (addr.usize() - self.base.usize()) / PAGE_SIZE;
        proof {
            assert(8 * self.map@.len() <= u64::MAX) by {
                assert(self.map@.len() == self.len);
                assert(8 * self.len <= 8 * self.len * PAGE_SIZE) by (nonlinear_arith)
                    requires
                        PAGE_SIZE > 0,
                ;
            }
        }
        let end = idx + page_cnt;
        let mut i = idx;
        while i < end
            invariant
                self.wf(),
                self.base == old(self).base,
                self.len == old(self).len,
                idx <= i <= end,
                end <= 8 * self.map@.len(),
                end == idx + page_cnt,
                idx == (addr@ - old(self).spec_base()@) / PAGE_SIZE as int,
                forall|k: int|
                    0 <= k < 8 * self.map@.len() ==> #[trigger] bit(self.map@, k) == if idx <= k < i {
                        is_occupied
                    } else {
                        bit(old(self).map@, k)
                    },
            decreases end - i,
        {
            let n: usize = self.map.len();
            proof {
                assert(i / 8 < n);
            }
            let byte_idx = (i / 8) as usize;
            assert(byte_idx as int == i as int / 8);
            let b = (i % 8) as u8;
            let w = self.map[byte_idx];
            let nw = if is_occupied {
                w | (1u8 << b)
            } else {
                w & !(1u8 << b)
            };
            let ghost before = self.map@;
            self.map.set(byte_idx, nw);
            proof {
                assert forall|k: int| 0 <= k < 8 * self.map@.len() implies #[trigger] bit(self.map@, k)
                    == if idx <= k < i + 1 {
                    is_occupied
                } else {
                    bit(old(self).map@, k)
                } by {
                    assert(bit(before, k) == if idx <= k < i {
                        is_occupied
                    } else {
                        bit(old(self).map@, k)
                    });
                    lemma_byte_bit(w, b, (k % 8) as u8);
                    vstd::arithmetic::div_mod::lemma_fundamental_div_mod(k, 8);
                    vstd::arithmetic::div_mod::lemma_fundamental_div_mod(i as int, 8);
                    if k / 8 == i / 8 {
                        assert(before[k / 8] == w);
                        assert(self.map@[k / 8] == nw);
                        assert((k % 8) as u8 == b <==> k == i);
                    } else {
                        assert(k != i);
                        assert(self.map@[k / 8] == before[k / 8]);
                    }
                }
            }
            i = i + 1;
        }
    }

    /// Sets the occupancy bits of the managed pages that overlap `size`
    /// bytes from `addr_start`. Does nothing if that range leaves the
    /// address space or misses the managed pages.
    pub fn set(&mut self, addr_start: Addr<S>, size: u64, is_occupied: bool)
        requires
            old(self).wf(),
        ensures
            final(self).wf(),
            final(self).spec_base() == old(self).spec_base(),
            final(self).spec_len() == old(self).spec_len(),
            final(self).nbits() == old(self).nbits(),
            ({
                let b = old(self).spec_base()@ as int;
                let s = if addr_start@ >= b {
                    addr_start@ as int
                } else {
                    b
                };
                let e = if addr_start@ + size <= b + old(self).spec_len() * PAGE_SIZE {
                    addr_start@ + size
                } else {
                    b + old(self).spec_len() * PAGE_SIZE
                };
                let first = (prev_multiple(s, PAGE_SIZE as int) - b) / PAGE_SIZE as int;
                let stop = (next_multiple(e, PAGE_SIZE as int) - b) / PAGE_SIZE as int;
                forall|i: int|
                    0 <= i < old(self).nbits() ==> #[trigger] bit(final(self).bytes(), i) == if addr_start@
                        + size < S::range_end() && prev_multiple(s, PAGE_SIZE as int) < next_multiple(
                        e,
                        PAGE_SIZE as int,
                    ) && first <= i < stop {
                        is_occupied
                    } else {
                        bit(old(self).bytes(), i)
                    }
            }),
    {
        proof {
            use_type_invariant(addr_start);
            use_type_invariant(self.base);
        }
        let addr_end = match addr_start.checked_byte_add(size) {
            Some(a) => a,
            None => {
                return ;
            },
        };
        proof {
            assert(self.len * PAGE_SIZE <= 8 * self.len * PAGE_SIZE) by (nonlinear_arith);
        }
        let managed_end = self.base.byte_add(self.len * PAGE_SIZE);
        let start = if addr_start.usize() >= self.base.usize() {
            addr_start.usize()
        } else {
            self.base.usize()
        };
        proof {
            vstd::arithmetic::div_mod::lemma_mod_decreases(start as nat, PAGE_SIZE as nat);
        }
        let section_start = start - start % PAGE_SIZE;
        let end = if addr_end.usize() <= managed_end.usize() {
            addr_end.usize()
        } else {
            managed_end.usize()
        };
        let b = self.base.usize();
        proof {
            let p = PAGE_SIZE as int;
            let l = self.len as int;
            vstd::arithmetic::div_mod::lemma_mod_multiples_basic(l, p);
            assert((l * p) % p == 0);
            assert((b + l * p) % p == 0) by {
                vstd::arithmetic::div_mod::lemma_add_mod_noop(b as int, l * p, p);
                vstd::arithmetic::div_mod::lemma_small_mod(0, p as nat);
            }
            crate::mem::addr::lemma_next_multiple(end as int, p, b + l * p);
            crate::mem::addr::lemma_prev_multiple(start as int, p, b as int);
        }
        let rem = end % PAGE_SIZE;
        proof {
            assert(next_multiple(end as int, PAGE_SIZE as int) <= b + self.len * PAGE_SIZE);
            vstd::arithmetic::div_mod::lemma_mod_decreases(end as nat, PAGE_SIZE as nat);
        }
        let section_end = if rem == 0 {
            end
        } else {
            end - rem + PAGE_SIZE
        };
        if section_start >= section_end {
            return ;
        }
        let page_cnt = (section_end - section_start) / PAGE_SIZE;
        proof {
            let p = PAGE_SIZE as int;
            let ss = section_start as int;
            let se = section_end as int;
            let bb = b as int;
            vstd::arithmetic::div_mod::lemma_fundamental_div_mod(ss - bb, p);
            vstd::arithmetic::div_mod::lemma_fundamental_div_mod(se - ss, p);
            vstd::arithmetic::div_mod::lemma_fundamental_div_mod(se - bb, p);
            vstd::arithmetic::div_mod::lemma_sub_mod_noop(ss, bb, p);
            vstd::arithmetic::div_mod::lemma_sub_mod_noop(se, ss, p);
            vstd::arithmetic::div_mod::lemma_sub_mod_noop(se, bb, p);
            vstd::arithmetic::div_mod::lemma_small_mod(0, p as nat);
            assert((ss - bb) % p == 0 && (se - ss) % p == 0 && (se - bb) % p == 0);
            assert((ss - bb) / p + (se - ss) / p == (se - bb) / p) by (nonlinear_arith)
                requires
                    ss - bb == p * ((ss - bb) / p),
                    se - ss == p * ((se - ss) / p),
                    se - bb == p * ((se - bb) / p),
                    p > 0,
            ;
            assert((se - bb) / p <= self.len) by (nonlinear_arith)
                requires
                    se - bb == p * ((se - bb) / p),
                    se <= bb + self.len * p,
                    p > 0,
            ;
            assert(self.len <= 8 * self.map@.len());
        }
        let at = Addr::<S>::new(section_start);
        self.set_unchecked(at, page_cnt, is_occupied);
    }

    /// Returns the address of the first run of `page_cnt` unoccupied pages
    /// the bitmap has bits for, or `None` if there is none.
    pub fn find_unoccupied(&self, page_cnt: u64) -> (r: Option<Addr<S>>)
        requires
            self.wf(),
            page_cnt > 0,
        ensures
            r.is_none() <==> forall|idx: int|
                0 <= idx <= self.nbits() - page_cnt ==> !#[trigger] window_clear(
                    self.bytes(),
                    idx,
                    page_cnt as int,
                ),
            r.is_some() ==> exists|idx: int|
                {
                    &&& 0 <= idx <= self.nbits() - page_cnt
                    &&& #[trigger] window_clear(self.bytes(), idx, page_cnt as int)
                    &&& forall|k: int|
                        0 <= k < idx ==> !#[trigger] window_clear(self.bytes(), k, page_cnt as int)
                    &&& r.unwrap()@ == self.spec_base()@ + idx * PAGE_SIZE
                },
    {
        proof {
            assert(8 * self.len <= 8 * self.len * PAGE_SIZE) by (nonlinear_arith)
                requires
                    PAGE_SIZE > 0,
            ;
        }
        let nbits = 8 * (self.map.len() as u64);
        if page_cnt > nbits {
            return None;
        }
        let mut idx: u64 = 0;
        while idx <= nbits - page_cnt
            invariant
                self.wf(),
                nbits == self.nbits(),
                page_cnt <= nbits,
                page_cnt > 0,
                idx <= nbits - page_cnt + 1,
                forall|k: int|
                    0 <= k < idx ==> !#[trigger] window_clear(self.bytes(), k, page_cnt as int),
            decreases nbits - page_cnt + 1 - idx,
        {
            let mut j: u64 = 0;
            let mut clear = true;
            while j < page_cnt
                invariant
                    self.wf(),
                    nbits == self.nbits(),
                    idx + page_cnt <= nbits,
                    j <= page_cnt,
                    clear == forall|m: int| idx <= m < idx + j ==> !#[trigger] bit(self.bytes(), m),
                decreases page_cnt - j,
            {
                let i = idx + j;
                let n: usize = self.map.len();
                proof {
                    assert(i / 8 < n);
                }
                let bi = (i / 8) as usize;
                assert(bi as int == i as int / 8);
                let byte = self.map[bi];
                let set = (byte >> ((i % 8) as u8)) & 1 == 1;
                proof {
                    assert(set == bit(self.bytes(), i as int));
                }
                if set {
                    clear = false;
                }
                j = j + 1;
            }
            if clear {
                proof {
                    assert(window_clear(self.bytes(), idx as int, page_cnt as int));
                    assert(self.len * PAGE_SIZE * 8 == 8 * self.len * PAGE_SIZE) by (nonlinear_arith);
                    assert(idx * PAGE_SIZE <= 8 * self.len * PAGE_SIZE) by (nonlinear_arith)
                        requires
                            idx <= 8 * self.len,
                    ;
                }
                return Some(self.base.byte_add(idx * PAGE_SIZE));
            }
            proof {
                let m = choose|m: int| idx <= m < idx + page_cnt && #[trigger] bit(self.bytes(), m);
                assert(!window_clear(self.bytes(), idx as int, page_cnt as int)) by {
                    assert(bit(self.bytes(), m));
                }
            }
            idx = idx + 1;
        }
        None
    }
}

} // verus!
