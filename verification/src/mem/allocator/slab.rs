//! Slab allocation of small power-of-two sized slots.
//!
//! A cache serves slots of one size. It owns page-sized slabs, each holding
//! a bitmap of its slots (a set bit is a free slot) and the count of free
//! slots, and keeps its slabs on three lists: empty (every slot free),
//! partial and full (no slot free).
use crate::mem::addr::{next_multiple, PageSize};
use crate::mem::allocator::page::pages_refused;
use crate::mem::phy::{alloc_order_of, frames_per_page, PhysicalMemoryManager, FRAME_SIZE};
use crate::mem::virt::PhysicalRemapSpace;
use vstd::arithmetic::power2::pow2;
use vstd::prelude::*;

verus! {

/// Number of `u64` words in the bitmap of a slab.
pub const SLAB_MAP_LEN: usize = 8;

/// Offset in a slab page of the buffer holding the slots: it follows the
/// list link (two words), the bitmap and the free count.
pub const SLAB_BUF_START: u64 = 82;

/// Size of the buffer holding the slots: the page less the link, the
/// bitmap, the free count and a lock byte.
pub const SLAB_BUF_SIZE: u64 = 4013;

/// Size of a slab page.
pub const SLAB_PAGE_SIZE: u64 = 0x1000;

/// Size in bytes of a slot of order `order`.
pub open spec fn slot_size(order: u8) -> int {
    pow2(order as nat) as int
}

/// Offset in a slab page of its first slot: the buffer start rounded up to
/// the slot alignment, which is the slot size.
pub open spec fn slots_offset(order: u8) -> int {
    next_multiple(SLAB_BUF_START as int, slot_size(order))
}

/// Number of slots of order `order` that fit in the rest of the buffer.
pub open spec fn slots_len(order: u8) -> int {
    (SLAB_BUF_START + SLAB_BUF_SIZE - slots_offset(order)) / slot_size(order)
}

/// Address of slot `i` of the slab at `base`.
pub open spec fn slot_addr(base: int, order: u8, i: int) -> int {
    base + slots_offset(order) + i * slot_size(order)
}

/// The slot orders served by slabs.
pub open spec fn valid_order(order: u8) -> bool {
    3 <= order <= 10
}

/// The layout of each slot order: offset of the first slot and number of
/// slots.
pub proof fn lemma_slot_layout(order: u8)
    requires
        valid_order(order),
    ensures
        2 <= slots_len(order) <= 500,
        SLAB_BUF_START <= slots_offset(order),
        slots_offset(order) % slot_size(order) == 0,
        slots_offset(order) + slots_len(order) * slot_size(order) <= SLAB_BUF_START + SLAB_BUF_SIZE,
        8 <= slot_size(order) <= 1024,
        SLAB_PAGE_SIZE as int % slot_size(order) == 0,
{
    vstd::arithmetic::power2::lemma2_to64();
    if order == 3 {
        assert(slot_size(order) == 8);
        assert(82int % 8 == 2) by (nonlinear_arith);
        assert(next_multiple(82, 8) == 88);
        assert(slots_offset(order) == 88);
        assert((4095int - 88) / 8 == 500) by (nonlinear_arith);
        assert(slots_len(order) == 500);
        assert(88int % 8 == 0 && 4096int % 8 == 0);
        assert(slots_offset(order) + slots_len(order) * slot_size(order) <= 4095) by (nonlinear_arith)
            requires
                slots_len(order) == 500,
                slot_size(order) == 8,
                slots_offset(order) == 88,
        ;
    } else if order == 4 {
        assert(slot_size(order) == 16);
        assert(82int % 16 == 2) by (nonlinear_arith);
        assert(next_multiple(82, 16) == 96);
        assert(slots_offset(order) == 96);
        assert((4095int - 96) / 16 == 249) by (nonlinear_arith);
        assert(slots_len(order) == 249);
        assert(96int % 16 == 0 && 4096int % 16 == 0);
        assert(slots_offset(order) + slots_len(order) * slot_size(order) <= 4095) by (nonlinear_arith)
            requires
                slots_len(order) == 249,
                slot_size(order) == 16,
                slots_offset(order) == 96,
        ;
    } else if order == 5 {
        assert(slot_size(order) == 32);
        assert(82int % 32 == 18) by (nonlinear_arith);
        assert(next_multiple(82, 32) == 96);
        assert(slots_offset(order) == 96);
        assert((4095int - 96) / 32 == 124) by (nonlinear_arith);
        assert(slots_len(order) == 124);
        assert(96int % 32 == 0 && 4096int % 32 == 0);
        assert(slots_offset(order) + slots_len(order) * slot_size(order) <= 4095) by (nonlinear_arith)
            requires
                slots_len(order) == 124,
                slot_size(order) == 32,
                slots_offset(order) == 96,
        ;
    } else if order == 6 {
        assert(slot_size(order) == 64);
        assert(82int % 64 == 18) by (nonlinear_arith);
        assert(next_multiple(82, 64) == 128);
        assert(slots_offset(order) == 128);
        assert((4095int - 128) / 64 == 61) by (nonlinear_arith);
        assert(slots_len(order) == 61);
        assert(128int % 64 == 0 && 4096int % 64 == 0);
        assert(slots_offset(order) + slots_len(order) * slot_size(order) <= 4095) by (nonlinear_arith)
            requires
                slots_len(order) == 61,
                slot_size(order) == 64,
                slots_offset(order) == 128,
        ;
    } else if order == 7 {
        assert(slot_size(order) == 128);
        assert(82int % 128 == 82) by (nonlinear_arith);
        assert(next_multiple(82, 128) == 128);
        assert(slots_offset(order) == 128);
        assert((4095int - 128) / 128 == 30) by (nonlinear_arith);
        assert(slots_len(order) == 30);
        assert(128int % 128 == 0 && 4096int % 128 == 0);
        assert(slots_offset(order) + slots_len(order) * slot_size(order) <= 4095) by (nonlinear_arith)
            requires
                slots_len(order) == 30,
                slot_size(order) == 128,
                slots_offset(order) == 128,
        ;
    } else if order == 8 {
        assert(slot_size(order) == 256);
        assert(82int % 256 == 82) by (nonlinear_arith);
        assert(next_multiple(82, 256) == 256);
        assert(slots_offset(order) == 256);
        assert((4095int - 256) / 256 == 14) by (nonlinear_arith);
        assert(slots_len(order) == 14);
        assert(256int % 256 == 0 && 4096int % 256 == 0);
        assert(slots_offset(order) + slots_len(order) * slot_size(order) <= 4095) by (nonlinear_arith)
            requires
                slots_len(order) == 14,
                slot_size(order) == 256,
                slots_offset(order) == 256,
        ;
    } else if order == 9 {
        assert(slot_size(order) == 512);
        assert(82int % 512 == 82) by (nonlinear_arith);
        assert(next_multiple(82, 512) == 512);
        assert(slots_offset(order) == 512);
        assert((4095int - 512) / 512 == 6) by (nonlinear_arith);
        assert(slots_len(order) == 6);
        assert(512int % 512 == 0 && 4096int % 512 == 0);
        assert(slots_offset(order) + slots_len(order) * slot_size(order) <= 4095) by (nonlinear_arith)
            requires
                slots_len(order) == 6,
                slot_size(order) == 512,
                slots_offset(order) == 512,
        ;
    } else {
        assert(order == 10);
        assert(slot_size(order) == 1024);
        assert(82int % 1024 == 82) by (nonlinear_arith);
        assert(next_multiple(82, 1024) == 1024);
        assert(slots_offset(order) == 1024);
        assert((4095int - 1024) / 1024 == 2) by (nonlinear_arith);
        assert(slots_len(order) == 2);
        assert(1024int % 1024 == 0 && 4096int % 1024 == 0);
        assert(slots_offset(order) + slots_len(order) * slot_size(order) <= 4095) by (nonlinear_arith)
            requires
                slots_len(order) == 2,
                slot_size(order) == 1024,
                slots_offset(order) == 1024,
        ;
    }
}

/// A slot lies inside its slab page.
pub proof fn lemma_slot_in_page(base: int, order: u8, i: int)
    requires
        valid_order(order),
        0 <= i < slots_len(order),
    ensures
        base + SLAB_BUF_START <= slot_addr(base, order, i),
        slot_addr(base, order, i) + slot_size(order) < base + SLAB_PAGE_SIZE,
{
    lemma_slot_layout(order);
    let s = slot_size(order);
    assert(i * s + s <= slots_len(order) * s) by (nonlinear_arith)
        requires
            i < slots_len(order),
            s > 0,
    ;
    assert(i * s >= 0) by (nonlinear_arith)
        requires
            i >= 0,
            s > 0,
    ;
}

/// A slot determines its slab page and its index when slab pages are
/// page-aligned.
pub proof fn lemma_slot_unique(b1: int, i1: int, b2: int, i2: int, order: u8)
    requires
        valid_order(order),
        0 <= i1 < slots_len(order),
        0 <= i2 < slots_len(order),
        b1 % (SLAB_PAGE_SIZE as int) == 0,
        b2 % (SLAB_PAGE_SIZE as int) == 0,
        slot_addr(b1, order, i1) == slot_addr(b2, order, i2),
    ensures
        b1 == b2,
        i1 == i2,
{
    lemma_slot_in_page(b1, order, i1);
    lemma_slot_in_page(b2, order, i2);
    let p = SLAB_PAGE_SIZE as int;
    if b1 < b2 {
        vstd::arithmetic::div_mod::lemma_fundamental_div_mod(b1, p);
        vstd::arithmetic::div_mod::lemma_fundamental_div_mod(b2, p);
        assert(b1 + p <= b2) by (nonlinear_arith)
            requires
                b1 == p * (b1 / p),
                b2 == p * (b2 / p),
                b1 < b2,
                p > 0,
        ;
    } else if b2 < b1 {
        vstd::arithmetic::div_mod::lemma_fundamental_div_mod(b1, p);
        vstd::arithmetic::div_mod::lemma_fundamental_div_mod(b2, p);
        assert(b2 + p <= b1) by (nonlinear_arith)
            requires
                b1 == p * (b1 / p),
                b2 == p * (b2 / p),
                b2 < b1,
                p > 0,
        ;
    }
    let s = slot_size(order);
    lemma_slot_layout(order);
    assert(i1 * s == i2 * s);
    assert(i1 == i2) by (nonlinear_arith)
        requires
            i1 * s == i2 * s,
            s > 0,
    ;
}

/// Bit `i` of a bitmap stored as `u64` words, least significant bit first.
pub open spec fn bit(bm: Seq<u64>, i: int) -> bool {
    (bm[i / 64] >> ((i % 64) as u64)) & 1u64 == 1u64
}

/// Number of set bits among the first `n` bits.
pub open spec fn ones(bm: Seq<u64>, n: int) -> int
    decreases n,
{
    if n <= 0 {
        0
    } else {
        ones(bm, n - 1) + if bit(bm, n - 1) {
            1int
        } else {
            0int
        }
    }
}

/// The count of set bits lies between zero and the number of bits.
pub proof fn lemma_ones_bounds(bm: Seq<u64>, n: int)
    requires
        n >= 0,
    ensures
        0 <= ones(bm, n) <= n,
    decreases n,
{
    if n > 0 {
        lemma_ones_bounds(bm, n - 1);
    }
}

/// Two bitmaps that agree on the first `n` bits but bit `k` differ in
/// their counts by the change of bit `k`.
pub proof fn lemma_ones_update(b1: Seq<u64>, b2: Seq<u64>, n: int, k: int)
    requires
        n >= 0,
        forall|i: int| 0 <= i < n && i != k ==> bit(b1, i) == bit(b2, i),
    ensures
        ones(b2, n) == ones(b1, n) + if 0 <= k < n {
            (if bit(b2, k) {
                1int
            } else {
                0int
            }) - (if bit(b1, k) {
                1int
            } else {
                0int
            })
        } else {
            0int
        },
    decreases n,
{
    if n > 0 {
        lemma_ones_update(b1, b2, n - 1, k);
    }
}

/// No set bit among the first `n` gives a count of zero.
pub proof fn lemma_ones_none(bm: Seq<u64>, n: int)
    requires
        n >= 0,
        forall|i: int| 0 <= i < n ==> !bit(bm, i),
    ensures
        ones(bm, n) == 0,
    decreases n,
{
    if n > 0 {
        lemma_ones_none(bm, n - 1);
    }
}

/// All of the first `n` bits set gives a count of `n`.
pub proof fn lemma_ones_all(bm: Seq<u64>, n: int)
    requires
        n >= 0,
        forall|i: int| 0 <= i < n ==> bit(bm, i),
    ensures
        ones(bm, n) == n,
    decreases n,
{
    if n > 0 {
        lemma_ones_all(bm, n - 1);
    }
}

/// Clearing bit `b` of a word changes no other bit.
pub proof fn lemma_clear_bit(w: u64, b: u64, j: u64)
    requires
        b < 64,
        j < 64,
    ensures
        ((w & !(1u64 << b)) >> j) & 1u64 == if j == b {
            0u64
        } else {
            (w >> j) & 1u64
        },
{
    assert(((w & !(1u64 << b)) >> j) & 1u64 == if j == b {
        0u64
    } else {
        (w >> j) & 1u64
    }) by (bit_vector)
        requires
            b < 64,
            j < 64,
    ;
}

/// Setting bit `b` of a word changes no other bit.
pub proof fn lemma_set_bit(w: u64, b: u64, j: u64)
    requires
        b < 64,
        j < 64,
    ensures
        ((w | (1u64 << b)) >> j) & 1u64 == if j == b {
            1u64
        } else {
            (w >> j) & 1u64
        },
{
    assert(((w | (1u64 << b)) >> j) & 1u64 == if j == b {
        1u64
    } else {
        (w >> j) & 1u64
    }) by (bit_vector)
        requires
            b < 64,
            j < 64,
    ;
}

/// Every bit of an all-ones word is set.
pub proof fn lemma_all_ones(j: u64)
    requires
        j < 64,
    ensures
        (0xFFFF_FFFF_FFFF_FFFFu64 >> j) & 1u64 == 1u64,
{
    assert((0xFFFF_FFFF_FFFF_FFFFu64 >> j) & 1u64 == 1u64) by (bit_vector)
        requires
            j < 64,
    ;
}

/// How full a slab is.
#[derive(Debug, Clone, Copy, PartialEq, Eq, Structural)]
pub enum SlabFillLevel {
    /// Every slot is free.
    Empty,
    /// Some slots are free.
    Partial,
    /// No slot is free.
    Full,
}

/// A page-sized slab of slots of one order.
#[derive(Clone, Copy)]
pub struct Slab {
    base: u64,
    bitmap: [u64; 8],
    free_cnt: u16,
}

impl Slab {
    /// Address of the slab page.
    pub closed spec fn base_addr(&self) -> int {
        self.base as int
    }

    /// Slot `i` is free.
    pub closed spec fn slot_free(&self, i: int) -> bool {
        bit(self.bitmap@, i)
    }

    /// Number of free slots.
    pub closed spec fn free_count(&self) -> int {
        self.free_cnt as int
    }

    /// The slab is page-aligned, its page lies in the address space, and
    /// its free count is the number of free slots.
    pub closed spec fn wf(&self, order: u8) -> bool {
        &&& valid_order(order)
        &&& self.base % SLAB_PAGE_SIZE == 0
        &&& self.base + SLAB_PAGE_SIZE <= u64::MAX
        &&& self.free_cnt == ones(self.bitmap@, slots_len(order))
    }

    /// Address `a` is a slot of this slab that is handed out.
    pub open spec fn holds(&self, order: u8, a: int) -> bool {
        exists|i: int|
            0 <= i < slots_len(order) && !self.slot_free(i) && a == #[trigger] slot_addr(
                self.base_addr(),
                order,
                i,
            )
    }

    /// The fill level of a slab with `free` free slots.
    pub open spec fn level_of(free: int, order: u8) -> SlabFillLevel {
        if free == slots_len(order) {
            SlabFillLevel::Empty
        } else if free == 0 {
            SlabFillLevel::Full
        } else {
            SlabFillLevel::Partial
        }
    }

    /// Facts on a well-formed slab.
    pub proof fn lemma_wf(&self, order: u8)
        requires
            self.wf(order),
        ensures
            valid_order(order),
            0 <= self.free_count() <= slots_len(order),
            self.base_addr() % (SLAB_PAGE_SIZE as int) == 0,
            self.base_addr() + SLAB_PAGE_SIZE <= u64::MAX,
    {
        lemma_slot_layout(order);
        lemma_ones_bounds(self.bitmap@, slots_len(order));
    }

    /// A slab at `base` with every slot free.
    pub fn new(base: u64, order: u8) -> (r: Self)
        requires
            valid_order(order),
            base % SLAB_PAGE_SIZE == 0,
            base + SLAB_PAGE_SIZE <= u64::MAX,
        ensures
            r.wf(order),
            r.base_addr() == base,
            r.free_count() == slots_len(order),
            forall|i: int| 0 <= i < slots_len(order) ==> #[trigger] r.slot_free(i),
    {
        let (_, len) = slot_layout(order);
        let r = Slab { base, bitmap: [0xFFFF_FFFF_FFFF_FFFFu64; 8], free_cnt: len as u16 };
        proof {
            lemma_slot_layout(order);
            assert forall|i: int| 0 <= i < slots_len(order) implies #[trigger] bit(r.bitmap@, i) by {
                lemma_all_ones((i % 64) as u64);
            }
            lemma_ones_all(r.bitmap@, slots_len(order));
        }
        r
    }

    /// Returns the fill level of the slab.
    pub fn fill_level(&self, order: u8) -> (r: SlabFillLevel)
        requires
            self.wf(order),
        ensures
            r == Self::level_of(self.free_count(), order),
    {
        let (_, len) = slot_layout(order);
        if self.free_cnt as u64 == len {
            SlabFillLevel::Empty
        } else if self.free_cnt == 0 {
            SlabFillLevel::Full
        } else {
            SlabFillLevel::Partial
        }
    }

    /// Returns the address of the slab page.
    pub fn base(&self) -> (r: u64)
        ensures
            r == self.base_addr(),
    {
        self.base
    }

    /// Every slot is free.
    pub fn is_empty(&self, order: u8) -> (r: bool)
        requires
            self.wf(order),
        ensures
            r == (self.free_count() == slots_len(order)),
    {
        proof {
            lemma_slot_layout(order);
        }
        match self.fill_level(order) {
            SlabFillLevel::Empty => true,
            _ => false,
        }
    }

    /// No slot is free.
    pub fn is_full(&self, order: u8) -> (r: bool)
        requires
            self.wf(order),
        ensures
            r == (self.free_count() == 0),
    {
        proof {
            lemma_slot_layout(order);
        }
        match self.fill_level(order) {
            SlabFillLevel::Full => true,
            _ => false,
        }
    }

    /// Hands out the first free slot and returns its address; `None` if no
    /// slot is free.
    pub fn reserve(&mut self, order: u8) -> (r: Option<u64>)
        requires
            old(self).wf(order),
        ensures
            final(self).wf(order),
            final(self).base_addr() == old(self).base_addr(),
            r.is_none() <==> old(self).free_count() == 0,
            r.is_none() ==> *final(self) == *old(self),
            r.is_some() ==> exists|i: int|
                {
                    &&& 0 <= i < slots_len(order)
                    &&& #[trigger] old(self).slot_free(i)
                    &&& forall|j: int| 0 <= j < i ==> !old(self).slot_free(j)
                    &&& !final(self).slot_free(i)
                    &&& forall|j: int|
                        0 <= j < slots_len(order) && j != i ==> final(self).slot_free(j) == old(self).slot_free(j)
                    &&& r.unwrap() == slot_addr(old(self).base_addr(), order, i)
                },
            r.is_some() ==> final(self).free_count() == old(self).free_count() - 1,
    {
        if self.free_cnt == 0 {
            return None;
        }
        let (offset, len) = slot_layout(order);
        proof {
            lemma_slot_layout(order);
        }
        let mut i: u64 = 0;
        while i < len
            invariant
                *self == *old(self),
                self.wf(order),
                self.free_cnt > 0,
                len == slots_len(order),
                len <= 500,
                i <= len,
                forall|j: int| 0 <= j < i ==> !bit(self.bitmap@, j),
            ensures
                *self == *old(self),
                i <= len,
                forall|j: int| 0 <= j < i ==> !bit(self.bitmap@, j),
                i < len ==> bit(self.bitmap@, i as int),
            decreases len - i,
        {
            let w = self.bitmap[(i / 64) as usize];
            if (w >> (i % 64)) & 1 == 1 {
                break;
            }
            i = i + 1;
        }
        if i == len {
            proof {
                lemma_ones_none(self.bitmap@, slots_len(order));
            }
            return None;
        }
        let ghost old_map = self.bitmap@;
        let wi = (i / 64) as usize;
        let b = i % 64;
        let w = self.bitmap[wi];
        self.bitmap[wi] = w & !(1u64 << b);
        proof {
            assert(bit(old_map, i as int));
            assert forall|j: int| j != i && 0 <= j < 512 implies bit(self.bitmap@, j) == bit(old_map, j) by {
                if j / 64 == wi as int {
                    lemma_clear_bit(w, b, (j % 64) as u64);
                }
            }
            lemma_clear_bit(w, b, b);
            assert(!bit(self.bitmap@, i as int));
            lemma_ones_update(old_map, self.bitmap@, slots_len(order), i as int);
        }
        self.free_cnt = self.free_cnt - 1;
        proof {
            vstd::arithmetic::power2::lemma2_to64();
            assert((1u64 << (order as u64)) == pow2(order as nat)) by {
                vstd::bits::lemma_u64_shl_is_mul(1, order as u64);
            }
            lemma_slot_in_page(self.base as int, order, i as int);
        }
        let a = self.base + offset + i * (1u64 << (order as u64));
        proof {
            assert(forall|j: int|
                0 <= j < slots_len(order) && j != i ==> self.slot_free(j) == old(self).slot_free(j));
            assert(old(self).slot_free(i as int));
            assert(forall|j: int| 0 <= j < i ==> !old(self).slot_free(j));
            assert(a == slot_addr(old(self).base_addr(), order, i as int));
        }
        Some(a)
    }

    /// Takes back the handed-out slot `i`.
    pub fn free(&mut self, order: u8, i: u64)
        requires
            old(self).wf(order),
            i < slots_len(order),
            !old(self).slot_free(i as int),
        ensures
            final(self).wf(order),
            final(self).base_addr() == old(self).base_addr(),
            final(self).slot_free(i as int),
            forall|j: int|
                0 <= j < slots_len(order) && j != i ==> final(self).slot_free(j) == old(self).slot_free(j),
            final(self).free_count() == old(self).free_count() + 1,
    {
        proof {
            lemma_slot_layout(order);
        }
        let ghost old_map = self.bitmap@;
        let wi = (i / 64) as usize;
        let b = i % 64;
        let w = self.bitmap[wi];
        self.bitmap[wi] = w | (1u64 << b);
        proof {
            assert forall|j: int| j != i && 0 <= j < 512 implies bit(self.bitmap@, j) == bit(old_map, j) by {
                if j / 64 == wi as int {
                    lemma_set_bit(w, b, (j % 64) as u64);
                }
            }
            lemma_set_bit(w, b, b);
            assert(bit(self.bitmap@, i as int));
            lemma_ones_update(old_map, self.bitmap@, slots_len(order), i as int);
            lemma_ones_bounds(self.bitmap@, slots_len(order));
        }
        self.free_cnt = self.free_cnt + 1;
    }
}

/// Returns the offset of the first slot and the number of slots of a slab
/// of order `order`.
pub fn slot_layout(order: u8) -> (r: (u64, u64))
    requires
        valid_order(order),
    ensures
        r.0 == slots_offset(order),
        r.1 == slots_len(order),
{
    proof {
        vstd::arithmetic::power2::lemma2_to64();
        vstd::bits::lemma_u64_shl_is_mul(1, order as u64);
        lemma_slot_layout(order);
    }
    let size = 1u64 << (order as u64);
    proof {
        vstd::arithmetic::div_mod::lemma_mod_pos_bound(SLAB_BUF_START as int, size as int);
    }
    let offset = if SLAB_BUF_START % size == 0 {
        SLAB_BUF_START
    } else {
        SLAB_BUF_START + (size - SLAB_BUF_START % size)
    };
    (offset, (SLAB_BUF_START + SLAB_BUF_SIZE - offset) / size)
}


/// Index of the frame of the physical memory manager that backs the slab
/// page at virtual address `vaddr` of the remapped physical memory.
pub open spec fn frame_of(vaddr: int, pmm: &PhysicalMemoryManager) -> int {
    (vaddr - PhysicalRemapSpace::OFFSET - pmm.base_addr()) / (FRAME_SIZE as int)
}

/// The addresses of the slots handed out by the slabs `slabs`.
pub open spec fn held_addrs(slabs: Seq<Slab>, order: u8) -> Set<int> {
    Set::new(|a: int| exists|k: int| 0 <= k < slabs.len() && #[trigger] slabs[k].holds(order, a))
}

/// The slabs are well formed and their pages distinct.
pub open spec fn slabs_ok(slabs: Seq<Slab>, order: u8) -> bool {
    &&& forall|k: int| 0 <= k < slabs.len() ==> #[trigger] slabs[k].wf(order)
    &&& forall|k1: int, k2: int|
        0 <= k1 < slabs.len() && 0 <= k2 < slabs.len() && k1 != k2 ==> #[trigger] slabs[k1].base_addr()
            != #[trigger] slabs[k2].base_addr()
}

/// Handing out the free slot `i` of slab `k` adds exactly its address to
/// the slots handed out, and that address was not handed out before.
pub proof fn lemma_held_addrs_reserve(s0: Seq<Slab>, s1: Seq<Slab>, order: u8, k: int, i: int)
    requires
        slabs_ok(s0, order),
        s1.len() == s0.len(),
        0 <= k < s0.len(),
        forall|j: int| 0 <= j < s0.len() && j != k ==> s1[j] == s0[j],
        s1[k].base_addr() == s0[k].base_addr(),
        0 <= i < slots_len(order),
        s0[k].slot_free(i),
        !s1[k].slot_free(i),
        forall|j: int| 0 <= j < slots_len(order) && j != i ==> s1[k].slot_free(j) == s0[k].slot_free(j),
    ensures
        !held_addrs(s0, order).contains(slot_addr(s0[k].base_addr(), order, i)),
        held_addrs(s1, order) == held_addrs(s0, order).insert(slot_addr(s0[k].base_addr(), order, i)),
{
    let a = slot_addr(s0[k].base_addr(), order, i);
    s0[k].lemma_wf(order);
    if held_addrs(s0, order).contains(a) {
        let k2 = choose|k2: int| 0 <= k2 < s0.len() && #[trigger] s0[k2].holds(order, a);
        let i2 = choose|i2: int|
            0 <= i2 < slots_len(order) && !s0[k2].slot_free(i2) && a == #[trigger] slot_addr(
                s0[k2].base_addr(),
                order,
                i2,
            );
        s0[k2].lemma_wf(order);
        lemma_slot_unique(s0[k].base_addr(), i, s0[k2].base_addr(), i2, order);
    }
    assert forall|x: int| #[trigger] held_addrs(s1, order).contains(x) == held_addrs(s0, order).insert(a).contains(x) by {
        if held_addrs(s1, order).contains(x) {
            let k2 = choose|k2: int| 0 <= k2 < s1.len() && #[trigger] s1[k2].holds(order, x);
            if k2 != k {
                assert(s0[k2].holds(order, x));
            } else {
                let i2 = choose|i2: int|
                    0 <= i2 < slots_len(order) && !s1[k].slot_free(i2) && x == #[trigger] slot_addr(
                        s1[k].base_addr(),
                        order,
                        i2,
                    );
                if i2 != i {
                    assert(s0[k].holds(order, x));
                }
            }
        }
        if held_addrs(s0, order).insert(a).contains(x) {
            if x == a {
                assert(s1[k].holds(order, x));
            } else {
                let k2 = choose|k2: int| 0 <= k2 < s0.len() && #[trigger] s0[k2].holds(order, x);
                if k2 != k {
                    assert(s1[k2].holds(order, x));
                } else {
                    let i2 = choose|i2: int|
                        0 <= i2 < slots_len(order) && !s0[k].slot_free(i2) && x == #[trigger] slot_addr(
                            s0[k].base_addr(),
                            order,
                            i2,
                        );
                    assert(i2 != i);
                    assert(s1[k].holds(order, x));
                }
            }
        }
    }
    assert(held_addrs(s1, order) =~= held_addrs(s0, order).insert(a));
}

/// Taking back the handed-out slot `i` of slab `k` removes exactly its
/// address from the slots handed out.
pub proof fn lemma_held_addrs_free(s0: Seq<Slab>, s1: Seq<Slab>, order: u8, k: int, i: int)
    requires
        slabs_ok(s0, order),
        s1.len() == s0.len(),
        0 <= k < s0.len(),
        forall|j: int| 0 <= j < s0.len() && j != k ==> s1[j] == s0[j],
        s1[k].base_addr() == s0[k].base_addr(),
        0 <= i < slots_len(order),
        !s0[k].slot_free(i),
        s1[k].slot_free(i),
        forall|j: int| 0 <= j < slots_len(order) && j != i ==> s1[k].slot_free(j) == s0[k].slot_free(j),
    ensures
        held_addrs(s1, order) == held_addrs(s0, order).remove(slot_addr(s0[k].base_addr(), order, i)),
{
    let a = slot_addr(s0[k].base_addr(), order, i);
    s0[k].lemma_wf(order);
    assert forall|x: int| #[trigger] held_addrs(s1, order).contains(x) == held_addrs(s0, order).remove(a).contains(x) by {
        if held_addrs(s1, order).contains(x) {
            let k2 = choose|k2: int| 0 <= k2 < s1.len() && #[trigger] s1[k2].holds(order, x);
            let i2 = choose|i2: int|
                0 <= i2 < slots_len(order) && !s1[k2].slot_free(i2) && x == #[trigger] slot_addr(
                    s1[k2].base_addr(),
                    order,
                    i2,
                );
            if k2 != k {
                assert(s0[k2].holds(order, x));
                s0[k2].lemma_wf(order);
                if x == a {
                    lemma_slot_unique(s0[k].base_addr(), i, s0[k2].base_addr(), i2, order);
                }
            } else {
                assert(i2 != i);
                assert(s0[k].holds(order, x));
                if x == a {
                    lemma_slot_unique(s0[k].base_addr(), i, s0[k].base_addr(), i2, order);
                }
            }
        }
        if held_addrs(s0, order).remove(a).contains(x) {
            let k2 = choose|k2: int| 0 <= k2 < s0.len() && #[trigger] s0[k2].holds(order, x);
            if k2 != k {
                assert(s1[k2].holds(order, x));
            } else {
                let i2 = choose|i2: int|
                    0 <= i2 < slots_len(order) && !s0[k].slot_free(i2) && x == #[trigger] slot_addr(
                        s0[k].base_addr(),
                        order,
                        i2,
                    );
                assert(i2 != i);
                assert(s1[k].holds(order, x));
            }
        }
    }
    assert(held_addrs(s1, order) =~= held_addrs(s0, order).remove(a));
}

/// A slab with every slot free adds no handed-out slot.
pub proof fn lemma_held_addrs_push(s0: Seq<Slab>, order: u8, s: Slab)
    requires
        forall|i: int| 0 <= i < slots_len(order) ==> #[trigger] s.slot_free(i),
    ensures
        held_addrs(s0.push(s), order) == held_addrs(s0, order),
{
    let s1 = s0.push(s);
    assert forall|x: int| #[trigger] held_addrs(s1, order).contains(x) == held_addrs(s0, order).contains(x) by {
        if held_addrs(s1, order).contains(x) {
            let k2 = choose|k2: int| 0 <= k2 < s1.len() && #[trigger] s1[k2].holds(order, x);
            if k2 < s0.len() {
                assert(s0[k2] == s1[k2]);
            }
        }
        if held_addrs(s0, order).contains(x) {
            let k2 = choose|k2: int| 0 <= k2 < s0.len() && #[trigger] s0[k2].holds(order, x);
            assert(s1[k2] == s0[k2]);
        }
    }
    assert(held_addrs(s1, order) =~= held_addrs(s0, order));
}

/// A cache of slots of one order, spread over slabs kept on three lists by
/// fill level.
pub struct Cache {
    order: u8,
    slabs: Vec<Slab>,
    empty_slabs: Vec<usize>,
    partial_slabs: Vec<usize>,
    full_slabs: Vec<usize>,
}

impl Cache {
    /// The order of the slots.
    pub closed spec fn slot_order(&self) -> u8 {
        self.order
    }

    /// The slabs, in the order they were made.
    pub closed spec fn slab_seq(&self) -> Seq<Slab> {
        self.slabs@
    }

    /// The fill level of slab `k`.
    pub open spec fn level(&self, k: int) -> SlabFillLevel {
        Slab::level_of(self.slab_seq()[k].free_count(), self.slot_order())
    }

    /// The list that holds the slabs of fill level `lvl`.
    pub closed spec fn list_for(&self, lvl: SlabFillLevel) -> Seq<usize> {
        match lvl {
            SlabFillLevel::Empty => self.empty_slabs@,
            SlabFillLevel::Partial => self.partial_slabs@,
            SlabFillLevel::Full => self.full_slabs@,
        }
    }

    /// List `l` names slabs of level `lvl` only, each once.
    pub open spec fn list_ok(&self, l: Seq<usize>, lvl: SlabFillLevel) -> bool {
        &&& forall|p: int| 0 <= p < l.len() ==> (#[trigger] l[p] as int) < self.slab_seq().len()
        &&& forall|p: int| 0 <= p < l.len() ==> #[trigger] self.level(l[p] as int) == lvl
        &&& forall|p1: int, p2: int|
            0 <= p1 < l.len() && 0 <= p2 < l.len() && p1 != p2 ==> #[trigger] l[p1] != #[trigger] l[p2]
    }

    /// Slab `k` is on the list of its fill level.
    pub open spec fn listed(&self, k: int) -> bool {
        exists|p: int|
            0 <= p < self.list_for(self.level(k)).len() && #[trigger] self.list_for(self.level(k))[p] == k
    }

    /// The cache invariant: every slab is well formed, their pages are
    /// distinct, and each slab is on the list of its fill level, once.
    pub open spec fn wf(&self) -> bool {
        &&& valid_order(self.slot_order())
        &&& slabs_ok(self.slab_seq(), self.slot_order())
        &&& self.list_ok(self.list_for(SlabFillLevel::Empty), SlabFillLevel::Empty)
        &&& self.list_ok(self.list_for(SlabFillLevel::Partial), SlabFillLevel::Partial)
        &&& self.list_ok(self.list_for(SlabFillLevel::Full), SlabFillLevel::Full)
        &&& forall|k: int| 0 <= k < self.slab_seq().len() ==> #[trigger] self.listed(k)
    }

    /// The addresses of the slots handed out.
    pub open spec fn allocated(&self) -> Set<int> {
        held_addrs(self.slab_seq(), self.slot_order())
    }

    /// Every slab page is backed by a frame that `pmm` has handed out.
    pub open spec fn pages_held(&self, pmm: &PhysicalMemoryManager) -> bool {
        forall|k: int|
            0 <= k < self.slab_seq().len() ==> pmm.buddies().held(
                frame_of(#[trigger] self.slab_seq()[k].base_addr(), pmm),
            )
    }

    /// The slab a slot is handed out from next: the first on the partial
    /// list, else the first on the empty list.
    pub open spec fn next_slab(&self) -> int {
        if self.list_for(SlabFillLevel::Partial).len() > 0 {
            self.list_for(SlabFillLevel::Partial)[0] as int
        } else {
            self.list_for(SlabFillLevel::Empty)[0] as int
        }
    }

    /// `a` is the first free slot of slab `k`.
    pub open spec fn first_free_of(&self, k: int, a: int) -> bool {
        exists|i: int|
            {
                &&& 0 <= i < slots_len(self.slot_order())
                &&& #[trigger] self.slab_seq()[k].slot_free(i)
                &&& forall|j: int| 0 <= j < i ==> !self.slab_seq()[k].slot_free(j)
                &&& a == slot_addr(self.slab_seq()[k].base_addr(), self.slot_order(), i)
            }
    }

    /// Some slab has a free slot.
    pub open spec fn has_room(&self) -> bool {
        exists|k: int| 0 <= k < self.slab_seq().len() && #[trigger] self.slab_seq()[k].free_count() > 0
    }

    /// A cache of slots of order `order`, with no slab.
    pub fn new(order: u8) -> (r: Self)
        requires
            valid_order(order),
        ensures
            r.wf(),
            r.slot_order() == order,
            r.slab_seq().len() == 0,
            r.allocated() == Set::<int>::empty(),
    {
        let r = Cache {
            order,
            slabs: Vec::new(),
            empty_slabs: Vec::new(),
            partial_slabs: Vec::new(),
            full_slabs: Vec::new(),
        };
        proof {
            assert(r.allocated() =~= Set::<int>::empty());
        }
        r
    }
}

impl Cache {
    /// Some slab has a free slot exactly when the partial or the empty list
    /// is not empty.
    pub proof fn lemma_has_room(&self)
        requires
            self.wf(),
        ensures
            self.has_room() <==> (self.list_for(SlabFillLevel::Partial).len() > 0 || self.list_for(
                SlabFillLevel::Empty,
            ).len() > 0),
    {
        lemma_slot_layout(self.slot_order());
        if self.has_room() {
            let k = choose|k: int| 0 <= k < self.slab_seq().len() && #[trigger] self.slab_seq()[k].free_count() > 0;
            assert(self.listed(k));
        }
        if self.list_for(SlabFillLevel::Partial).len() > 0 {
            let k = self.list_for(SlabFillLevel::Partial)[0] as int;
            assert(self.level(k) == SlabFillLevel::Partial);
            assert(self.slab_seq()[k].free_count() > 0);
        } else if self.list_for(SlabFillLevel::Empty).len() > 0 {
            let k = self.list_for(SlabFillLevel::Empty)[0] as int;
            assert(self.level(k) == SlabFillLevel::Empty);
            assert(self.slab_seq()[k].free_count() > 0);
        }
    }

    /// Hands out a slot from the first partial slab, else from the first
    /// empty slab; a slab that fills up moves to the front of the full
    /// list, an empty slab once used to the front of the partial list.
    fn reserve_in(&mut self) -> (r: u64)
        requires
            old(self).wf(),
            old(self).list_for(SlabFillLevel::Partial).len() > 0 || old(self).list_for(SlabFillLevel::Empty).len() > 0,
        ensures
            final(self).wf(),
            final(self).slot_order() == old(self).slot_order(),
            final(self).slab_seq().len() == old(self).slab_seq().len(),
            forall|k: int|
                0 <= k < old(self).slab_seq().len() ==> #[trigger] final(self).slab_seq()[k].base_addr()
                    == old(self).slab_seq()[k].base_addr(),
            !old(self).allocated().contains(r as int),
            final(self).allocated() == old(self).allocated().insert(r as int),
            r as int % slot_size(old(self).slot_order()) == 0,
            old(self).first_free_of(old(self).next_slab(), r as int),
    {
        let order = self.order;
        proof {
            lemma_slot_layout(order);
        }
        let from_partial = self.partial_slabs.len() > 0;
        let k = if from_partial {
            self.partial_slabs[0]
        } else {
            self.empty_slabs[0]
        };
        let ghost s0 = self.slabs@;
        let mut slab = self.slabs[k];
        proof {
            assert(s0[k as int].wf(order));
            slab.lemma_wf(order);
        }
        let was_empty = slab.is_empty(order);
        let ret = slab.reserve(order);
        let is_full = slab.is_full(order);
        let a = match ret {
            Some(a) => a,
            None => {
                proof {
                    assert(false);
                }
                0
            },
        };
        self.slabs.set(k, slab);
        proof {
            let i = choose|i: int|
                {
                    &&& 0 <= i < slots_len(order)
                    &&& #[trigger] s0[k as int].slot_free(i)
                    &&& forall|j: int| 0 <= j < i ==> !s0[k as int].slot_free(j)
                    &&& !slab.slot_free(i)
                    &&& forall|j: int|
                        0 <= j < slots_len(order) && j != i ==> slab.slot_free(j) == s0[k as int].slot_free(j)
                    &&& a == slot_addr(s0[k as int].base_addr(), order, i)
                };
            lemma_held_addrs_reserve(s0, self.slabs@, order, k as int, i);
            assert(k == old(self).next_slab());
            assert(old(self).first_free_of(k as int, a as int));
            s0[k as int].lemma_wf(order);
            let b = s0[k as int].base_addr();
            let sz = slot_size(order);
            assert((b + slots_offset(order) + i * sz) % sz == 0) by {
                vstd::arithmetic::div_mod::lemma_mod_multiples_basic(i, sz);
                vstd::arithmetic::div_mod::lemma_mod_multiples_basic(b / sz, sz);
                vstd::arithmetic::div_mod::lemma_mod_multiples_basic(slots_offset(order) / sz, sz);
                assert(b % sz == 0) by {
                    let q = b / (SLAB_PAGE_SIZE as int);
                    let m = (SLAB_PAGE_SIZE as int) / sz;
                    vstd::arithmetic::div_mod::lemma_fundamental_div_mod(b, SLAB_PAGE_SIZE as int);
                    vstd::arithmetic::div_mod::lemma_fundamental_div_mod(SLAB_PAGE_SIZE as int, sz);
                    assert(b == (m * q) * sz) by (nonlinear_arith)
                        requires
                            b == (SLAB_PAGE_SIZE as int) * q,
                            SLAB_PAGE_SIZE as int == sz * m,
                    ;
                    vstd::arithmetic::div_mod::lemma_mod_multiples_basic(m * q, sz);
                }
                vstd::arithmetic::div_mod::lemma_add_mod_noop(b + slots_offset(order), i * sz, sz);
                vstd::arithmetic::div_mod::lemma_add_mod_noop(b, slots_offset(order), sz);
            }
            assert(slabs_ok(self.slabs@, order));
        }
        proof {
            assert forall|kk: int| 0 <= kk < self.slab_seq().len() && kk != k implies #[trigger] self.level(kk)
                == old(self).level(kk) by {
                assert(self.slab_seq()[kk] == old(self).slab_seq()[kk]);
            }
            assert(was_empty <==> !from_partial);
        }
        if !was_empty && !is_full {
            proof {
                assert(self.level(k as int) == old(self).level(k as int));
                assert forall|lvl: SlabFillLevel| #[trigger] self.list_for(lvl) == old(self).list_for(lvl)
                    && old(self).list_ok(old(self).list_for(lvl), lvl) implies self.list_ok(self.list_for(lvl), lvl) by {
                    let l = self.list_for(lvl);
                    assert forall|p: int| 0 <= p < l.len() implies #[trigger] self.level(l[p] as int) == lvl by {
                        assert(old(self).level(l[p] as int) == lvl);
                    }
                }
                assert(self.list_for(SlabFillLevel::Empty) == old(self).list_for(SlabFillLevel::Empty));
                assert(self.list_for(SlabFillLevel::Partial) == old(self).list_for(SlabFillLevel::Partial));
                assert(self.list_for(SlabFillLevel::Full) == old(self).list_for(SlabFillLevel::Full));
                assert forall|kk: int| 0 <= kk < self.slab_seq().len() implies #[trigger] self.listed(kk) by {
                    assert(old(self).listed(kk));
                    assert(self.level(kk) == old(self).level(kk));
                    let l = old(self).list_for(old(self).level(kk));
                    let p = choose|p: int| 0 <= p < l.len() && #[trigger] l[p] == kk;
                    assert(self.list_for(self.level(kk)) == l);
                    assert(self.list_for(self.level(kk))[p] == kk);
                }
            }
            return a;
        }
        if was_empty {
            self.empty_slabs.remove(0);
        } else {
            self.partial_slabs.remove(0);
        }
        if is_full {
            self.full_slabs.insert(0, k);
        } else {
            self.partial_slabs.insert(0, k);
        }
        proof {
            let src = if was_empty {
                SlabFillLevel::Empty
            } else {
                SlabFillLevel::Partial
            };
            let dst = if is_full {
                SlabFillLevel::Full
            } else {
                SlabFillLevel::Partial
            };
            assert(old(self).level(k as int) == src);
            assert(self.level(k as int) == dst);
            assert(src != dst);
            let os = old(self).list_for(src);
            let od = old(self).list_for(dst);
            assert(os[0] == k);
            assert(self.list_for(src) == os.remove(0));
            assert(self.list_for(dst) == od.insert(0, k));
            assert forall|p: int| 0 <= p < od.len() implies od[p] != k by {
                assert(old(self).level(od[p] as int) == dst);
            }
            assert forall|lvl: SlabFillLevel| lvl != src && lvl != dst implies #[trigger] self.list_for(lvl)
                == old(self).list_for(lvl) && !old(self).list_for(lvl).contains(k) by {
                if old(self).list_for(lvl).contains(k) {
                    let p = choose|p: int| 0 <= p < old(self).list_for(lvl).len() && old(self).list_for(lvl)[p] == k;
                    assert(old(self).level(old(self).list_for(lvl)[p] as int) == lvl);
                }
            }
            assert forall|lvl: SlabFillLevel| #[trigger] self.list_ok(self.list_for(lvl), lvl) by {
                let l = self.list_for(lvl);
                let ol = old(self).list_for(lvl);
                assert(old(self).list_ok(ol, lvl)) by {
                    match lvl {
                        SlabFillLevel::Empty => {},
                        SlabFillLevel::Partial => {},
                        SlabFillLevel::Full => {},
                    }
                }
                if lvl == src {
                    assert forall|p: int| 0 <= p < l.len() implies #[trigger] self.level(l[p] as int) == lvl && l[p] != k by {
                        assert(l[p] == ol[p + 1]);
                        assert(ol[p + 1] != ol[0]);
                        assert(old(self).level(ol[p + 1] as int) == lvl);
                    }
                    assert forall|p1: int, p2: int|
                        0 <= p1 < l.len() && 0 <= p2 < l.len() && p1 != p2 implies #[trigger] l[p1] != #[trigger] l[p2] by {
                        assert(l[p1] == ol[p1 + 1]);
                        assert(l[p2] == ol[p2 + 1]);
                    }
                } else if lvl == dst {
                    assert forall|p: int| 0 <= p < l.len() implies #[trigger] self.level(l[p] as int) == lvl by {
                        if p > 0 {
                            assert(l[p] == ol[p - 1]);
                            assert(ol[p - 1] != k);
                            assert(old(self).level(ol[p - 1] as int) == lvl);
                        }
                    }
                    assert forall|p1: int, p2: int|
                        0 <= p1 < l.len() && 0 <= p2 < l.len() && p1 != p2 implies #[trigger] l[p1] != #[trigger] l[p2] by {
                        if p1 > 0 && p2 > 0 {
                            assert(l[p1] == ol[p1 - 1]);
                            assert(l[p2] == ol[p2 - 1]);
                        } else if p1 > 0 {
                            assert(l[p1] == ol[p1 - 1]);
                        } else if p2 > 0 {
                            assert(l[p2] == ol[p2 - 1]);
                        }
                    }
                } else {
                    assert forall|p: int| 0 <= p < l.len() implies #[trigger] self.level(l[p] as int) == lvl by {
                        assert(l[p] == ol[p]);
                        if ol[p] == k {
                            assert(ol.contains(k));
                        }
                        assert(old(self).level(ol[p] as int) == lvl);
                    }
                }
            }
            assert forall|kk: int| 0 <= kk < self.slab_seq().len() implies #[trigger] self.listed(kk) by {
                if kk == k {
                    assert(self.list_for(dst)[0] == k);
                } else {
                    assert(old(self).listed(kk));
                    let lvl = old(self).level(kk);
                    let ol = old(self).list_for(lvl);
                    let p = choose|p: int| 0 <= p < ol.len() && #[trigger] ol[p] == kk;
                    if lvl == src {
                        assert(p > 0);
                        assert(self.list_for(lvl)[p - 1] == kk);
                    } else if lvl == dst {
                        assert(self.list_for(lvl)[p + 1] == kk);
                    } else {
                        assert(self.list_for(lvl)[p] == kk);
                    }
                }
            }
            assert(self.list_ok(self.list_for(SlabFillLevel::Empty), SlabFillLevel::Empty));
            assert(self.list_ok(self.list_for(SlabFillLevel::Partial), SlabFillLevel::Partial));
            assert(self.list_ok(self.list_for(SlabFillLevel::Full), SlabFillLevel::Full));
        }
        a
    }
}

impl Cache {
    /// Hands out a slot: from the first partial slab, else from the first
    /// empty slab, else from a new slab on a page allocated from `pmm`.
    /// `None` if no slab has a free slot and `pmm` gives no page.
    pub fn reserve(&mut self, pmm: &mut PhysicalMemoryManager) -> (r: Option<u64>)
        requires
            old(self).wf(),
            old(pmm).wf(),
            old(self).pages_held(old(pmm)),
        ensures
            final(self).wf(),
            final(pmm).wf(),
            final(self).slot_order() == old(self).slot_order(),
            final(self).pages_held(final(pmm)),
            final(pmm).base_addr() == old(pmm).base_addr(),
            final(pmm).buddies().top() == old(pmm).buddies().top(),
            forall|f: int| old(pmm).buddies().held(f) ==> #[trigger] final(pmm).buddies().held(f),
            old(self).has_room() ==> r.is_some() && *final(pmm) == *old(pmm),
            r.is_none() ==> *final(self) == *old(self),
            r.is_none() ==> pages_refused(*old(pmm), *final(pmm), 1) && final(pmm).no_free_frame(),
            r.is_some() ==> !old(self).allocated().contains(r.unwrap() as int),
            r.is_some() ==> final(self).allocated() == old(self).allocated().insert(r.unwrap() as int),
            r.is_some() ==> r.unwrap() as int % slot_size(old(self).slot_order()) == 0,
            old(self).has_room() ==> old(self).first_free_of(old(self).next_slab(), r.unwrap() as int),
            !old(self).has_room() && r.is_some() ==> final(self).slab_seq().len() == old(self).slab_seq().len() + 1
                && r.unwrap() == slot_addr(
                final(self).slab_seq()[old(self).slab_seq().len() as int].base_addr(),
                old(self).slot_order(),
                0,
            ),
    {
        proof {
            self.lemma_has_room();
            lemma_slot_layout(self.order);
        }
        if self.partial_slabs.len() == 0 && self.empty_slabs.len() == 0 {
            let pages = match pmm.allocate_pages(1, PageSize::Small) {
                Some(p) => p,
                None => {
                    proof {
                        assert(frames_per_page(PageSize::Small) == 1);
                        assert(PageSize::Small.bytes() == FRAME_SIZE);
                        assert forall|o: nat| #[trigger] alloc_order_of(1, o) implies {
                            let t = old(pmm).buddies().top() - o;
                            ||| o > old(pmm).buddies().top()
                            ||| forall|j: int|
                                0 <= j < old(pmm).buddies().roots() ==> #[trigger] old(pmm).buddies().value(0, j) <= o
                            ||| exists|x: int|
                                {
                                    &&& #[trigger] old(pmm).buddies().available(t, x)
                                    &&& pmm.buddies().allocated(t, x)
                                    &&& (x * pow2(o) >= old(pmm).frame_records().len() || (old(pmm).base_addr() + x
                                        * pow2(o) * FRAME_SIZE) % (FRAME_SIZE as int) != 0)
                                }
                        } by {
                            assert(alloc_order_of((1 * frames_per_page(PageSize::Small)) as int, o));
                        }
                    }
                    return None;
                },
            };
            let paddr = pages.base.addr();
            let ghost idx = choose|idx: int|
                {
                    let order = (#[trigger] pmm.frame_records()[idx]).order as nat;
                    &&& 0 <= idx < old(pmm).frame_records().len()
                    &&& !old(pmm).buddies().held(idx)
                    &&& pmm.buddies().held(idx)
                    &&& pages.base.spec_addr()@ == old(pmm).base_addr() + idx * FRAME_SIZE
                };
            proof {
                old(pmm).lemma_wf();
                let len = old(pmm).frame_records().len() as int;
                assert(idx * FRAME_SIZE + FRAME_SIZE <= len * FRAME_SIZE) by (nonlinear_arith)
                    requires
                        idx < len,
                ;
                assert(paddr@ < 0x4000_0000_0000);
            }
            let vaddr = PhysicalRemapSpace::p2v(paddr);
            let vbase = vaddr.usize();
            proof {
                vstd::arithmetic::div_mod::lemma_mod_multiples_basic(idx, FRAME_SIZE as int);
                vstd::arithmetic::div_mod::lemma_add_mod_noop(old(pmm).base_addr() as int, idx * FRAME_SIZE, FRAME_SIZE as int);
                assert(paddr@ % FRAME_SIZE == 0);
                assert(vbase % SLAB_PAGE_SIZE == 0);
                assert(frame_of(vbase as int, pmm) == idx) by {
                    vstd::arithmetic::div_mod::lemma_div_multiples_vanish(idx, FRAME_SIZE as int);
                    assert(idx * FRAME_SIZE == FRAME_SIZE * idx) by (nonlinear_arith);
                }
            }
            let slab = Slab::new(vbase, self.order);
            let n = self.slabs.len();
            let ghost s0 = self.slabs@;
            self.slabs.push(slab);
            self.empty_slabs.insert(0, n);
            proof {
                lemma_held_addrs_push(s0, self.order, slab);
                assert(self.slabs@ == s0.push(slab));
                assert forall|k: int| 0 <= k < n implies #[trigger] self.slab_seq()[k].base_addr() != vbase by {
                    assert(old(self).slab_seq()[k] == self.slab_seq()[k]);
                    assert(old(pmm).buddies().held(frame_of(old(self).slab_seq()[k].base_addr(), old(pmm))));
                }
                assert(slabs_ok(self.slabs@, self.order));
                assert forall|k: int| 0 <= k < self.slab_seq().len() implies pmm.buddies().held(
                    frame_of(#[trigger] self.slab_seq()[k].base_addr(), pmm),
                ) by {
                    if k < n {
                        assert(old(self).slab_seq()[k] == self.slab_seq()[k]);
                        assert(old(pmm).buddies().held(frame_of(old(self).slab_seq()[k].base_addr(), old(pmm))));
                    }
                }
                assert(self.level(n as int) == SlabFillLevel::Empty);
                assert forall|kk: int| 0 <= kk < n implies #[trigger] self.level(kk) == old(self).level(kk) by {
                    assert(self.slab_seq()[kk] == old(self).slab_seq()[kk]);
                }
                let oe = old(self).list_for(SlabFillLevel::Empty);
                assert(oe.len() == 0);
                assert(self.list_for(SlabFillLevel::Empty) =~= seq![n]);
                assert forall|lvl: SlabFillLevel| #[trigger] self.list_ok(self.list_for(lvl), lvl) by {
                    let l = self.list_for(lvl);
                    if lvl != SlabFillLevel::Empty {
                        assert(l == old(self).list_for(lvl));
                        assert(old(self).list_ok(l, lvl)) by {
                            match lvl {
                                SlabFillLevel::Empty => {},
                                SlabFillLevel::Partial => {},
                                SlabFillLevel::Full => {},
                            }
                        }
                        assert forall|p: int| 0 <= p < l.len() implies #[trigger] self.level(l[p] as int) == lvl by {
                            assert(old(self).level(l[p] as int) == lvl);
                        }
                    }
                }
                assert forall|kk: int| 0 <= kk < self.slab_seq().len() implies #[trigger] self.listed(kk) by {
                    if kk == n {
                        assert(self.list_for(SlabFillLevel::Empty)[0] == kk);
                    } else {
                        assert(old(self).listed(kk));
                        let lvl = old(self).level(kk);
                        let ol = old(self).list_for(lvl);
                        let p = choose|p: int| 0 <= p < ol.len() && #[trigger] ol[p] == kk;
                        assert(self.list_for(lvl)[p] == kk);
                    }
                }
                assert(self.list_ok(self.list_for(SlabFillLevel::Empty), SlabFillLevel::Empty));
                assert(self.list_ok(self.list_for(SlabFillLevel::Partial), SlabFillLevel::Partial));
                assert(self.list_ok(self.list_for(SlabFillLevel::Full), SlabFillLevel::Full));
                assert(self.wf());
                assert(self.next_slab() == n);
                assert(self.slab_seq()[n as int] == slab);
            }
        }
        let ghost mid = *self;
        let a = self.reserve_in();
        proof {
            if !old(self).has_room() {
                let n0 = old(self).slab_seq().len() as int;
                assert(mid.next_slab() == n0);
                let i = choose|i: int|
                    {
                        &&& 0 <= i < slots_len(mid.slot_order())
                        &&& #[trigger] mid.slab_seq()[n0].slot_free(i)
                        &&& forall|j: int| 0 <= j < i ==> !mid.slab_seq()[n0].slot_free(j)
                        &&& a == slot_addr(mid.slab_seq()[n0].base_addr(), mid.slot_order(), i)
                    };
                if i > 0 {
                    assert(mid.slab_seq()[n0].slot_free(0));
                }
                assert(i == 0);
                assert(self.slab_seq()[n0].base_addr() == mid.slab_seq()[n0].base_addr());
            }
            assert forall|k: int| 0 <= k < self.slab_seq().len() implies pmm.buddies().held(
                frame_of(#[trigger] self.slab_seq()[k].base_addr(), pmm),
            ) by {
                assert(mid.slab_seq()[k].base_addr() == self.slab_seq()[k].base_addr());
            }
        }
        Some(a)
    }
}

impl Cache {
    /// Takes back the handed-out slot at `addr`, found through the slab
    /// page holding it: a full slab moves to the front of the partial list,
    /// a slab left with every slot free to the front of the empty list.
    pub fn free(&mut self, addr: u64)
        requires
            old(self).wf(),
            old(self).allocated().contains(addr as int),
        ensures
            final(self).wf(),
            final(self).slot_order() == old(self).slot_order(),
            final(self).slab_seq().len() == old(self).slab_seq().len(),
            forall|k: int|
                0 <= k < old(self).slab_seq().len() ==> #[trigger] final(self).slab_seq()[k].base_addr()
                    == old(self).slab_seq()[k].base_addr(),
            final(self).allocated() == old(self).allocated().remove(addr as int),
    {
        let order = self.order;
        proof {
            lemma_slot_layout(order);
        }
        let ghost k0 = choose|k: int|
            0 <= k < self.slab_seq().len() && #[trigger] self.slab_seq()[k].holds(order, addr as int);
        let ghost i0 = choose|i: int|
            0 <= i < slots_len(order) && !self.slab_seq()[k0].slot_free(i) && addr == #[trigger] slot_addr(
                self.slab_seq()[k0].base_addr(),
                order,
                i,
            );
        let ghost b0 = self.slab_seq()[k0].base_addr();
        proof {
            self.slab_seq()[k0].lemma_wf(order);
            lemma_slot_in_page(b0, order, i0);
            vstd::arithmetic::div_mod::lemma_fundamental_div_mod(b0, SLAB_PAGE_SIZE as int);
            vstd::arithmetic::div_mod::lemma_fundamental_div_mod(addr as int, SLAB_PAGE_SIZE as int);
            let q = b0 / (SLAB_PAGE_SIZE as int);
            assert(addr - addr % SLAB_PAGE_SIZE == b0) by {
                vstd::arithmetic::div_mod::lemma_mod_add_multiples_vanish((addr - b0) as int, SLAB_PAGE_SIZE as int);
                vstd::arithmetic::div_mod::lemma_small_mod((addr - b0) as nat, SLAB_PAGE_SIZE as nat);
                assert(addr as int == (addr - b0) + q * (SLAB_PAGE_SIZE as int));
                vstd::arithmetic::div_mod::lemma_mod_multiples_vanish(q, (addr - b0) as int, SLAB_PAGE_SIZE as int);
            }
        }
        let page = addr - addr % SLAB_PAGE_SIZE;
        let n = self.slabs.len();
        let mut k: usize = 0;
        while k < n && self.slabs[k].base() != page
            invariant
                *self == *old(self),
                n == self.slab_seq().len(),
                self.wf(),
                0 <= k0 < n,
                self.slab_seq()[k0].base_addr() == page,
                k <= k0,
            decreases n - k,
        {
            k = k + 1;
        }
        proof {
            if k != k0 {
                assert(self.slab_seq()[k as int].base_addr() == page);
                assert(self.slab_seq()[k as int].base_addr() != self.slab_seq()[k0].base_addr());
            }
        }
        let (offset, _) = slot_layout(order);
        let size = 1u64 << (order as u64);
        proof {
            vstd::arithmetic::power2::lemma2_to64();
            vstd::bits::lemma_u64_shl_is_mul(1, order as u64);
            assert(addr - page - offset == i0 * size);
            vstd::arithmetic::div_mod::lemma_div_multiples_vanish(i0, size as int);
            assert(i0 * size == size * i0) by (nonlinear_arith);
        }
        let i = (addr - page - offset) / size;
        let ghost s0 = self.slabs@;
        let mut slab = self.slabs[k];
        let was_full = slab.is_full(order);
        slab.free(order, i);
        let is_empty = slab.is_empty(order);
        self.slabs.set(k, slab);
        proof {
            slab.lemma_wf(order);
            lemma_held_addrs_free(s0, self.slabs@, order, k as int, i as int);
            assert(slabs_ok(self.slabs@, order));
            assert forall|kk: int| 0 <= kk < self.slab_seq().len() && kk != k implies #[trigger] self.level(kk)
                == old(self).level(kk) by {
                assert(self.slab_seq()[kk] == old(self).slab_seq()[kk]);
            }
        }
        if !is_empty && !was_full {
            proof {
                assert(self.level(k as int) == old(self).level(k as int));
                assert forall|lvl: SlabFillLevel| #[trigger] self.list_for(lvl) == old(self).list_for(lvl)
                    && old(self).list_ok(old(self).list_for(lvl), lvl) implies self.list_ok(self.list_for(lvl), lvl) by {
                    let l = self.list_for(lvl);
                    assert forall|p: int| 0 <= p < l.len() implies #[trigger] self.level(l[p] as int) == lvl by {
                        assert(old(self).level(l[p] as int) == lvl);
                    }
                }
                assert(self.list_for(SlabFillLevel::Empty) == old(self).list_for(SlabFillLevel::Empty));
                assert(self.list_for(SlabFillLevel::Partial) == old(self).list_for(SlabFillLevel::Partial));
                assert(self.list_for(SlabFillLevel::Full) == old(self).list_for(SlabFillLevel::Full));
                assert forall|kk: int| 0 <= kk < self.slab_seq().len() implies #[trigger] self.listed(kk) by {
                    assert(old(self).listed(kk));
                    assert(self.level(kk) == old(self).level(kk));
                    let l = old(self).list_for(old(self).level(kk));
                    let p = choose|p: int| 0 <= p < l.len() && #[trigger] l[p] == kk;
                    assert(self.list_for(self.level(kk)) == l);
                    assert(self.list_for(self.level(kk))[p] == kk);
                }
            }
            return;
        }
        let ghost src = if was_full {
            SlabFillLevel::Full
        } else {
            SlabFillLevel::Partial
        };
        proof {
            assert(old(self).level(k as int) == src);
            assert(old(self).listed(k as int));
            let l = old(self).list_for(src);
            let p = choose|p: int| 0 <= p < l.len() && #[trigger] l[p] == k;
            assert(self.list_for(src) == l);
            assert(self.list_for(src)[p] == k);
        }
        let mut pos: usize = 0;
        if was_full {
            while pos < self.full_slabs.len() && self.full_slabs[pos] != k
                invariant
                    self.list_for(src) == old(self).list_for(src),
                    src == SlabFillLevel::Full,
                    exists|p: int| pos <= p < self.list_for(src).len() && #[trigger] self.list_for(src)[p] == k,
                decreases self.full_slabs.len() - pos,
            {
                pos = pos + 1;
            }
            self.full_slabs.remove(pos);
        } else {
            while pos < self.partial_slabs.len() && self.partial_slabs[pos] != k
                invariant
                    self.list_for(src) == old(self).list_for(src),
                    src == SlabFillLevel::Partial,
                    exists|p: int| pos <= p < self.list_for(src).len() && #[trigger] self.list_for(src)[p] == k,
                decreases self.partial_slabs.len() - pos,
            {
                pos = pos + 1;
            }
            self.partial_slabs.remove(pos);
        }
        if is_empty {
            self.empty_slabs.insert(0, k);
        } else {
            self.partial_slabs.insert(0, k);
        }
        proof {
            let dst = if is_empty {
                SlabFillLevel::Empty
            } else {
                SlabFillLevel::Partial
            };
            assert(self.level(k as int) == dst);
            assert(src != dst);
            let os = old(self).list_for(src);
            let od = old(self).list_for(dst);
            assert(os[pos as int] == k);
            assert(self.list_for(src) == os.remove(pos as int));
            assert(self.list_for(dst) == od.insert(0, k));
            assert forall|p: int| 0 <= p < od.len() implies od[p] != k by {
                assert(old(self).level(od[p] as int) == dst);
            }
            assert forall|lvl: SlabFillLevel| lvl != src && lvl != dst implies #[trigger] self.list_for(lvl)
                == old(self).list_for(lvl) && !old(self).list_for(lvl).contains(k) by {
                if old(self).list_for(lvl).contains(k) {
                    let p = choose|p: int| 0 <= p < old(self).list_for(lvl).len() && old(self).list_for(lvl)[p] == k;
                    assert(old(self).level(old(self).list_for(lvl)[p] as int) == lvl);
                }
            }
            assert forall|lvl: SlabFillLevel| #[trigger] self.list_ok(self.list_for(lvl), lvl) by {
                let l = self.list_for(lvl);
                let ol = old(self).list_for(lvl);
                assert(old(self).list_ok(ol, lvl)) by {
                    match lvl {
                        SlabFillLevel::Empty => {},
                        SlabFillLevel::Partial => {},
                        SlabFillLevel::Full => {},
                    }
                }
                if lvl == src {
                    assert forall|p: int| 0 <= p < l.len() implies #[trigger] self.level(l[p] as int) == lvl && l[p] != k by {
                        if p < pos {
                            assert(l[p] == ol[p]);
                            assert(ol[p] != ol[pos as int]);
                            assert(old(self).level(ol[p] as int) == lvl);
                        } else {
                            assert(l[p] == ol[p + 1]);
                            assert(ol[p + 1] != ol[pos as int]);
                            assert(old(self).level(ol[p + 1] as int) == lvl);
                        }
                    }
                    assert forall|p1: int, p2: int|
                        0 <= p1 < l.len() && 0 <= p2 < l.len() && p1 != p2 implies #[trigger] l[p1] != #[trigger] l[p2] by {
                        let q1 = if p1 < pos { p1 } else { p1 + 1 };
                        let q2 = if p2 < pos { p2 } else { p2 + 1 };
                        assert(l[p1] == ol[q1]);
                        assert(l[p2] == ol[q2]);
                    }
                } else if lvl == dst {
                    assert forall|p: int| 0 <= p < l.len() implies #[trigger] self.level(l[p] as int) == lvl by {
                        if p > 0 {
                            assert(l[p] == ol[p - 1]);
                            assert(ol[p - 1] != k);
                            assert(old(self).level(ol[p - 1] as int) == lvl);
                        }
                    }
                    assert forall|p1: int, p2: int|
                        0 <= p1 < l.len() && 0 <= p2 < l.len() && p1 != p2 implies #[trigger] l[p1] != #[trigger] l[p2] by {
                        if p1 > 0 && p2 > 0 {
                            assert(l[p1] == ol[p1 - 1]);
                            assert(l[p2] == ol[p2 - 1]);
                        } else if p1 > 0 {
                            assert(l[p1] == ol[p1 - 1]);
                        } else if p2 > 0 {
                            assert(l[p2] == ol[p2 - 1]);
                        }
                    }
                } else {
                    assert forall|p: int| 0 <= p < l.len() implies #[trigger] self.level(l[p] as int) == lvl by {
                        assert(l[p] == ol[p]);
                        if ol[p] == k {
                            assert(ol.contains(k));
                        }
                        assert(old(self).level(ol[p] as int) == lvl);
                    }
                }
            }
            assert forall|kk: int| 0 <= kk < self.slab_seq().len() implies #[trigger] self.listed(kk) by {
                if kk == k {
                    assert(self.list_for(dst)[0] == k);
                } else {
                    assert(old(self).listed(kk));
                    let lvl = old(self).level(kk);
                    let ol = old(self).list_for(lvl);
                    let p = choose|p: int| 0 <= p < ol.len() && #[trigger] ol[p] == kk;
                    if lvl == src {
                        assert(p != pos);
                        if p < pos {
                            assert(self.list_for(lvl)[p] == kk);
                        } else {
                            assert(self.list_for(lvl)[p - 1] == kk);
                        }
                    } else if lvl == dst {
                        assert(self.list_for(lvl)[p + 1] == kk);
                    } else {
                        assert(self.list_for(lvl)[p] == kk);
                    }
                }
            }
            assert(self.list_ok(self.list_for(SlabFillLevel::Empty), SlabFillLevel::Empty));
            assert(self.list_ok(self.list_for(SlabFillLevel::Partial), SlabFillLevel::Partial));
            assert(self.list_ok(self.list_for(SlabFillLevel::Full), SlabFillLevel::Full));
        }
    }
}

/// A slot handed out by [`Cache::reserve`] and taken back by
/// [`Cache::free`] leaves the handed-out slots as they were.
pub proof fn lemma_reserve_then_free(c0: Cache, c1: Cache, c2: Cache, a: int)
    requires
        !c0.allocated().contains(a),
        c1.allocated() == c0.allocated().insert(a),
        c2.allocated() == c1.allocated().remove(a),
    ensures
        c2.allocated() == c0.allocated(),
{
    assert(c2.allocated() =~= c0.allocated());
}

/// `align` is a power of two.
pub open spec fn is_pow2(align: u64) -> bool {
    exists|e: nat| e < 64 && pow2(e) == align
}

/// The slot order serving a block of `size` bytes aligned to `align`: the
/// order of the smallest power of two holding the size rounded up to the
/// alignment and then to the smallest slot.
pub open spec fn slot_order_of(size: int, align: int, o: nat) -> bool {
    alloc_order_of(next_multiple(next_multiple(size, align), 8), o)
}

/// Rounding up to a multiple lands on a multiple, at most one step up.
proof fn lemma_next_multiple_of(v: int, a: int)
    requires
        v >= 0,
        a > 0,
    ensures
        next_multiple(v, a) % a == 0,
        v <= next_multiple(v, a) < v + a,
{
    vstd::arithmetic::div_mod::lemma_mod_multiples_basic(v, a);
    assert(v * a >= v) by (nonlinear_arith)
        requires
            v >= 0,
            a > 0,
    ;
    crate::mem::addr::lemma_next_multiple(v, a, v * a);
}

/// A power of two is positive.
pub proof fn lemma_pow2_align(align: u64)
    requires
        is_pow2(align),
    ensures
        align > 0,
{
    let e = choose|e: nat| e < 64 && pow2(e) == align;
    vstd::arithmetic::power2::lemma_pow2_pos(e);
}

/// Returns the slot order serving a block of `size` bytes aligned to
/// `align`.
pub fn slot_order(size: u64, align: u64) -> (r: u8)
    requires
        0 < size,
        0 < align,
        next_multiple(size as int, align as int) <= SlabAllocator::MAX_SIZE,
    ensures
        slot_order_of(size as int, align as int, r as nat),
        valid_order(r),
{
    proof {
        vstd::arithmetic::power2::lemma2_to64();
        lemma_next_multiple_of(size as int, align as int);
        vstd::arithmetic::div_mod::lemma_fundamental_div_mod(size as int, align as int);
        vstd::arithmetic::div_mod::lemma_mod_pos_bound(size as int, align as int);
        vstd::arithmetic::div_mod::lemma_div_pos_is_pos(size as int, align as int);
        vstd::arithmetic::mul::lemma_mul_nonnegative(align as int, size as int / align as int);
    }
    let padded = if size % align == 0 {
        size
    } else {
        size - size % align + align
    };
    proof {
        lemma_next_multiple_of(padded as int, 8);
        vstd::arithmetic::div_mod::lemma_mod_pos_bound(padded as int, 8);
        crate::mem::addr::lemma_next_multiple(padded as int, 8, 1024);
    }
    let m = if padded % 8 == 0 {
        padded
    } else {
        padded - padded % 8 + 8
    };
    let mut o: u8 = 3;
    let mut p: u64 = 8;
    while p < m
        invariant
            3 <= o <= 10,
            p == pow2(o as nat),
            8 <= m <= 1024,
            o == 3 || pow2((o - 1) as nat) < m,
        decreases 10 - o,
    {
        proof {
            vstd::arithmetic::power2::lemma2_to64();
            if o == 10 {
                assert(false);
            }
        }
        p = p * 2;
        o = o + 1;
        proof {
            vstd::arithmetic::power2::lemma_pow2_unfold(o as nat);
        }
    }
    proof {
        if o == 3 {
            assert(pow2(2) == 4);
        }
    }
    o
}

/// What [`SlabAllocator::allocate`] does for a block of slot order `o`
/// aligned to `align`: only the cache of that order changes; a cache with a
/// free slot serves without touching `pmm`; a slot handed out was not
/// handed out before, is added, and is aligned to its size and to `align`;
/// on failure the cache is unchanged.
pub open spec fn slot_reserved(
    old_s: SlabAllocator,
    new_s: SlabAllocator,
    old_pmm: PhysicalMemoryManager,
    new_pmm: PhysicalMemoryManager,
    o: nat,
    align: u64,
    r: Option<u64>,
) -> bool {
    &&& forall|i: int| 0 <= i < 8 && i != o - 3 ==> #[trigger] new_s.cache_seq()[i] == old_s.cache_seq()[i]
    &&& old_s.cache_of(o as int).has_room() ==> r.is_some() && new_pmm == old_pmm
    &&& r.is_none() ==> new_s.cache_of(o as int) == old_s.cache_of(o as int)
    &&& r.is_some() ==> !old_s.cache_of(o as int).allocated().contains(r.unwrap() as int)
    &&& r.is_some() ==> new_s.cache_of(o as int).allocated() == old_s.cache_of(o as int).allocated().insert(
        r.unwrap() as int,
    )
    &&& r.is_some() ==> r.unwrap() % align == 0 && (r.unwrap() as int) % (pow2(o) as int) == 0
}

/// What [`SlabAllocator::deallocate`] does for a block of slot order `o` at
/// `addr`: only the cache of that order changes, its slabs stay where they
/// are, and `addr` is no longer handed out.
pub open spec fn slot_released(old_s: SlabAllocator, new_s: SlabAllocator, o: nat, addr: u64) -> bool {
    &&& forall|i: int| 0 <= i < 8 && i != o - 3 ==> #[trigger] new_s.cache_seq()[i] == old_s.cache_seq()[i]
    &&& new_s.cache_of(o as int).allocated() == old_s.cache_of(o as int).allocated().remove(addr as int)
    &&& new_s.cache_of(o as int).slab_seq().len() == old_s.cache_of(o as int).slab_seq().len()
    &&& forall|k: int|
        0 <= k < old_s.cache_of(o as int).slab_seq().len() ==> #[trigger] new_s.cache_of(
            o as int,
        ).slab_seq()[k].base_addr() == old_s.cache_of(o as int).slab_seq()[k].base_addr()
}

/// The slab allocator: one cache for each slot order, from the smallest to
/// the largest.
pub struct SlabAllocator {
    caches: Vec<Cache>,
}

impl SlabAllocator {
    /// Largest slot order.
    pub const MAX_ORDER: u8 = 10;

    /// Largest block size served.
    pub const MAX_SIZE: u64 = 1024;

    /// Smallest slot order.
    pub const MIN_ORDER: u8 = 3;

    /// The caches, by slot order from the smallest.
    pub closed spec fn cache_seq(&self) -> Seq<Cache> {
        self.caches@
    }

    /// The cache serving order `o`.
    pub open spec fn cache_of(&self, o: int) -> Cache {
        self.cache_seq()[o - 3]
    }

    /// One well-formed cache for each slot order.
    pub open spec fn wf(&self) -> bool {
        &&& self.cache_seq().len() == 8
        &&& forall|i: int|
            0 <= i < 8 ==> (#[trigger] self.cache_seq()[i]).wf() && self.cache_seq()[i].slot_order() == 3 + i
    }

    /// Every slab page of every cache is backed by a frame that `pmm` has
    /// handed out.
    pub open spec fn pages_held(&self, pmm: &PhysicalMemoryManager) -> bool {
        forall|i: int| 0 <= i < 8 ==> (#[trigger] self.cache_seq()[i]).pages_held(pmm)
    }

    /// A slab allocator with no slab.
    pub fn new() -> (r: Self)
        ensures
            r.wf(),
            forall|i: int| 0 <= i < 8 ==> (#[trigger] r.cache_seq()[i]).allocated() == Set::<int>::empty(),
            forall|i: int| 0 <= i < 8 ==> (#[trigger] r.cache_seq()[i]).slab_seq().len() == 0,
    {
        let mut caches: Vec<Cache> = Vec::new();
        let mut o: u8 = 3;
        while o <= 10
            invariant
                3 <= o <= 11,
                caches@.len() == o - 3,
                forall|i: int|
                    0 <= i < caches@.len() ==> (#[trigger] caches@[i]).wf() && caches@[i].slot_order() == 3 + i
                        && caches@[i].allocated() == Set::<int>::empty() && caches@[i].slab_seq().len() == 0,
            decreases 11 - o,
        {
            caches.push(Cache::new(o));
            o = o + 1;
        }
        SlabAllocator { caches }
    }

    /// Allocates a block of `size` bytes aligned to `align`: a zero-sized
    /// block gets the dangling address 1; any other a slot of the cache of
    /// its slot order. `None` if the size padded to the alignment exceeds
    /// [`Self::MAX_SIZE`], or if the cache has no free slot and `pmm` gives
    /// no page.
    pub fn allocate(&mut self, size: u64, align: u64, pmm: &mut PhysicalMemoryManager) -> (r: Option<u64>)
        requires
            old(self).wf(),
            old(pmm).wf(),
            old(self).pages_held(old(pmm)),
            is_pow2(align),
        ensures
            size > 0 && next_multiple(size as int, align as int) > Self::MAX_SIZE ==> r.is_none()
                && *final(self) == *old(self) && *final(pmm) == *old(pmm),
            final(self).wf(),
            final(pmm).wf(),
            final(self).pages_held(final(pmm)),
            final(pmm).base_addr() == old(pmm).base_addr(),
            forall|f: int| old(pmm).buddies().held(f) ==> #[trigger] final(pmm).buddies().held(f),
            size == 0 ==> r == Some(1u64) && *final(self) == *old(self) && *final(pmm) == *old(pmm),
            size > 0 && next_multiple(size as int, align as int) <= Self::MAX_SIZE ==> forall|o: nat|
                #[trigger] slot_order_of(size as int, align as int, o) ==> slot_reserved(
                    *old(self),
                    *final(self),
                    *old(pmm),
                    *final(pmm),
                    o,
                    align,
                    r,
                ),
    {
        proof {
            lemma_pow2_align(align);
        }
        if size == 0 {
            return Some(1);
        }
        if size > Self::MAX_SIZE || align > Self::MAX_SIZE {
            proof {
                lemma_next_multiple_of(size as int, align as int);
                if align > Self::MAX_SIZE {
                    vstd::arithmetic::div_mod::lemma_fundamental_div_mod(
                        next_multiple(size as int, align as int),
                        align as int,
                    );
                    assert(next_multiple(size as int, align as int) >= align) by (nonlinear_arith)
                        requires
                            next_multiple(size as int, align as int) == align * (next_multiple(
                                size as int,
                                align as int,
                            ) / align as int) + next_multiple(size as int, align as int) % align as int,
                            next_multiple(size as int, align as int) % align as int == 0,
                            next_multiple(size as int, align as int) >= size,
                            size > 0,
                            align > 0,
                    ;
                }
            }
            return None;
        }
        proof {
            assert(size % align <= size) by (nonlinear_arith)
                requires
                    align > 0,
            ;
        }
        let padded = if size % align == 0 {
            size
        } else {
            size - size % align + align
        };
        if padded > Self::MAX_SIZE {
            return None;
        }
        let o = slot_order(size, align);
        let ghost old_caches = self.caches@;
        proof {
            assert(self.caches@[o - 3].wf());
            assert(self.caches@[o - 3].pages_held(pmm));
            assert forall|oo: nat| #[trigger] slot_order_of(size as int, align as int, oo) implies oo == o by {
                crate::mem::phy::lemma_alloc_order_unique(
                    next_multiple(next_multiple(size as int, align as int), 8),
                    oo,
                    o as nat,
                );
            }
        }
        let r = self.caches[(o - 3) as usize].reserve(pmm);
        proof {
            assert forall|i: int| 0 <= i < 8 implies (#[trigger] self.cache_seq()[i]).pages_held(pmm) by {
                if i != o - 3 {
                    assert(self.cache_seq()[i] == old_caches[i]);
                    assert(old_caches[i].pages_held(old(pmm)));
                    let c = self.cache_seq()[i];
                    assert forall|k: int| 0 <= k < c.slab_seq().len() implies pmm.buddies().held(
                        frame_of(#[trigger] c.slab_seq()[k].base_addr(), pmm),
                    ) by {
                        assert(old(pmm).buddies().held(frame_of(c.slab_seq()[k].base_addr(), old(pmm))));
                    }
                }
            }
            if r.is_some() {
                let a = r.unwrap();
                let e = choose|e: nat| e < 64 && pow2(e) == align;
                let ps = next_multiple(size as int, align as int);
                lemma_next_multiple_of(size as int, align as int);
                lemma_next_multiple_of(ps, 8);
                vstd::arithmetic::div_mod::lemma_fundamental_div_mod(ps, align as int);
                assert(align <= ps) by (nonlinear_arith)
                    requires
                        ps == align * (ps / align as int) + ps % align as int,
                        ps % align as int == 0,
                        ps > 0,
                        align > 0,
                ;
                assert(pow2(e) <= pow2(o as nat));
                if e > o {
                    vstd::arithmetic::power2::lemma_pow2_strictly_increases(o as nat, e);
                }
                vstd::arithmetic::power2::lemma_pow2_adds(e, (o - e) as nat);
                vstd::arithmetic::power2::lemma_pow2_pos(e);
                let q = pow2((o - e) as nat) as int;
                let sz = pow2(o as nat) as int;
                assert(sz == align * q);
                vstd::arithmetic::div_mod::lemma_fundamental_div_mod(a as int, sz);
                assert(a as int == align * (q * (a as int / sz))) by (nonlinear_arith)
                    requires
                        a as int == sz * (a as int / sz) + a as int % sz,
                        a as int % sz == 0,
                        sz == align * q,
                ;
                vstd::arithmetic::div_mod::lemma_mod_multiples_basic(q * (a as int / sz), align as int);
                assert((q * (a as int / sz)) * align == align * (q * (a as int / sz))) by (nonlinear_arith);
            }
        }
        r
    }

    /// Takes back the block at `addr` of `size` bytes aligned to `align`: a
    /// zero-sized block at the dangling address is ignored; any other goes
    /// back to the cache of its slot order.
    pub fn deallocate(&mut self, addr: u64, size: u64, align: u64)
        requires
            old(self).wf(),
            0 < align,
            next_multiple(size as int, align as int) <= Self::MAX_SIZE,
            size == 0 ==> addr == 1,
            size > 0 ==> forall|o: nat|
                #[trigger] slot_order_of(size as int, align as int, o) ==> old(self).cache_of(
                    o as int,
                ).allocated().contains(addr as int),
        ensures
            final(self).wf(),
            size == 0 ==> *final(self) == *old(self),
            size > 0 ==> forall|o: nat|
                #[trigger] slot_order_of(size as int, align as int, o) ==> slot_released(*old(self), *final(self), o, addr),
            forall|i: int|
                0 <= i < 8 ==> (#[trigger] final(self).cache_seq()[i]).slab_seq().len() == old(self).cache_seq()[i].slab_seq().len(),
            forall|i: int, k: int|
                0 <= i < 8 && 0 <= k < old(self).cache_seq()[i].slab_seq().len() ==> #[trigger] final(self).cache_seq()[i].slab_seq()[k].base_addr()
                    == old(self).cache_seq()[i].slab_seq()[k].base_addr(),
    {
        if size == 0 && addr == 1 {
            return;
        }
        let o = slot_order(size, align);
        proof {
            assert(self.caches@[o - 3].wf());
            assert(slot_order_of(size as int, align as int, o as nat));
        }
        self.caches[(o - 3) as usize].free(addr);
        proof {
            assert forall|oo: nat| #[trigger] slot_order_of(size as int, align as int, oo) implies oo == o by {
                crate::mem::phy::lemma_alloc_order_unique(
                    next_multiple(next_multiple(size as int, align as int), 8),
                    oo,
                    o as nat,
                );
            }
        }
    }
}

} // verus!
