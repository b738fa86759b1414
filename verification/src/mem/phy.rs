//! Physical memory management.
use crate::mem::addr::{next_multiple, piece_fits, prev_multiple, Addr, AddrRange, AddrSpace, Page, PageRange, PageSize};
use crate::mem::phy::buddy::{anc_at, is_anc, lemma_anc_div, BuddySystem, BUDDY_MAX_ORDER};
use vstd::arithmetic::power2::lemma_pow2_pos;
use vstd::arithmetic::power2::pow2;
use vstd::prelude::*;

pub mod buddy;
pub mod memblock;

verus! {

/// A physical address space.
pub trait PhySpace: AddrSpace {

}

/// The uniform physical memory space: the first 64 TiB.
#[derive(Debug, Clone, Copy, PartialEq, Eq, Structural)]
pub struct UMASpace;

impl AddrSpace for UMASpace {
    open spec fn range_start() -> u64 {
        0
    }

    open spec fn range_end() -> u64 {
        0x4000_0000_0000
    }

    fn start() -> (r: u64) {
        0
    }

    fn end() -> (r: u64) {
        64 * crate::common::TiB
    }

    proof fn lemma_range() {
    }
}

impl PhySpace for UMASpace {

}

} // verus!

verus! {

/// The order of a frame, the smallest page.
pub const FRAME_ORDER: u8 = 12;

/// The size of a frame.
pub const FRAME_SIZE: u64 = 4096;

/// What is kept of a frame: the order of the block it starts, while the
/// block is handed out, and its flags.
#[derive(Debug, Clone, Copy, PartialEq, Eq, Structural)]
pub struct Frame {
    pub order: u8,
    pub flag: u8,
}

/// The exponent of the power of two `x`.
fn exact_log2(x: u64, Ghost(k): Ghost<nat>) -> (r: u8)
    requires
        x == pow2(k),
        k < 64,
    ensures
        r == k,
{
    let mut r: u8 = 0;
    let mut p: u64 = 1;
    proof {
        vstd::arithmetic::power2::lemma2_to64();
    }
    while p < x
        invariant
            p == pow2(r as nat),
            r <= k,
            x == pow2(k),
            k < 64,
        decreases k - r,
    {
        proof {
            if r >= k {
                if r > k {
                    vstd::arithmetic::power2::lemma_pow2_strictly_increases(k, r as nat);
                }
                assert(false);
            }
            vstd::arithmetic::power2::lemma_pow2_unfold((r + 1) as nat);
            if r + 1 < k {
                vstd::arithmetic::power2::lemma_pow2_strictly_increases((r + 1) as nat, k);
            }
        }
        p = p * 2;
        r = r + 1;
    }
    proof {
        if r < k {
            vstd::arithmetic::power2::lemma_pow2_strictly_increases(r as nat, k);
        }
    }
    r
}

/// The smallest power of two at least `x`, and its exponent.
fn next_power_of_two(x: u64) -> (r: (u64, u8))
    requires
        x <= 0x8000_0000_0000_0000,
    ensures
        r.0 == pow2(r.1 as nat),
        r.0 >= x,
        r.1 == 0 || pow2((r.1 - 1) as nat) < x,
        r.1 < 64,
{
    let mut r: u8 = 0;
    let mut p: u64 = 1;
    proof {
        vstd::arithmetic::power2::lemma2_to64();
        vstd::arithmetic::power2::lemma2_to64_rest();
    }
    while p < x
        invariant
            p == pow2(r as nat),
            r <= 63,
            r == 0 || pow2((r - 1) as nat) < x,
            x <= 0x8000_0000_0000_0000,
        decreases 63 - r,
    {
        proof {
            vstd::arithmetic::power2::lemma2_to64_rest();
            if r == 63 {
                assert(p == 0x8000_0000_0000_0000);
            }
            vstd::arithmetic::power2::lemma_pow2_unfold((r + 1) as nat);
        }
        p = p * 2;
        r = r + 1;
    }
    (p, r)
}

/// The physical memory manager: a buddy system over the frames of the
/// managed memory, and a record of each frame.
pub struct PhysicalMemoryManager {
    frames: Vec<Frame>,
    base: Page<UMASpace>,
    buddy: BuddySystem,
}

impl PhysicalMemoryManager {
    /// The records of the frames.
    pub closed spec fn frame_records(&self) -> Seq<Frame> {
        self.frames@
    }

    /// The address of the first frame.
    pub closed spec fn base_addr(&self) -> u64 {
        self.base.spec_addr()@
    }

    /// The buddy system.
    pub closed spec fn buddies(&self) -> BuddySystem {
        self.buddy
    }

    /// The buddy system is well formed, the base is a small page and the
    /// frames lie within the address space.
    pub closed spec fn wf(&self) -> bool {
        &&& self.buddy.wf()
        &&& self.base.spec_addr()@ + self.frames@.len() * FRAME_SIZE <= 0x4000_0000_0000
        &&& self.base.size() == PageSize::Small
        &&& self.base.spec_addr()@ % FRAME_SIZE == 0
    }

    /// Index of the frame holding physical address `paddr`.
    pub open spec fn frame_index(&self, paddr: int) -> int {
        (paddr - self.base_addr()) / (FRAME_SIZE as int)
    }

    /// The block whose order is recorded at the frame of `paddr` is handed
    /// out: what [`Self::deallocate_pages`] takes back.
    pub open spec fn block_handed_out(&self, paddr: int) -> bool {
        let idx = self.frame_index(paddr);
        let order = self.frame_records()[idx].order;
        &&& paddr >= self.base_addr()
        &&& idx < self.frame_records().len()
        &&& order <= self.buddies().top()
        &&& self.buddies().allocated(self.buddies().top() - order, idx / pow2(order as nat) as int)
    }

    /// No frame of the manager starts an available block of one frame: no
    /// frame can be handed out.
    pub open spec fn no_free_frame(&self) -> bool {
        forall|y: int|
            0 <= y < self.frame_records().len() ==> !#[trigger] self.buddies().available(self.buddies().top(), y)
    }

    /// Frame `i` starts a block of one frame that was handed out.
    pub open spec fn frame_alone(&self, i: int) -> bool {
        &&& 0 <= i < self.frame_records().len()
        &&& self.frame_records()[i].order == 0
        &&& self.buddies().allocated(self.buddies().top(), i)
    }

    /// Facts on a well-formed manager: its base is frame-aligned and its
    /// frames lie below the end of the address space.
    pub proof fn lemma_wf(&self)
        requires
            self.wf(),
        ensures
            self.base_addr() % FRAME_SIZE == 0,
            self.base_addr() + self.frame_records().len() * FRAME_SIZE <= 0x4000_0000_0000,
            self.buddies().wf(),
    {
    }

    /// A manager of the small pages that `managed` overlaps, all handed out
    /// at first; then every piece of the `free_regions`, cut into aligned
    /// power-of-two blocks of at most `2^18` frames, is made free: as one
    /// block where it names a block of the buddy system, frame by frame
    /// otherwise. In the result, a frame is free exactly when it lies wholly
    /// in one of the free regions.
    pub fn new(managed: AddrRange<UMASpace>, free_regions: &Vec<AddrRange<UMASpace>>) -> (r: Self)
        requires
            managed.wf(),
            forall|i: int| 0 <= i < free_regions@.len() ==> (#[trigger] free_regions@[i]).wf(),
            4 * ((managed.size + 2 * FRAME_SIZE) / (FRAME_SIZE as int)) + 0x8_0000 <= usize::MAX,
        ensures
            r.wf(),
            r.base_addr() == prev_multiple(managed.lo(), (FRAME_SIZE as int)),
            r.frame_records().len() == (managed.hi() - r.base_addr() + FRAME_SIZE - 1) / (FRAME_SIZE as int),
            forall|i: int|
                0 <= i < r.frame_records().len() ==> #[trigger] r.frame_records()[i] == (Frame {
                    order: 0,
                    flag: 0,
                }),
            r.buddies().top() == BUDDY_MAX_ORDER || r.frame_records().len() <= pow2(r.buddies().top() as nat),
            forall|f: int|
                0 <= f < r.frame_records().len() ==> (#[trigger] r.buddies().whole_free(r.buddies().top(), f)
                    <==> frame_freed(free_regions@, free_regions@.len() as int, frame_at(r.base_addr() as int, f))),
    {
        let pages = managed.overlapped_pages(crate::mem::addr::PageSize::Small);
        proof {
            use_type_invariant(managed.base);
            crate::mem::addr::lemma_prev_multiple(managed.lo(), (FRAME_SIZE as int), 0);
            assert(pages.len <= (managed.size + 2 * FRAME_SIZE) / (FRAME_SIZE as int)) by (nonlinear_arith)
                requires
                    pages.len == (managed.hi() - prev_multiple(managed.lo(), 4096) + 4095) / 4096,
                    managed.lo() - 4096 < prev_multiple(managed.lo(), 4096),
                    managed.hi() == managed.lo() + managed.size,
            ;
        }
        proof {
            let b = prev_multiple(managed.lo(), 4096);
            let l = pages.len as int;
            let h = managed.hi();
            vstd::arithmetic::div_mod::lemma_fundamental_div_mod(h - b + 4095, 4096);
            vstd::arithmetic::div_mod::lemma_mod_pos_bound(h - b + 4095, 4096);
            vstd::arithmetic::div_mod::lemma_fundamental_div_mod(b, 4096);
            assert(b + l * 4096 <= 0x4000_0000_0000) by (nonlinear_arith)
                requires
                    h - b + 4095 == 4096 * l + (h - b + 4095) % 4096,
                    0 <= (h - b + 4095) % 4096,
                    b == 4096 * (b / 4096),
                    b % 4096 == 0,
                    h <= 0x4000_0000_0000,
            ;
        }
        let cnt = pages.len as usize;
        let mut frames: Vec<Frame> = Vec::new();
        while frames.len() < cnt
            invariant
                frames@.len() <= cnt,
                forall|i: int|
                    0 <= i < frames@.len() ==> #[trigger] frames@[i] == (Frame { order: 0, flag: 0 }),
            decreases cnt - frames@.len(),
        {
            frames.push(Frame { order: 0, flag: 0 });
        }
        let base = pages.base;
        let base_addr = base.addr();
        let mut buddy = BuddySystem::new(cnt);
        let ghost top = buddy.top();
        let ghost roots = buddy.roots();
        let ghost b: int = base_addr@ as int;
        let ghost regions = free_regions@;
        proof {
            use_type_invariant(base_addr);
            lemma_pow2_pos(top as nat);
            let pt = pow2(top as nat) as int;
            vstd::arithmetic::div_mod::lemma_fundamental_div_mod(cnt + pt - 1, pt);
            assert(cnt <= roots * pt) by (nonlinear_arith)
                requires
                    roots == (cnt + pt - 1) / pt,
                    cnt + pt - 1 == pt * ((cnt + pt - 1) / pt) + (cnt + pt - 1) % pt,
                    (cnt + pt - 1) % pt < pt,
            ;
            assert forall|f: int| 0 <= f < cnt implies !(#[trigger] buddy.whole_free(top, f))
                <==> !frame_freed(regions, 0, frame_at(b, f)) by {
                buddy.lemma_leaf_valid(f);
            }
        }
        let mut ri: usize = 0;
        while ri < free_regions.len()
            invariant
                buddy.wf(),
                buddy.top() == top,
                buddy.roots() == roots,
                cnt <= roots * pow2(top as nat),
                b == base_addr@,
                b % 4096 == 0,
                b + cnt * FRAME_SIZE <= 0x4000_0000_0000,
                regions == free_regions@,
                ri <= regions.len(),
                forall|i: int| 0 <= i < free_regions@.len() ==> (#[trigger] free_regions@[i]).wf(),
                forall|f: int|
                    0 <= f < cnt ==> (#[trigger] buddy.whole_free(top, f) <==> frame_freed(
                        regions,
                        ri as int,
                        frame_at(b, f),
                    )),
            decreases free_regions@.len() - ri,
        {
            let region = free_regions[ri];
            let mut split = region.split_aligned(FRAME_ORDER, BUDDY_MAX_ORDER + FRAME_ORDER);
            let ghost lo = next_multiple(region.lo(), FRAME_SIZE as int);
            let ghost hi = prev_multiple(region.hi(), FRAME_SIZE as int);
            let ghost whole_cut = lo < UMASpace::range_end() && hi >= UMASpace::range_start() && lo <= hi;
            proof {
                vstd::arithmetic::power2::lemma2_to64();
                use_type_invariant(region.base);
                lemma_frame_bounds(region.lo(), 0);
                lemma_frame_bounds(region.hi(), 0);
                if whole_cut {
                    lemma_aligned_sub(hi, lo);
                }
                assert forall|f: int| 0 <= f < cnt implies (#[trigger] buddy.whole_free(top, f) <==> frame_freed(
                    regions,
                    ri as int,
                    frame_at(b, f),
                ) || (whole_cut && split.whole().lo() <= frame_at(b, f) && frame_at(b, f) + FRAME_SIZE
                    <= split.whole().lo() + split.done())) by {
                    if whole_cut {
                        assert(split.done() == 0);
                    }
                }
            }
            loop
                invariant
                    buddy.wf(),
                    buddy.top() == top,
                    buddy.roots() == roots,
                    cnt <= roots * pow2(top as nat),
                    b == base_addr@,
                    b % 4096 == 0,
                    b + cnt * FRAME_SIZE <= 0x4000_0000_0000,
                    regions == free_regions@,
                    ri < regions.len(),
                    region == regions[ri as int],
                    region.wf(),
                    forall|i: int| 0 <= i < free_regions@.len() ==> (#[trigger] free_regions@[i]).wf(),
                    split.wf(),
                    split.max() == BUDDY_MAX_ORDER + FRAME_ORDER,
                    whole_cut ==> split.whole().lo() == lo && split.whole().hi() == hi,
                    whole_cut ==> lo % 4096 == 0 && split.whole().size % 4096 == 0 && split.done() % 4096 == 0,
                    !whole_cut ==> split.done() == split.whole().size,
                    forall|f: int|
                        0 <= f < cnt ==> (#[trigger] buddy.whole_free(top, f) <==> frame_freed(
                            regions,
                            ri as int,
                            frame_at(b, f),
                        ) || (whole_cut && split.whole().lo() <= frame_at(b, f) && frame_at(b, f) + FRAME_SIZE
                            <= split.whole().lo() + split.done())),
                ensures
                    buddy.wf(),
                    buddy.top() == top,
                    buddy.roots() == roots,
                    split.wf(),
                    split.done() >= split.whole().size,
                    whole_cut ==> split.whole().lo() == lo && split.whole().hi() == hi,
                    forall|f: int|
                        0 <= f < cnt ==> (#[trigger] buddy.whole_free(top, f) <==> frame_freed(
                            regions,
                            ri as int,
                            frame_at(b, f),
                        ) || (whole_cut && split.whole().lo() <= frame_at(b, f) && frame_at(b, f) + FRAME_SIZE
                            <= split.whole().lo() + split.done())),
                decreases split.whole().size - split.done(),
            {
                let ghost before = split;
                let piece = match split.next() {
                    Some(p) => p,
                    None => {
                        break;
                    },
                };
                let ghost k = choose|k: nat|
                    {
                        &&& piece.size == pow2(k)
                        &&& piece_fits(piece.lo(), before.whole().size - before.done(), before.max(), k)
                        &&& !piece_fits(piece.lo(), before.whole().size - before.done(), before.max(), k + 1)
                    };
                proof {
                    assert(whole_cut);
                    before.lemma_wf();
                    use_type_invariant(piece.base);
                    lemma_aligned_sub(before.whole().size as int, before.done());
                    lemma_aligned_sub(0, before.done());
                    lemma_aligned_sub(lo, 0 - before.done());
                    lemma_piece_order(piece.lo(), before.whole().size - before.done(), k);
                    vstd::arithmetic::div_mod::lemma_mod_multiples_basic(pow2((k - 12) as nat) as int, 4096);
                    lemma_pow2_pos(k);
                }
                let log = exact_log2(piece.size, Ghost(k));
                let order = log - FRAME_ORDER;
                let ghost wf0 = buddy;
                let pa = piece.base.usize();
                let bu = base_addr.usize();
                let mut freed_block = false;
                if pa >= bu {
                    let off = (pa - bu) / FRAME_SIZE;
                    if off < cnt as u64 {
                        let idx = off as usize;
                        if buddy.is_block(idx, order) {
                            buddy.free_forced(idx, order);
                            freed_block = true;
                            proof {
                                lemma_leaves_after_free(wf0, buddy, idx as int, order as nat, cnt as int);
                                lemma_aligned_sub(pa as int, b);
                                vstd::arithmetic::div_mod::lemma_fundamental_div_mod(pa - b, 4096);
                                assert(pa == b + 4096 * idx);
                                assert(piece.size == 4096 * pow2(order as nat));
                                assert forall|f: int| 0 <= f < cnt implies (#[trigger] buddy.whole_free(top, f)
                                    <==> wf0.whole_free(top, f) || (pa <= frame_at(b, f) && frame_at(b, f) < pa
                                    + piece.size)) by {
                                    assert((idx <= f < idx + pow2(order as nat)) == (pa <= frame_at(b, f)
                                        && frame_at(b, f) < pa + piece.size));
                                }
                            }
                        }
                    }
                }
                if !freed_block {
                    let nf = piece.size / FRAME_SIZE;
                    let mut g: u64 = 0;
                    while g < nf
                        invariant
                            buddy.wf(),
                            buddy.top() == top,
                            buddy.roots() == roots,
                            cnt <= roots * pow2(top as nat),
                            b == bu,
                            b % 4096 == 0,
                            b + cnt * FRAME_SIZE <= 0x4000_0000_0000,
                            g <= nf,
                            nf * FRAME_SIZE == piece.size,
                            pa == piece.lo(),
                            pa + piece.size <= 0x4000_0000_0000,
                            wf0.wf(),
                            wf0.top() == top,
                            pa % 4096 == 0,
                            forall|f: int|
                                0 <= f < cnt ==> (#[trigger] buddy.whole_free(top, f) <==> wf0.whole_free(top, f)
                                    || (pa <= frame_at(b, f) && frame_at(b, f) < pa + g * FRAME_SIZE)),
                        decreases nf - g,
                    {
                        let a = pa + g * FRAME_SIZE;
                        let ghost w1 = buddy;
                        if a >= bu {
                            let fi = (a - bu) / FRAME_SIZE;
                            if fi < cnt as u64 {
                                let i2 = fi as usize;
                                proof {
                                    buddy.lemma_leaf_valid(i2 as int);
                                    vstd::arithmetic::power2::lemma2_to64();
                                }
                                if buddy.is_block(i2, 0) {
                                    buddy.free_forced(i2, 0);
                                    proof {
                                        lemma_leaves_after_free(w1, buddy, i2 as int, 0, cnt as int);
                                    }
                                } else {
                                    proof {
                                        buddy.lemma_top_bound(0, 0);
                                        assert(buddy.valid(buddy.top(), i2 as int));
                                        assert(i2 as int % pow2(0) as int == 0);
                                        assert(i2 as int / pow2(0) as int == i2);
                                        assert(false);
                                    }
                                }
                            }
                        }
                        proof {
                            assert forall|f: int| 0 <= f < cnt implies (#[trigger] buddy.whole_free(top, f)
                                <==> w1.whole_free(top, f) || frame_at(b, f) == a) by {
                                if a >= bu && (a - bu) / 4096 < cnt {
                                    let i2 = (a - bu) / 4096;
                                    lemma_aligned_sub(a as int, b);
                                    vstd::arithmetic::div_mod::lemma_fundamental_div_mod(a - b, 4096);
                                    assert(a == b + 4096 * i2);
                                    assert(pow2(0) == 1);
                                } else if a >= bu {
                                    lemma_aligned_sub(a as int, b);
                                    vstd::arithmetic::div_mod::lemma_fundamental_div_mod(a - b, 4096);
                                    assert(frame_at(b, f) != a);
                                } else {
                                    assert(frame_at(b, f) != a);
                                }
                            }
                            assert forall|f: int| 0 <= f < cnt implies ((pa <= frame_at(b, f) && frame_at(b, f)
                                < pa + (g + 1) * FRAME_SIZE) == ((pa <= frame_at(b, f) && frame_at(b, f) < pa + g
                                * FRAME_SIZE) || frame_at(b, f) == a)) by {
                                lemma_frame_at(b, f);
                                lemma_aligned_sub(frame_at(b, f), pa as int);
                                vstd::arithmetic::div_mod::lemma_fundamental_div_mod(frame_at(b, f) - pa, 4096);
                            }
                        }
                        g = g + 1;
                    }
                }
                proof {
                    split.lemma_wf();
                    assert forall|f: int| 0 <= f < cnt implies (#[trigger] buddy.whole_free(top, f) <==> frame_freed(
                        regions,
                        ri as int,
                        frame_at(b, f),
                    ) || (whole_cut && split.whole().lo() <= frame_at(b, f) && frame_at(b, f) + FRAME_SIZE
                        <= split.whole().lo() + split.done())) by {
                        lemma_frame_at(b, f);
                        lemma_piece_extends(lo, before.done(), piece.size as int, frame_at(b, f));
                    }
                    lemma_aligned_sub(0, piece.size as int);
                    lemma_aligned_sub(before.done(), 0 - piece.size as int);
                }
            }
            proof {
                assert forall|f: int| 0 <= f < cnt implies (#[trigger] buddy.whole_free(top, f) <==> frame_freed(
                    regions,
                    ri + 1,
                    frame_at(b, f),
                )) by {
                    lemma_frame_at(b, f);
                    lemma_frame_bounds(region.lo(), frame_at(b, f));
                    lemma_frame_bounds(region.hi(), frame_at(b, f));
                    split.lemma_wf();
                    if frame_freed(regions, ri + 1, frame_at(b, f)) && !holds_frame(region, frame_at(b, f)) {
                        let i = choose|i: int| 0 <= i < ri + 1 && #[trigger] holds_frame(regions[i], frame_at(b, f));
                        assert(i < ri);
                    }
                    if frame_freed(regions, ri as int, frame_at(b, f)) {
                        let i = choose|i: int| 0 <= i < ri && #[trigger] holds_frame(regions[i], frame_at(b, f));
                        assert(0 <= i < ri + 1);
                    }
                    if holds_frame(region, frame_at(b, f)) {
                        assert(holds_frame(regions[ri as int], frame_at(b, f)));
                    }
                }
            }
            ri = ri + 1;
        }
        proof {
            assert(base.spec_addr()@ + frames@.len() * FRAME_SIZE <= 0x4000_0000_0000);
        }
        PhysicalMemoryManager { frames, base, buddy }
    }
}

/// The address of frame `f` of frames that start at `b`.
pub open spec fn frame_at(b: int, f: int) -> int {
    b + f * FRAME_SIZE
}

/// The frame at address `a` lies wholly in the range `r`.
pub open spec fn holds_frame(r: AddrRange<UMASpace>, a: int) -> bool {
    r.lo() <= a && a + FRAME_SIZE <= r.hi()
}

/// The frame at address `a` lies wholly in one of the first `n` ranges.
pub open spec fn frame_freed(regions: Seq<AddrRange<UMASpace>>, n: int, a: int) -> bool {
    exists|i: int| 0 <= i < n && #[trigger] holds_frame(regions[i], a)
}

/// The difference of two multiples of a frame is one.
proof fn lemma_aligned_sub(x: int, y: int)
    requires
        x % 4096 == 0,
        y % 4096 == 0,
    ensures
        (x - y) % 4096 == 0,
{
    vstd::arithmetic::div_mod::lemma_fundamental_div_mod(x, 4096);
    vstd::arithmetic::div_mod::lemma_fundamental_div_mod(y, 4096);
    vstd::arithmetic::div_mod::lemma_mod_multiples_basic(x / 4096 - y / 4096, 4096);
    assert(x - y == (x / 4096 - y / 4096) * 4096);
}

/// A frame address lies at or above a frame boundary exactly when it lies
/// at or above the boundary rounded down, and it ends at or below one
/// exactly when it ends at or below the boundary rounded up: the frame
/// boundaries around `v`.
proof fn lemma_frame_bounds(v: int, a: int)
    requires
        v >= 0,
        a % 4096 == 0,
    ensures
        next_multiple(v, 4096) % 4096 == 0,
        prev_multiple(v, 4096) % 4096 == 0,
        v <= next_multiple(v, 4096) < v + 4096,
        v - 4096 < prev_multiple(v, 4096) <= v,
        (v <= a) == (next_multiple(v, 4096) <= a),
        (a + 4096 <= v) == (a + 4096 <= prev_multiple(v, 4096)),
{
    vstd::arithmetic::div_mod::lemma_fundamental_div_mod(v, 4096);
    vstd::arithmetic::div_mod::lemma_fundamental_div_mod(a, 4096);
    let q = v / 4096;
    let qa = a / 4096;
    vstd::arithmetic::div_mod::lemma_mod_multiples_basic(q, 4096);
    vstd::arithmetic::div_mod::lemma_mod_multiples_basic(q + 1, 4096);
    assert(prev_multiple(v, 4096) == q * 4096);
    assert(v % 4096 != 0 ==> next_multiple(v, 4096) == (q + 1) * 4096);
    assert(a == qa * 4096);
    if v <= a {
        assert(q <= qa) by (nonlinear_arith)
            requires
                v == 4096 * q + v % 4096,
                v % 4096 >= 0,
                a == qa * 4096,
                v <= a,
        ;
        if v % 4096 != 0 {
            assert(q < qa) by (nonlinear_arith)
                requires
                    v == 4096 * q + v % 4096,
                    v % 4096 > 0,
                    a == qa * 4096,
                    v <= a,
            ;
        }
    }
    if a + 4096 <= v {
        assert(qa + 1 <= q) by (nonlinear_arith)
            requires
                v == 4096 * q + v % 4096,
                v % 4096 < 4096,
                a == qa * 4096,
                a + 4096 <= v,
        ;
    }
}

/// A piece cut at a frame boundary from a multiple of a frame is at least
/// a frame, and a whole number of frames.
proof fn lemma_piece_order(at: int, diff: int, k: nat)
    requires
        at % 4096 == 0,
        diff % 4096 == 0,
        diff > 0,
        piece_fits(at, diff, 30, k),
        !piece_fits(at, diff, 30, k + 1),
    ensures
        12 <= k <= 30,
        pow2(k) == 4096 * pow2((k - 12) as nat),
{
    vstd::arithmetic::power2::lemma2_to64();
    if k < 12 {
        let j = (k + 1) as nat;
        vstd::arithmetic::power2::lemma_pow2_adds(j, (12 - j) as nat);
        vstd::arithmetic::power2::lemma_pow2_pos((12 - j) as nat);
        vstd::arithmetic::power2::lemma_pow2_pos(j);
        let c = pow2((12 - j) as nat) as int;
        let pj = pow2(j) as int;
        assert(pj * c == 4096);
        vstd::arithmetic::div_mod::lemma_fundamental_div_mod(at, 4096);
        vstd::arithmetic::div_mod::lemma_mod_multiples_basic((at / 4096) * c, pj);
        assert(at == ((at / 4096) * c) * pj) by (nonlinear_arith)
            requires
                at == 4096 * (at / 4096),
                pj * c == 4096,
        ;
        assert(pj <= 4096) by (nonlinear_arith)
            requires
                pj * c == 4096,
                c >= 1,
                pj >= 1,
        ;
        assert(diff >= 4096) by (nonlinear_arith)
            requires
                diff % 4096 == 0,
                diff > 0,
        ;
        assert(piece_fits(at, diff, 30, j));
    }
    vstd::arithmetic::power2::lemma_pow2_adds(12, (k - 12) as nat);
}

/// A block of `2^order` frames at `idx`, aligned to its size, holds frame
/// `f` exactly when `f` lies in `idx .. idx + 2^order`.
proof fn lemma_block_frames(idx: int, order: nat, f: int)
    requires
        idx >= 0,
        f >= 0,
        idx % (pow2(order) as int) == 0,
    ensures
        (f / (pow2(order) as int) == idx / (pow2(order) as int)) == (idx <= f < idx + pow2(order)),
{
    let p = pow2(order) as int;
    vstd::arithmetic::power2::lemma_pow2_pos(order);
    vstd::arithmetic::div_mod::lemma_fundamental_div_mod(idx, p);
    vstd::arithmetic::div_mod::lemma_fundamental_div_mod(f, p);
    let q = idx / p;
    let qf = f / p;
    if qf == q {
        assert(idx <= f < idx + p) by (nonlinear_arith)
            requires
                idx == p * q,
                f == p * qf + f % p,
                0 <= f % p < p,
                qf == q,
        ;
    }
    if idx <= f < idx + p {
        assert(qf == q) by (nonlinear_arith)
            requires
                idx == p * q,
                f == p * qf + f % p,
                0 <= f % p < p,
                idx <= f < idx + p,
                p > 0,
        ;
    }
}

/// The leaves that a forced free of the block `(top - order, idx / 2^order)`
/// leaves wholly free: those that were, and those of the block.
proof fn lemma_leaves_after_free(before: BuddySystem, after: BuddySystem, idx: int, order: nat, cnt: int)
    requires
        before.wf(),
        after.wf(),
        after.same_shape(&before),
        order <= before.top(),
        idx >= 0,
        idx % (pow2(order) as int) == 0,
        cnt <= before.roots() * pow2(before.top() as nat),
        forall|d: int, j: int|
            after.valid(d, j) && BuddySystem::in_subtree(
                d,
                j,
                before.top() - order,
                idx / pow2(order) as int,
            ) ==> #[trigger] after.whole_free(d, j),
        forall|d: int, j: int|
            after.valid(d, j) && !BuddySystem::in_subtree(d, j, before.top() - order, idx / pow2(order) as int)
                && !(is_anc(d, j, before.top() - order, idx / pow2(order) as int) && d < before.top()
                - order) ==> #[trigger] after.value(d, j) == before.value(d, j),
    ensures
        forall|f: int|
            0 <= f < cnt ==> (#[trigger] after.whole_free(after.top(), f) <==> before.whole_free(before.top(), f)
                || (idx <= f < idx + pow2(order))),
{
    let top = before.top();
    let t = top - order;
    assert forall|f: int| 0 <= f < cnt implies (#[trigger] after.whole_free(after.top(), f)
        <==> before.whole_free(top, f) || (idx <= f < idx + pow2(order))) by {
        after.lemma_leaf_valid(f);
        lemma_anc_div(top, f, t);
        lemma_block_frames(idx, order, f);
        assert((top - t) as nat == order);
        if BuddySystem::in_subtree(top, f, t, idx / pow2(order) as int) {
            assert(after.whole_free(top, f));
        } else {
            assert(after.value(top, f) == before.value(top, f));
        }
    }
}

/// Cutting the next piece off at `wlo + done` adds its frames to those cut
/// so far.
proof fn lemma_piece_extends(wlo: int, done: int, size: int, a: int)
    requires
        done >= 0,
        size >= 0,
        wlo % 4096 == 0,
        done % 4096 == 0,
        size % 4096 == 0,
        a % 4096 == 0,
    ensures
        (wlo <= a && a + 4096 <= wlo + done + size) == ((wlo <= a && a + 4096 <= wlo + done) || (wlo + done
            <= a && a < wlo + done + size)),
{
    lemma_aligned_sub(0, done);
    lemma_aligned_sub(wlo, 0 - done);
    lemma_aligned_sub(0, size);
    lemma_aligned_sub(wlo + done, 0 - size);
    lemma_aligned_lt(a, wlo + done);
    lemma_aligned_lt(a, wlo + done + size);
}

/// Between multiples of a frame, ending at or before `x` is starting
/// before it.
proof fn lemma_aligned_lt(a: int, x: int)
    requires
        a % 4096 == 0,
        x % 4096 == 0,
    ensures
        (a + 4096 <= x) == (a < x),
{
    lemma_aligned_sub(x, a);
    vstd::arithmetic::div_mod::lemma_fundamental_div_mod(x - a, 4096);
    let q = (x - a) / 4096;
    if a < x {
        assert(q >= 1) by (nonlinear_arith)
            requires
                x - a == 4096 * q,
                a < x,
        ;
    }
}

/// Frame addresses from a frame boundary are frame boundaries.
proof fn lemma_frame_at(b: int, f: int)
    requires
        b % 4096 == 0,
        f >= 0,
    ensures
        frame_at(b, f) % 4096 == 0,
        frame_at(b, f) >= b,
{
    vstd::arithmetic::div_mod::lemma_mod_multiples_basic(f, 4096);
    lemma_aligned_sub(0, f * 4096);
    lemma_aligned_sub(b, 0 - f * 4096);
}

/// Reserving the free block `(t, x)` keeps every frame that was handed out
/// alone so, and none of them lies in the block.
proof fn lemma_alone_kept(before: BuddySystem, after: BuddySystem, t: int, x: int, i: int)
    requires
        before.wf(),
        t <= before.top(),
        before.available(t, x),
        after.same_shape(&before),
        after.agrees_except(&before, t, x, true),
        before.allocated(before.top(), i),
    ensures
        after.allocated(after.top(), i),
        anc_at(before.top(), i, t) != x,
{
    let top = before.top();
    before.lemma_top_bound(t, x);
    if anc_at(top, i, t) == x {
        assert(crate::mem::phy::buddy::is_anc(t, x, top, i));
        before.lemma_whole_free_below(t, x, top, i);
    }
    assert(!crate::mem::phy::buddy::is_anc(top, i, t, x));
    assert(after.valid(top, i) == before.valid(top, i));
}

/// How many frames one page of `ps` spans.
pub open spec fn frames_per_page(ps: PageSize) -> nat {
    ps.bytes() / (FRAME_SIZE as nat)
}

/// `o` is the order of the smallest power-of-two block of at least `n`
/// frames.
pub open spec fn alloc_order_of(n: int, o: nat) -> bool {
    &&& pow2(o) >= n
    &&& (o == 0 || pow2((o - 1) as nat) < n)
}

/// At most one order is the allocation order of a frame count.
pub proof fn lemma_alloc_order_unique(n: int, a: nat, b: nat)
    requires
        alloc_order_of(n, a),
        alloc_order_of(n, b),
    ensures
        a == b,
{
    if a < b {
        if a < (b - 1) as nat {
            vstd::arithmetic::power2::lemma_pow2_strictly_increases(a, (b - 1) as nat);
        }
    } else if b < a {
        if b < (a - 1) as nat {
            vstd::arithmetic::power2::lemma_pow2_strictly_increases(b, (a - 1) as nat);
        }
    }
}

impl PhysicalMemoryManager {
    /// The index of the frame holding `addr`; `None` if it lies before the
    /// first frame or past the last.
    pub fn frame_idx(&self, addr: Addr<UMASpace>) -> (r: Option<usize>)
        ensures
            r.is_none() <==> addr@ < self.base_addr() || (addr@ - self.base_addr()) / (FRAME_SIZE as int)
                >= self.frame_records().len(),
            r.is_some() ==> r.unwrap() == (addr@ - self.base_addr()) / (FRAME_SIZE as int),
    {
        let base = self.base.addr();
        if addr.usize() < base.usize() {
            return None;
        }
        let idx = (addr.usize() - base.usize()) / FRAME_SIZE;
        if idx < self.frames.len() as u64 {
            Some(idx as usize)
        } else {
            None
        }
    }

    /// Allocates `cnt` contiguous pages of `page_size`: the first available
    /// block of the buddy system of the smallest order holding them is
    /// reserved and its order recorded at its first frame. `None` if that order exceeds the
    /// system's, no such block is free, or the block found lies outside the
    /// frames or is not aligned to `page_size` (the block then stays
    /// reserved).
    pub fn allocate_pages(&mut self, cnt: u64, page_size: PageSize) -> (r: Option<PageRange<UMASpace>>)
        requires
            old(self).wf(),
            cnt * frames_per_page(page_size) <= 0x8000_0000_0000_0000,
        ensures
            final(self).wf(),
            final(self).base_addr() == old(self).base_addr(),
            final(self).frame_records().len() == old(self).frame_records().len(),
            final(self).buddies().top() == old(self).buddies().top(),
            forall|f: int| old(self).buddies().held(f) ==> #[trigger] final(self).buddies().held(f),
            forall|i: int| old(self).frame_alone(i) ==> #[trigger] final(self).frame_alone(i),
            r.is_some() ==> exists|idx: int|
                {
                    let order = (#[trigger] final(self).frame_records()[idx]).order as nat;
                    &&& 0 <= idx < old(self).frame_records().len()
                    &&& !old(self).buddies().held(idx)
                    &&& final(self).buddies().held(idx)
                    &&& pow2(order) >= cnt * frames_per_page(page_size)
                    &&& (order == 0 || pow2((order - 1) as nat) < cnt * frames_per_page(page_size))
                    &&& final(self).buddies().allocated(
                        final(self).buddies().top() - order,
                        idx / pow2(order) as int,
                    )
                    &&& forall|y: int|
                        #[trigger] old(self).buddies().available(old(self).buddies().top() - order, y) ==> idx
                            / pow2(order) as int <= y
                    &&& r.unwrap().base.spec_addr()@ == old(self).base_addr() + idx * FRAME_SIZE
                    &&& r.unwrap().base.size() == page_size
                    &&& r.unwrap().len == pow2(order) / frames_per_page(page_size)
                },
            r.is_none() && cnt * frames_per_page(page_size) == 1 ==> final(self).no_free_frame(),
            r.is_none() ==> forall|o: nat|
                #[trigger] alloc_order_of(cnt * frames_per_page(page_size), o) ==> {
                    let t = old(self).buddies().top() - o;
                    ||| o > old(self).buddies().top()
                    ||| forall|j: int|
                        0 <= j < old(self).buddies().roots() ==> #[trigger] old(self).buddies().value(0, j)
                            <= o
                    ||| exists|x: int|
                        {
                            &&& #[trigger] old(self).buddies().available(t, x)
                            &&& final(self).buddies().allocated(t, x)
                            &&& (x * pow2(o) >= old(self).frame_records().len() || (old(self).base_addr()
                                + x * pow2(o) * FRAME_SIZE) % (page_size.bytes() as int) != 0)
                        }
                },
    {
        let per_page = page_size.usize() / FRAME_SIZE;
        let frame_cnt = cnt * per_page;
        let (allocate_cnt, order) = next_power_of_two(frame_cnt);
        proof {
            vstd::arithmetic::power2::lemma2_to64();
            assert(per_page == frames_per_page(page_size));
            assert forall|o: nat| #[trigger] alloc_order_of(frame_cnt as int, o) implies o == order by {
                lemma_alloc_order_unique(frame_cnt as int, o, order as nat);
            }
        }
        proof {
            if frame_cnt == 1 {
                if order > 0 {
                    lemma_pow2_pos((order - 1) as nat);
                }
                assert(order == 0);
                self.buddy.lemma_top_bound(0, 0);
            }
        }
        if order > self.buddy.max_order() {
            return None;
        }
        let idx = match self.buddy.reserve(order) {
            Some(i) => i,
            None => {
                proof {
                    assert forall|f: int| old(self).buddies().held(f) implies #[trigger] self.buddies().held(f) by {
                        self.buddies().lemma_held_unchanged(&old(self).buddies(), f);
                    }
                    if frame_cnt == 1 {
                        assert forall|y: int| 0 <= y < self.frame_records().len() implies !#[trigger] self.buddies().available(
                            self.buddies().top(),
                            y,
                        ) by {
                            if self.buddies().available(self.buddies().top(), y) {
                                let b = self.buddies();
                                b.lemma_available_root(b.top(), y);
                                let k = anc_at(b.top(), y, 0);
                                b.lemma_valid_nodes(0, k);
                                vstd::arithmetic::power2::lemma2_to64();
                                assert(pow2(0) == 1);
                                assert(b.valid(0, k));
                                assert(0 <= k < b.roots() * pow2((0int) as nat));
                                assert(b.roots() * pow2((0int) as nat) == b.roots());
                                assert(0 <= k < b.roots());
                                assert(b.roots() == old(self).buddies().roots());
                                assert(old(self).buddies().valid(0, k));
                                assert(b.value(0, k) == old(self).buddies().value(0, k));
                                assert(old(self).buddies().value(0, k) <= order);
                                assert(b.ord(b.top()) == 0);
                            }
                        }
                    }
                }
                return None;
            },
        };
        proof {
            let t = old(self).buddies().top() - order;
            let x = choose|x: int| {
                &&& idx == x * pow2(order as nat)
                &&& #[trigger] old(self).buddies().available(t, x)
                &&& self.buddies().allocated(t, x)
                &&& self.buddies().agrees_except(&old(self).buddies(), t, x, true)
            };
            assert forall|f: int| old(self).buddies().held(f) implies #[trigger] self.buddies().held(f) by {
                self.buddies().lemma_held_after_reserve(&old(self).buddies(), t, x, f);
            }
            lemma_pow2_pos(order as nat);
            vstd::arithmetic::div_mod::lemma_div_multiples_vanish(x, pow2(order as nat) as int);
            assert(x * pow2(order as nat) == pow2(order as nat) * x) by (nonlinear_arith);
            lemma_anc_div(old(self).buddies().top(), idx as int, t);
            assert(anc_at(old(self).buddies().top(), idx as int, t) == x);
            old(self).buddies().lemma_available_not_held(t, x, idx as int);
            assert(self.buddies().allocated(t, anc_at(self.buddies().top(), idx as int, t)));
            assert(self.buddies().held(idx as int));
        }
        let ghost mid = *self;
        proof {
            let t = old(self).buddies().top() - order;
            let x = choose|x: int| {
                &&& idx == x * pow2(order as nat)
                &&& #[trigger] old(self).buddies().available(t, x)
                &&& self.buddies().allocated(t, x)
                &&& self.buddies().agrees_except(&old(self).buddies(), t, x, true)
            };
            lemma_pow2_pos(order as nat);
            vstd::arithmetic::div_mod::lemma_div_multiples_vanish(x, pow2(order as nat) as int);
            assert(x * pow2(order as nat) == pow2(order as nat) * x) by (nonlinear_arith);
            lemma_anc_div(old(self).buddies().top(), idx as int, t);
            assert forall|i: int| old(self).frame_alone(i) implies #[trigger] mid.frame_alone(i) && i != idx by {
                lemma_alone_kept(old(self).buddies(), mid.buddies(), t, x, i);
            }
        }
        if idx >= self.frames.len() {
            proof {
                if frame_cnt == 1 {
                    let t = old(self).buddies().top() - order;
                    let x = choose|x: int| {
                        &&& idx == x * pow2(order as nat)
                        &&& #[trigger] old(self).buddies().available(t, x)
                        &&& forall|y: int| #[trigger] old(self).buddies().available(t, y) ==> x <= y
                        &&& self.buddies().allocated(t, x)
                        &&& self.buddies().agrees_except(&old(self).buddies(), t, x, true)
                    };
                    vstd::arithmetic::power2::lemma2_to64();
                    assert(x == idx);
                    assert forall|y: int| 0 <= y < self.frame_records().len() implies !#[trigger] self.buddies().available(
                        self.buddies().top(),
                        y,
                    ) by {
                        if self.buddies().available(self.buddies().top(), y) {
                            self.buddies().lemma_available_after_reserve(&old(self).buddies(), t, x, y);
                        }
                    }
                }
            }
            return None;
        }
        let old_flag = self.frames[idx].flag;
        self.frames.set(idx, Frame { order, flag: old_flag });
        proof {
            assert(forall|i: int| old(self).frame_alone(i) ==> #[trigger] mid.frame_alone(i) && i != idx);
            assert(self.frame_records() == mid.frame_records().update(idx as int, Frame { order, flag: old_flag }));
            assert(self.buddies() == mid.buddies());
            assert forall|i: int| old(self).frame_alone(i) implies #[trigger] self.frame_alone(i) by {
                assert(mid.frame_alone(i));
                assert(i != idx);
            }
        }
        proof {
            self.lemma_wf();
            assert(self.base_addr() + idx * FRAME_SIZE < 0x4000_0000_0000) by (nonlinear_arith)
                requires
                    idx < self.frame_records().len(),
                    self.base_addr() + self.frame_records().len() * FRAME_SIZE <= 0x4000_0000_0000,
            ;
        }
        let base = match self.base.checked_page_add(idx as u64) {
            Some(b) => b,
            None => {
                return None;
            },
        };
        let addr = base.addr();
        if !addr.is_aligned_to(page_size.align()) {
            proof {
                if frame_cnt == 1 {
                    assert(page_size == PageSize::Small) by {
                        if page_size != PageSize::Small {
                            assert(frames_per_page(page_size) >= 512);
                            assert(cnt * frames_per_page(page_size) != 1) by (nonlinear_arith)
                                requires
                                    frames_per_page(page_size) >= 512,
                            ;
                        }
                    }
                    vstd::arithmetic::div_mod::lemma_mod_multiples_basic(idx as int, FRAME_SIZE as int);
                    vstd::arithmetic::div_mod::lemma_add_mod_noop(
                        self.base_addr() as int,
                        idx * FRAME_SIZE,
                        FRAME_SIZE as int,
                    );
                }
            }
            return None;
        }
        let len = allocate_cnt >> ((page_size.order() - FRAME_ORDER) as u64);
        let r = PageRange { base: Page::new(addr, page_size), len };
        proof {
            let shift = (page_size.bits() - 12) as nat;
            vstd::arithmetic::power2::lemma2_to64();
            assert(pow2(shift) == frames_per_page(page_size));
            vstd::bits::lemma_u64_shr_is_div(allocate_cnt, shift as u64);
            let x = choose|x: int| {
                &&& idx == x * pow2(order as nat)
                &&& #[trigger] old(self).buddies().available(old(self).buddies().top() - order, x)
                &&& forall|y: int|
                    #[trigger] old(self).buddies().available(old(self).buddies().top() - order, y) ==> x <= y
                &&& self.buddies().allocated(old(self).buddies().top() - order, x)
                &&& self.buddies().agrees_except(&old(self).buddies(), old(self).buddies().top() - order, x, true)
            };
            vstd::arithmetic::power2::lemma_pow2_pos(order as nat);
            vstd::arithmetic::div_mod::lemma_div_multiples_vanish(x, pow2(order as nat) as int);
            assert(x * pow2(order as nat) == pow2(order as nat) * x) by (nonlinear_arith);
            assert(idx as int / pow2(order as nat) as int == x);
            let fo = self.frame_records()[idx as int].order as nat;
            assert(fo == order);
            assert(r.len == pow2(fo) / frames_per_page(page_size));
            assert(self.buddies().allocated(self.buddies().top() - fo, idx as int / pow2(fo) as int));
            assert(r.base.spec_addr()@ == old(self).base_addr() + idx * FRAME_SIZE);
        }
        Some(r)
    }

    /// Gives back the pages `pages` allocated by [`Self::allocate_pages`]:
    /// the block recorded at their first frame is freed and its record
    /// cleared.
    pub fn deallocate_pages(&mut self, pages: PageRange<UMASpace>)
        requires
            old(self).wf(),
            pages.base.spec_addr()@ >= old(self).base_addr(),
            (pages.base.spec_addr()@ - old(self).base_addr()) / (FRAME_SIZE as int) < old(self).frame_records().len(),
            ({
                let idx = (pages.base.spec_addr()@ - old(self).base_addr()) / (FRAME_SIZE as int);
                let order = old(self).frame_records()[idx].order;
                &&& order <= old(self).buddies().top()
                &&& old(self).buddies().allocated(old(self).buddies().top() - order, idx / pow2(order as nat) as int)
            }),
        ensures
            final(self).wf(),
            final(self).base_addr() == old(self).base_addr(),
            ({
                let idx = (pages.base.spec_addr()@ - old(self).base_addr()) / (FRAME_SIZE as int);
                let order = old(self).frame_records()[idx].order;
                &&& final(self).buddies().whole_free(final(self).buddies().top() - order, idx / pow2(order as nat) as int)
                &&& final(self).buddies().top() == old(self).buddies().top()
                &&& final(self).buddies().same_shape(&old(self).buddies())
                &&& final(self).buddies().agrees_except(
                    &old(self).buddies(),
                    old(self).buddies().top() - order,
                    idx / pow2(order as nat) as int,
                    true,
                )
                &&& forall|f: int|
                    f >= 0 && old(self).buddies().held(f) && anc_at(old(self).buddies().top(), f, old(self).buddies().top() - order)
                        != idx / pow2(order as nat) as int ==> #[trigger] final(self).buddies().held(f)
                &&& final(self).frame_records() == old(self).frame_records().update(
                    idx,
                    Frame { order: 0, ..old(self).frame_records()[idx] },
                )
            }),
    {
        let idx = match self.frame_idx(pages.base.addr()) {
            Some(i) => i,
            None => {
                return ;
            },
        };
        let frame = self.frames[idx];
        self.buddy.free(idx, frame.order);
        self.frames.set(idx, Frame { order: 0, flag: frame.flag });
        proof {
            let top = old(self).buddies().top();
            let t = top - frame.order;
            let x = idx as int / pow2(frame.order as nat) as int;
            assert forall|f: int|
                f >= 0 && old(self).buddies().held(f) && anc_at(top, f, t) != x implies #[trigger] self.buddies().held(f) by {
                self.buddies().lemma_held_after_free(&old(self).buddies(), t, x, f);
            }
        }
    }
}

} // verus!
