//! x86-64 four-level paging.
use core::ops::Range;
use crate::mem::addr::{Addr, AddrSpace, PageSize};
use crate::mem::paging::entry::{reinit_raw, EntryRef, Flags, RawEntry};
use crate::mem::paging::table::RawTable;
use crate::mem::phy::{alloc_order_of, PhysicalMemoryManager, UMASpace, FRAME_SIZE};
use crate::mem::allocator::page::{pages_granted, pages_refused, PageAllocator};
use crate::mem::paging::table::TABLE_SIZE;
use crate::mem::virt::{KernelImageSpace, PhysicalRemapSpace};
use vstd::arithmetic::power2::pow2;
use vstd::prelude::*;

pub mod entry;
pub mod memory;
pub mod table;

verus! {

/// A level of the paging hierarchy, `CR3` being the highest.
#[derive(Debug, Clone, Copy, PartialEq, Eq, Structural)]
pub enum Level {
    /// Control register 3.
    CR3,
    /// Page map level 4.
    PML4,
    /// Page directory pointer table.
    PDPT,
    /// Page directory.
    PD,
    /// Page table.
    PT,
}

/// The index, in a table of `level`, of the entry that virtual address `v`
/// goes through.
pub open spec fn table_index(level: Level, v: u64) -> int {
    ((v as nat % pow2(level.table_bits().1 as nat)) / pow2(level.table_bits().0 as nat)) as int
}

impl Level {
    /// The next lower level, if any.
    pub open spec fn below(self) -> Option<Level> {
        match self {
            Level::CR3 => Some(Level::PML4),
            Level::PML4 => Some(Level::PDPT),
            Level::PDPT => Some(Level::PD),
            Level::PD => Some(Level::PT),
            Level::PT => None,
        }
    }

    /// The bits of a virtual address that index a page table of this level.
    pub open spec fn table_bits(self) -> (int, int) {
        match self {
            Level::PML4 => (39, 48),
            Level::PDPT => (30, 39),
            Level::PD => (21, 30),
            _ => (12, 21),
        }
    }

    /// Returns the bits of a virtual address that index a page table of this
    /// level. `CR3` is not a table level.
    pub fn page_table_idx_range(self) -> (r: Range<usize>)
        requires
            self != Level::CR3,
        ensures
            r.start == self.table_bits().0,
            r.end == self.table_bits().1,
    {
        match self {
            Level::PML4 => Range { start: 39, end: 48 },
            Level::PDPT => Range { start: 30, end: 39 },
            Level::PD => Range { start: 21, end: 30 },
            _ => Range { start: 12, end: 21 },
        }
    }

    /// Returns the bits of a virtual address that index into a page mapped
    /// by an entry of this level. `CR3` and `PML4` entries map no page.
    pub fn page_idx_range(self) -> (r: Range<usize>)
        requires
            self != Level::CR3,
            self != Level::PML4,
        ensures
            r.start == 0,
            r.end == match self {
                Level::PDPT => 30int,
                Level::PD => 21int,
                _ => 12int,
            },
    {
        match self {
            Level::PDPT => Range { start: 0, end: 30 },
            Level::PD => Range { start: 0, end: 21 },
            _ => Range { start: 0, end: 12 },
        }
    }

    /// The size of a page mapped by an entry of this level.
    pub open spec fn spec_page_size(self) -> PageSize {
        match self {
            Level::PDPT => PageSize::Huge,
            Level::PD => PageSize::Large,
            _ => PageSize::Small,
        }
    }

    /// Returns the size of a page mapped by an entry of this level. Only
    /// `PDPT`, `PD` and `PT` entries map pages.
    pub fn page_size(self) -> (r: PageSize)
        requires
            self == Level::PDPT || self == Level::PD || self == Level::PT,
        ensures
            r == self.spec_page_size(),
    {
        match self {
            Level::PDPT => PageSize::Huge,
            Level::PD => PageSize::Large,
            _ => PageSize::Small,
        }
    }

    /// Returns the level whose entries map pages of `page_size`.
    pub fn from_page_size(page_size: PageSize) -> (r: Self)
        ensures
            r.spec_page_size() == page_size,
            r == Level::PDPT || r == Level::PD || r == Level::PT,
    {
        match page_size {
            PageSize::Small => Level::PT,
            PageSize::Large => Level::PD,
            PageSize::Huge => Level::PDPT,
        }
    }

    /// Returns the next lower level.
    pub fn next_level(self) -> (r: Option<Self>)
        ensures
            r == self.below(),
    {
        match self {
            Level::CR3 => Some(Level::PML4),
            Level::PML4 => Some(Level::PDPT),
            Level::PDPT => Some(Level::PD),
            Level::PD => Some(Level::PT),
            Level::PT => None,
        }
    }

    /// Returns the next higher level.
    pub fn prev_level(self) -> (r: Option<Self>)
        ensures
            r.is_none() <==> self == Level::CR3,
            r.is_some() ==> r.unwrap().below() == Some(self),
    {
        match self {
            Level::CR3 => None,
            Level::PML4 => Some(Level::CR3),
            Level::PDPT => Some(Level::PML4),
            Level::PD => Some(Level::PDPT),
            Level::PT => Some(Level::PD),
        }
    }
}

} // verus!

verus! {

/// The flags of an entry pointing to a table: present and writeable.
pub const DEFAULT_PAGE_TABLE_FLAGS: u16 = 0b11;

/// The flags of an entry mapping a kernel page: present, big, global and
/// writeable.
pub const KERNEL_PAGE_FLAGS: u16 = 0b1_1000_0011;

/// First address of the kernel image space.
pub const KERNEL_START: u64 = 0xFFFF_FFFF_8000_0000;

/// First address of the physical remap space.
pub const REMAP_START: u64 = 0xFFFF_8880_0000_0000;

/// Size of a large page.
pub const LARGE_PAGE: u64 = 0x20_0000;

/// Size of a huge page.
pub const HUGE_PAGE: u64 = 0x4000_0000;

/// Bytes mapped by one page directory pointer table of huge pages.
pub const PDPT_SPAN: u64 = 0x80_0000_0000;

/// The PML4 index of the kernel image.
pub const KERNEL_PML4_IDX: usize = 511;

/// The PDPT index of the kernel image.
pub const KERNEL_PDPT_IDX: usize = 510;

/// The first PML4 index of the physical remap.
pub const REMAP_PML4_IDX: usize = 273;

/// The last PML4 index of the remap of `size` bytes of physical memory
/// (one less than the first when there is nothing to remap).
pub open spec fn remap_last(size: u64) -> int {
    if size == 0 {
        REMAP_PML4_IDX - 1
    } else {
        table_index(Level::PML4, (REMAP_START + size - 1) as u64)
    }
}

/// In the upper half, the PML4 index of `0xFFFF_0000_0000_0000 + w` is
/// `w / 2^39`.
proof fn lemma_upper_pml4_index(w: int)
    requires
        0 <= w < 0x1_0000_0000_0000,
    ensures
        table_index(Level::PML4, (0xFFFF_0000_0000_0000 + w) as u64) == w / 0x80_0000_0000,
{
    vstd::arithmetic::power2::lemma2_to64();
    vstd::arithmetic::power2::lemma2_to64_rest();
    vstd::arithmetic::div_mod::lemma_mod_multiples_vanish(0xFFFF, w, 0x1_0000_0000_0000);
    vstd::arithmetic::div_mod::lemma_small_mod(w as nat, 0x1_0000_0000_0000);
    assert(0x1_0000_0000_0000 * 0xFFFF == 0xFFFF_0000_0000_0000);
    let v = (0xFFFF_0000_0000_0000 + w) as u64;
    assert(v == 0xFFFF_0000_0000_0000 + w);
    assert(Level::PML4.table_bits() == (39int, 48int));
    assert(pow2(48) == 0x1_0000_0000_0000 && pow2(39) == 0x80_0000_0000);
    assert(v as nat % pow2(48) == w);
}

/// The indices of the kernel image and of the physical remap in the tables.
proof fn lemma_layout_indices()
    ensures
        table_index(Level::PML4, KERNEL_START) == KERNEL_PML4_IDX,
        table_index(Level::PDPT, KERNEL_START) == KERNEL_PDPT_IDX,
        table_index(Level::PML4, REMAP_START) == REMAP_PML4_IDX,
{
    vstd::arithmetic::power2::lemma2_to64();
    vstd::arithmetic::power2::lemma2_to64_rest();
    lemma_upper_pml4_index(0xFFFF_8000_0000);
    lemma_upper_pml4_index(0x8880_0000_0000);
    vstd::arithmetic::div_mod::lemma_mod_multiples_vanish(
        0x1FF_FFFF,
        0x7F_8000_0000,
        0x80_0000_0000,
    );
    vstd::arithmetic::div_mod::lemma_small_mod(0x7F_8000_0000, 0x80_0000_0000);
    assert(0x80_0000_0000 * 0x1FF_FFFF + 0x7F_8000_0000 == KERNEL_START);
    assert(Level::PDPT.table_bits() == (30int, 39int));
    assert(pow2(39) == 0x80_0000_0000 && pow2(30) == 0x4000_0000);
    assert(KERNEL_START as nat % pow2(39) == 0x7F_8000_0000);
    assert(0x7F_8000_0000nat / 0x4000_0000nat == 510);
}

/// The last remap index lies within the remap space's 128 entries.
proof fn lemma_remap_last(size: u64)
    requires
        size <= 0x4000_0000_0000,
    ensures
        REMAP_PML4_IDX - 1 <= remap_last(size) < REMAP_PML4_IDX + 128,
{
    if size > 0 {
        let w = 0x8880_0000_0000 + size - 1;
        lemma_upper_pml4_index(w);
        vstd::arithmetic::div_mod::lemma_div_is_ordered(w, 0xC880_0000_0000 - 1, 0x80_0000_0000);
        vstd::arithmetic::div_mod::lemma_div_is_ordered(0x8880_0000_0000, w, 0x80_0000_0000);
    }
}

/// Entry `j` of the PDPT of PML4 index `idx`: the kernel page directory at
/// its slot of the kernel table, a huge page of the physical remap in a
/// remap table, else zero.
pub open spec fn pdpt_entry(idx: int, j: int, size: u64, kernel_pd: u64) -> u64 {
    if idx == KERNEL_PML4_IDX {
        if j == KERNEL_PDPT_IDX {
            reinit_raw(Level::PDPT, kernel_pd, DEFAULT_PAGE_TABLE_FLAGS)
        } else {
            0
        }
    } else if REMAP_PML4_IDX <= idx <= remap_last(size) {
        reinit_raw(
            Level::PDPT,
            ((idx - REMAP_PML4_IDX) * PDPT_SPAN + j * HUGE_PAGE) as u64,
            KERNEL_PAGE_FLAGS,
        )
    } else {
        0
    }
}

/// Entry `k` of the kernel page directory: the `k`-th large page of the
/// kernel image while it starts below `kernel_end`, else zero.
pub open spec fn kernel_pd_entry(k: int, kernel_end: u64) -> u64 {
    if KERNEL_START + k * LARGE_PAGE < kernel_end {
        reinit_raw(Level::PD, (k * LARGE_PAGE) as u64, KERNEL_PAGE_FLAGS)
    } else {
        0
    }
}

/// A memory map, given by the entry that points to its PML4 table.
pub struct X86_64MemoryMap {
    cr3: RawEntry,
}

impl X86_64MemoryMap {
    /// The CR3 entry of the map.
    pub closed spec fn cr3(&self) -> u64 {
        self.cr3.0
    }

    /// Returns the CR3 entry of the map.
    pub fn cr3_entry(&self) -> (r: u64)
        ensures
            r == self.cr3(),
    {
        self.cr3.0
    }

    /// A new memory map: a PML4 table on a small page from `pmm` that
    /// shares the kernel half (entries 256 to 511) of the current PML4
    /// table `current` and has the rest empty. Returns the map and the
    /// table, to be stored at the page; `None` if `pmm` gives no page.
    pub fn new(current: &RawTable, pmm: &mut PhysicalMemoryManager) -> (r: Option<(Self, RawTable)>)
        requires
            old(pmm).wf(),
        ensures
            final(pmm).wf(),
            final(pmm).base_addr() == old(pmm).base_addr(),
            forall|f: int| old(pmm).buddies().held(f) ==> #[trigger] final(pmm).buddies().held(f),
            r.is_none() ==> pages_refused(*old(pmm), *final(pmm), 1),
            r.is_some() ==> pages_granted(
                *old(pmm),
                *final(pmm),
                1,
                ((r.unwrap().0.cr3() + PhysicalRemapSpace::OFFSET) as u64, FRAME_SIZE),
            ),
            r.is_some() ==> crate::mem::paging::memory::table_frame(*final(pmm), r.unwrap().0.cr3() as int),
            r.is_some() ==> forall|i: int|
                0 <= i < 512 ==> #[trigger] r.unwrap().1.0@[i] == if i < 256 {
                    RawEntry(0)
                } else {
                    current.0@[i]
                },
    {
        let (vaddr, len) = match PageAllocator.allocate(TABLE_SIZE, TABLE_SIZE, pmm) {
            Some(p) => p,
            None => {
                return None;
            },
        };
        proof {
            vstd::arithmetic::power2::lemma2_to64();
            let pr = (vaddr, len);
            let idx = choose|idx: int|
                {
                    let order = (#[trigger] pmm.frame_records()[idx]).order as nat;
                    &&& 0 <= idx < old(pmm).frame_records().len()
                    &&& !old(pmm).buddies().held(idx)
                    &&& pmm.buddies().held(idx)
                    &&& alloc_order_of(1, order)
                    &&& pr.0 == PhysicalRemapSpace::OFFSET + old(pmm).base_addr() + idx * FRAME_SIZE
                    &&& pr.1 == pow2(order) * FRAME_SIZE
                };
            old(pmm).lemma_wf();
            let l = old(pmm).frame_records().len() as int;
            assert(idx * FRAME_SIZE + FRAME_SIZE <= l * FRAME_SIZE) by (nonlinear_arith)
                requires
                    idx < l,
            ;
            vstd::arithmetic::div_mod::lemma_mod_multiples_basic(idx, FRAME_SIZE as int);
            vstd::arithmetic::div_mod::lemma_add_mod_noop(old(pmm).base_addr() as int, idx * FRAME_SIZE, FRAME_SIZE as int);
            let order = pmm.frame_records()[idx].order as nat;
            if order > 0 {
                vstd::arithmetic::power2::lemma_pow2_pos((order - 1) as nat);
            }
            assert(order == 0);
            vstd::arithmetic::div_mod::lemma_div_basics(idx);
            assert(pmm.frame_alone(idx));
            let b = old(pmm).base_addr() as int;
            vstd::arithmetic::div_mod::lemma_div_multiples_vanish(idx, FRAME_SIZE as int);
            assert((idx * FRAME_SIZE) / (FRAME_SIZE as int) == idx);
            assert(pmm.frame_index(b + idx * FRAME_SIZE) == idx);
        }
        let paddr: Addr<UMASpace> = Addr::new(vaddr - PhysicalRemapSpace::OFFSET);
        let mut table = RawTable::default();
        let mut i: usize = 256;
        while i < 512
            invariant
                256 <= i <= 512,
                forall|k: int|
                    0 <= k < 512 ==> #[trigger] table.0@[k] == if 256 <= k < i {
                        current.0@[k]
                    } else {
                        RawEntry(0)
                    },
            decreases 512 - i,
        {
            table.0[i] = current.0[i];
            i = i + 1;
        }
        let cr3 = EntryRef::init(RawEntry::default(), Level::CR3, paddr, Flags::from_bits_retain(0));
        let map = X86_64MemoryMap { cr3: cr3.raw() };
        proof {
            assert(crate::mem::paging::entry::flag_bits(0) == 0) by (bit_vector);
            crate::mem::paging::entry::lemma_reinit_target(Level::CR3, paddr@, 0);
            let pa = paddr@;
            assert(0u64 | pa == pa) by (bit_vector);
            assert(reinit_raw(Level::CR3, paddr@, 0) == paddr@);
        }
        Some((map, table))
    }
}

/// The memory manager: the current memory map.
pub struct X86_64MemoryManager {
    map: X86_64MemoryMap,
}

/// The page tables that map the kernel half at boot.
pub struct KernelTables {
    /// The PML4 table.
    pub pml4: RawTable,
    /// The PDPT tables of PML4 entries 256 to 511, in order.
    pub pdpts: Vec<RawTable>,
    /// The page directory of the kernel image.
    pub kernel_pd: RawTable,
}

impl X86_64MemoryManager {
    /// The kernel page directory: large pages mapping the kernel image,
    /// from its start up to `kernel_end`.
    fn init_kernel_pd(kernel_end: Addr<KernelImageSpace>) -> (r: RawTable)
        requires
            kernel_end@ <= KERNEL_START + HUGE_PAGE,
        ensures
            forall|k: int| 0 <= k < 512 ==> (#[trigger] r.0@[k]).0 == kernel_pd_entry(k, kernel_end@),
    {
        let mut pd = RawTable::default();
        let mut vaddr = Addr::<KernelImageSpace>::new(KernelImageSpace::start());
        let mut k: usize = 0;
        while vaddr.usize() < kernel_end.usize()
            invariant
                kernel_end@ <= KERNEL_START + HUGE_PAGE,
                k <= 512,
                vaddr@ == KERNEL_START + k * LARGE_PAGE,
                forall|m: int|
                    0 <= m < 512 ==> (#[trigger] pd.0@[m]).0 == if m < k {
                        kernel_pd_entry(m, kernel_end@)
                    } else {
                        0
                    },
            decreases 512 - k,
        {
            let paddr = KernelImageSpace::v2p(vaddr);
            let entry = EntryRef::init(
                RawEntry::default(),
                Level::PD,
                paddr,
                Flags::from_bits_retain(KERNEL_PAGE_FLAGS),
            );
            pd.0[k] = entry.raw();
            vaddr = vaddr.byte_add(LARGE_PAGE);
            k = k + 1;
        }
        proof {
            assert forall|m: int| 0 <= m < 512 implies (#[trigger] pd.0@[m]).0 == kernel_pd_entry(
                m,
                kernel_end@,
            ) by {
                if m >= k {
                    assert(KERNEL_START + m * LARGE_PAGE >= KERNEL_START + k * LARGE_PAGE);
                }
            }
        }
        pd
    }

    /// The kernel's PDPT: its slot points to the kernel page directory at
    /// `kernel_pd`.
    fn init_kernel_pdpt(kernel_pd: Addr<UMASpace>) -> (r: RawTable)
        ensures
            forall|j: int|
                0 <= j < 512 ==> (#[trigger] r.0@[j]).0 == if j == KERNEL_PDPT_IDX {
                    reinit_raw(Level::PDPT, kernel_pd@, DEFAULT_PAGE_TABLE_FLAGS)
                } else {
                    0
                },
    {
        let mut pdpt = RawTable::default();
        let slot = Addr::<KernelImageSpace>::new(KernelImageSpace::start()).index_range(
            &Level::PDPT.page_table_idx_range(),
        );
        proof {
            lemma_layout_indices();
        }
        let entry = EntryRef::init(
            RawEntry::default(),
            Level::PDPT,
            kernel_pd,
            Flags::from_bits_retain(DEFAULT_PAGE_TABLE_FLAGS),
        );
        pdpt.0[slot as usize] = entry.raw();
        pdpt
    }

    /// A PDPT of the physical remap: the `remap_idx`-th table, mapping
    /// 512 GiB of physical memory with huge pages.
    fn init_physical_remap_pdpt(remap_idx: u64) -> (r: RawTable)
        requires
            remap_idx < 128,
        ensures
            forall|j: int|
                0 <= j < 512 ==> (#[trigger] r.0@[j]).0 == reinit_raw(
                    Level::PDPT,
                    (remap_idx * PDPT_SPAN + j * HUGE_PAGE) as u64,
                    KERNEL_PAGE_FLAGS,
                ),
    {
        let mut pdpt = RawTable::default();
        let remap_start = remap_idx * PDPT_SPAN;
        let mut j: usize = 0;
        while j < 512
            invariant
                remap_idx < 128,
                remap_start == remap_idx * PDPT_SPAN,
                j <= 512,
                forall|m: int|
                    0 <= m < j ==> (#[trigger] pdpt.0@[m]).0 == reinit_raw(
                        Level::PDPT,
                        (remap_idx * PDPT_SPAN + m * HUGE_PAGE) as u64,
                        KERNEL_PAGE_FLAGS,
                    ),
            decreases 512 - j,
        {
            let paddr = Addr::<UMASpace>::new(remap_start + j as u64 * HUGE_PAGE);
            let entry = EntryRef::init(
                RawEntry::default(),
                Level::PDPT,
                paddr,
                Flags::from_bits_retain(KERNEL_PAGE_FLAGS),
            );
            pdpt.0[j] = entry.raw();
            j = j + 1;
        }
        pdpt
    }

    /// The current memory map.
    pub closed spec fn current(&self) -> X86_64MemoryMap {
        self.map
    }

    /// Returns the current memory map.
    pub fn current_map(&self) -> (r: &X86_64MemoryMap)
        ensures
            *r == self.current(),
    {
        &self.map
    }

    /// Returns the CR3 entry of the current memory map.
    pub fn current_cr3(&self) -> (r: u64)
        ensures
            r == self.current().cr3(),
    {
        self.map.cr3_entry()
    }

    /// Builds the initial kernel page tables and the memory manager whose
    /// map points to them. The tables live in the kernel image: the PML4
    /// table at `pml4_vaddr`, the 256 PDPT tables from `pdpts_vaddr` on, the
    /// kernel page directory at `kernel_pd_vaddr`. PML4 entries 256 to 511
    /// point to the PDPT tables; the kernel's PDPT slot points to the kernel
    /// page directory, which maps the kernel image with large pages up to
    /// `kernel_end`; the remap tables map the first `managed_size` bytes of
    /// physical memory, rounded up to whole tables, with huge pages. The
    /// three addresses are those of 4 KiB tables, so they are aligned to
    /// 4 KiB. Placed at their physical addresses, the tables translate the
    /// kernel image and the remap as [`memory::lemma_init_maps_kernel_image`]
    /// and [`memory::lemma_init_maps_remap`] state.
    pub fn init(
        managed_size: u64,
        kernel_end: Addr<KernelImageSpace>,
        pml4_vaddr: Addr<KernelImageSpace>,
        pdpts_vaddr: Addr<KernelImageSpace>,
        kernel_pd_vaddr: Addr<KernelImageSpace>,
    ) -> (r: (Self, KernelTables))
        requires
            managed_size <= UMASpace::range_end(),
            kernel_end@ <= KERNEL_START + HUGE_PAGE,
            pml4_vaddr@ < KernelImageSpace::range_end(),
            kernel_pd_vaddr@ < KernelImageSpace::range_end(),
            pdpts_vaddr@ + 256 * 0x1000 <= KernelImageSpace::range_end(),
            pml4_vaddr@ % 0x1000 == 0,
            pdpts_vaddr@ % 0x1000 == 0,
            kernel_pd_vaddr@ % 0x1000 == 0,
        ensures
            r.1.pdpts@.len() == 256,
            forall|i: int, j: int|
                0 <= i < 256 && 0 <= j < 512 ==> (#[trigger] r.1.pdpts@[i].0@[j]).0
                    == pdpt_entry(i + 256, j, managed_size, (kernel_pd_vaddr@ - KERNEL_START) as u64),
            forall|k: int| 0 <= k < 512 ==> (#[trigger] r.1.kernel_pd.0@[k]).0 == kernel_pd_entry(k, kernel_end@),
            forall|idx: int|
                0 <= idx < 512 ==> (#[trigger] r.1.pml4.0@[idx]).0 == if idx < 256 {
                    0
                } else {
                    reinit_raw(
                        Level::PML4,
                        (pdpts_vaddr@ + (idx - 256) * 0x1000 - KERNEL_START) as u64,
                        DEFAULT_PAGE_TABLE_FLAGS,
                    )
                },
            r.0.current().cr3() == reinit_raw(Level::CR3, (pml4_vaddr@ - KERNEL_START) as u64, 0),
    {
        proof {
            vstd::arithmetic::power2::lemma2_to64();
            vstd::arithmetic::power2::lemma2_to64_rest();
        }
        let kernel_pd = Self::init_kernel_pd(kernel_end);
        let kernel_pd_paddr = KernelImageSpace::v2p(kernel_pd_vaddr);
        let kernel_idx = Addr::<KernelImageSpace>::new(KernelImageSpace::start()).index_range(
            &Level::PML4.page_table_idx_range(),
        );
        let remap_first = Addr::<PhysicalRemapSpace>::new(PhysicalRemapSpace::start()).index_range(
            &Level::PML4.page_table_idx_range(),
        );
        proof {
            lemma_layout_indices();
        }
        let remap_end = if managed_size == 0 {
            remap_first - 1
        } else {
            let last = PhysicalRemapSpace::start() + (managed_size - 1);
            Addr::<PhysicalRemapSpace>::new(last).index_range(&Level::PML4.page_table_idx_range())
        };
        proof {
            lemma_layout_indices();
            lemma_remap_last(managed_size);
            assert(kernel_idx == KERNEL_PML4_IDX);
            assert(remap_first == REMAP_PML4_IDX);
            assert(remap_end == remap_last(managed_size));
        }
        let mut pml4 = RawTable::default();
        let mut pdpts: Vec<RawTable> = Vec::new();
        let mut i: usize = 0;
        while i < 256
            invariant
                i <= 256,
                pdpts@.len() == i,
                kernel_idx == KERNEL_PML4_IDX,
                remap_first == REMAP_PML4_IDX,
                remap_end == remap_last(managed_size),
                REMAP_PML4_IDX - 1 <= remap_last(managed_size) < REMAP_PML4_IDX + 128,
                kernel_pd_paddr@ == kernel_pd_vaddr@ - KERNEL_START,
                pdpts_vaddr@ + 256 * 0x1000 <= KernelImageSpace::range_end(),
                managed_size <= UMASpace::range_end(),
                forall|a: int, j: int|
                    0 <= a < i && 0 <= j < 512 ==> (#[trigger] pdpts@[a].0@[j]).0 == pdpt_entry(
                        a + 256,
                        j,
                        managed_size,
                        (kernel_pd_vaddr@ - KERNEL_START) as u64,
                    ),
                forall|idx: int|
                    0 <= idx < 512 ==> (#[trigger] pml4.0@[idx]).0 == if idx < 256 || idx >= 256
                        + i {
                        0
                    } else {
                        reinit_raw(
                            Level::PML4,
                            (pdpts_vaddr@ + (idx - 256) * 0x1000 - KERNEL_START) as u64,
                            DEFAULT_PAGE_TABLE_FLAGS,
                        )
                    },
            decreases 256 - i,
        {
            let idx = i + 256;
            let table = if idx as u64 == kernel_idx {
                Self::init_kernel_pdpt(kernel_pd_paddr)
            } else if remap_first <= idx as u64 && idx as u64 <= remap_end {
                Self::init_physical_remap_pdpt(idx as u64 - remap_first)
            } else {
                RawTable::default()
            };
            proof {
                assert forall|j: int| 0 <= j < 512 implies (#[trigger] table.0@[j]).0 == pdpt_entry(
                    idx as int,
                    j,
                    managed_size,
                    (kernel_pd_vaddr@ - KERNEL_START) as u64,
                ) by {
                    if idx as u64 == kernel_idx {
                    } else if remap_first <= idx as u64 && idx as u64 <= remap_end {
                    } else {
                    }
                }
            }
            let ghost prev = pdpts@;
            pdpts.push(table);
            let table_vaddr = pdpts_vaddr.byte_add(i as u64 * 0x1000);
            let table_paddr = KernelImageSpace::v2p(table_vaddr);
            let entry = EntryRef::init(
                RawEntry::default(),
                Level::PML4,
                table_paddr,
                Flags::from_bits_retain(DEFAULT_PAGE_TABLE_FLAGS),
            );
            let ghost before = pml4;
            pml4.0[idx] = entry.raw();
            proof {
                assert forall|a: int, j: int|
                    0 <= a < i + 1 && 0 <= j < 512 implies (#[trigger] pdpts@[a].0@[j]).0
                    == pdpt_entry(a + 256, j, managed_size, (kernel_pd_vaddr@ - KERNEL_START) as u64) by {
                    if a < i {
                        assert(pdpts@[a] == prev[a]);
                    }
                }
            }
            i = i + 1;
        }
        let pml4_paddr = KernelImageSpace::v2p(pml4_vaddr);
        let cr3 = EntryRef::init(RawEntry::default(), Level::CR3, pml4_paddr, Flags::from_bits_retain(0));
        let manager = X86_64MemoryManager { map: X86_64MemoryMap { cr3: cr3.raw() } };
        (manager, KernelTables { pml4, pdpts, kernel_pd })
    }
}

} // verus!
