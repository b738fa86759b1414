//! The paging tables as they lie in physical memory, and the walks that
//! map and translate virtual addresses through them.
use crate::mem::addr::{Addr, AddrSpace, Page, PageRange, PageSize};
use crate::mem::paging::entry::{
    addr_fits, flag_bits, lemma_reinit_target, maps_page, present, reinit_raw, required_align,
    target_addr, EntryRef, EntryTarget, Flags, RawEntry,
};
use crate::mem::paging::table::{RawTable, TableRef, TABLE_LEN};
use crate::mem::paging::{
    kernel_pd_entry, pdpt_entry, remap_last, table_index, Level, X86_64MemoryMap, DEFAULT_PAGE_TABLE_FLAGS,
    HUGE_PAGE, KERNEL_PAGE_FLAGS, KERNEL_START, LARGE_PAGE, PDPT_SPAN, REMAP_PML4_IDX, REMAP_START,
};
use crate::mem::phy::{frames_per_page, Frame, PhysicalMemoryManager, UMASpace, FRAME_SIZE};
use crate::mem::virt::VirtSpace;
use std::collections::HashMap;
use vstd::arithmetic::power2::pow2;
use vstd::prelude::*;

verus! {

broadcast use vstd::std_specs::hash::group_hash_axioms;

/// How far `level` lies below `CR3`.
pub open spec fn depth(level: Level) -> nat {
    match level {
        Level::CR3 => 0,
        Level::PML4 => 1,
        Level::PDPT => 2,
        Level::PD => 3,
        Level::PT => 4,
    }
}

/// The next higher level; `CR3` for `CR3` itself.
pub open spec fn above(level: Level) -> Level {
    match level {
        Level::CR3 => Level::CR3,
        Level::PML4 => Level::CR3,
        Level::PDPT => Level::PML4,
        Level::PD => Level::PDPT,
        Level::PT => Level::PD,
    }
}

/// Entry `e` of `level` points to a table of the next level.
pub open spec fn points_to_table(level: Level, e: u64) -> bool {
    present(level, e) && !maps_page(level, e) && level.below().is_some()
}

/// Entry `e` of a table of `level` fits the tables `m`: its address bits
/// lie in the physical space and, if it points to a table, that table is
/// held in `m` with the next level.
pub open spec fn entry_fits(m: Map<u64, TableRef>, level: Level, e: u64) -> bool {
    &&& addr_fits(e)
    &&& points_to_table(level, e) ==> {
        &&& m.contains_key(target_addr(level, e))
        &&& Some(m[target_addr(level, e)].spec_level()) == level.below()
    }
}

/// Every table of `m` has its entries, and each of them fits `m`.
pub open spec fn well_linked(m: Map<u64, TableRef>) -> bool {
    forall|t: u64|
        #[trigger] m.contains_key(t) ==> m[t].entries().len() == TABLE_LEN && m[t].spec_level()
            != Level::CR3 && forall|i: int|
            0 <= i < TABLE_LEN ==> entry_fits(m, m[t].spec_level(), #[trigger] m[t].entries()[i].0)
}

/// The CR3 entry `cr3` points to a PML4 table held in `m`.
pub open spec fn rooted(m: Map<u64, TableRef>, cr3: u64) -> bool {
    &&& addr_fits(cr3)
    &&& m.contains_key(target_addr(Level::CR3, cr3))
    &&& m[target_addr(Level::CR3, cr3)].spec_level() == Level::PML4
}

/// Every table of `m` that lies on a frame of `pmm` lies on a frame that
/// `pmm` holds, so a frame it hands out next holds no table.
pub open spec fn tables_held(m: Map<u64, TableRef>, pmm: PhysicalMemoryManager) -> bool {
    forall|t: u64|
        #[trigger] m.contains_key(t) && pmm.base_addr() <= t && (t - pmm.base_addr()) % (
        FRAME_SIZE as int) == 0 && pmm.frame_index(t as int) < pmm.frame_records().len()
            ==> pmm.buddies().held(pmm.frame_index(t as int))
}

/// The entry of `level` that the walk for virtual address `v` reaches from
/// the CR3 entry `cr3` through the tables of `m`; `None` if an entry above
/// does not point to a table held in `m`.
pub open spec fn walk_entry(m: Map<u64, TableRef>, cr3: u64, v: u64, level: Level) -> Option<u64>
    decreases depth(level),
{
    if level == Level::CR3 {
        Some(cr3)
    } else {
        let up = above(level);
        match walk_entry(m, cr3, v, up) {
            Some(e) => if points_to_table(up, e) && m.contains_key(target_addr(up, e)) {
                Some(m[target_addr(up, e)].entries()[table_index(level, v)].0)
            } else {
                None
            },
            None => None,
        }
    }
}

/// The bytes a page entry of `level` maps: 1 GiB for a PDPT entry, 2 MiB
/// for a PD entry, else 4 KiB.
pub open spec fn level_span(level: Level) -> int {
    match level {
        Level::PDPT => 0x4000_0000,
        Level::PD => 0x20_0000,
        _ => 0x1000,
    }
}

/// The physical address of `v` in the page that entry `e` of `level` maps:
/// the address in the entry, rounded down to the page, plus the offset of
/// `v` within the page.
pub open spec fn page_addr_of(level: Level, e: u64, v: u64) -> u64 {
    let a = target_addr(level, e) as int;
    let span = level_span(level);
    (a - a % span + v as int % span) as u64
}

/// Where the walk for `v` from entry `e` of `level` ends: the physical
/// address of `v` in the page that a present page entry maps, or `None` at
/// an entry that is not present or at a table missing from `m`.
pub open spec fn resolve(m: Map<u64, TableRef>, level: Level, e: u64, v: u64) -> Option<u64>
    decreases 4 - depth(level),
{
    if !present(level, e) {
        None
    } else if maps_page(level, e) {
        Some(page_addr_of(level, e, v))
    } else if level == Level::PT {
        None
    } else {
        let down = level.below().unwrap();
        let t = target_addr(level, e);
        if m.contains_key(t) {
            resolve(m, down, m[t].entries()[table_index(down, v)].0, v)
        } else {
            None
        }
    }
}

/// The physical address that virtual address `v` translates to through the
/// tables `m` from the CR3 entry `cr3`.
pub open spec fn mapped_addr(m: Map<u64, TableRef>, cr3: u64, v: u64) -> Option<u64> {
    resolve(m, Level::CR3, cr3, v)
}

/// Resolving from the CR3 entry is resolving from any entry the walk
/// reaches.
pub proof fn lemma_walk_resolve(m: Map<u64, TableRef>, cr3: u64, v: u64, level: Level, e: u64)
    requires
        walk_entry(m, cr3, v, level) == Some(e),
    ensures
        mapped_addr(m, cr3, v) == resolve(m, level, e, v),
    decreases depth(level),
{
    if level != Level::CR3 {
        let up = above(level);
        let eu = walk_entry(m, cr3, v, up).unwrap();
        lemma_walk_resolve(m, cr3, v, up, eu);
        assert(up.below() == Some(level));
    }
}

/// A walk that reaches a level passed, at every level above it, an entry
/// pointing to a table held in `m`.
pub proof fn lemma_walk_prefix(m: Map<u64, TableRef>, cr3: u64, v: u64, upper: Level, lower: Level)
    requires
        walk_entry(m, cr3, v, lower).is_some(),
        depth(upper) < depth(lower),
    ensures
        walk_entry(m, cr3, v, upper).is_some(),
        points_to_table(upper, walk_entry(m, cr3, v, upper).unwrap()),
        m.contains_key(target_addr(upper, walk_entry(m, cr3, v, upper).unwrap())),
    decreases depth(lower),
{
    let up = above(lower);
    if depth(up) > depth(upper) {
        lemma_walk_prefix(m, cr3, v, upper, up);
    } else {
        assert(up == upper);
    }
}

/// On well-linked tables, every entry a walk reaches fits them, and the
/// table holding it has its level.
pub proof fn lemma_walk_fits(m: Map<u64, TableRef>, cr3: u64, v: u64, level: Level)
    requires
        well_linked(m),
        rooted(m, cr3),
        walk_entry(m, cr3, v, level).is_some(),
    ensures
        entry_fits(m, level, walk_entry(m, cr3, v, level).unwrap()),
        level != Level::CR3 ==> m[target_addr(above(level), walk_entry(m, cr3, v, above(level)).unwrap())].spec_level()
            == level,
    decreases depth(level),
{
    if level != Level::CR3 {
        let up = above(level);
        lemma_walk_fits(m, cr3, v, up);
        let eu = walk_entry(m, cr3, v, up).unwrap();
        let t = target_addr(up, eu);
        assert(up.below() == Some(level));
        assert(m.contains_key(t));
        lemma_table_index_bound(level, v);
        assert(entry_fits(m, m[t].spec_level(), m[t].entries()[table_index(level, v)].0));
    } else {
        assert(target_addr(Level::CR3, cr3) == cr3 & 0x0000_FFFF_FFFF_F000);
    }
}

/// The index of a table entry lies within the table.
pub proof fn lemma_table_index_bound(level: Level, v: u64)
    ensures
        0 <= table_index(level, v) < TABLE_LEN,
{
    let (s, e) = level.table_bits();
    vstd::arithmetic::power2::lemma_pow2_pos(e as nat);
    vstd::arithmetic::power2::lemma_pow2_pos(s as nat);
    vstd::arithmetic::power2::lemma_pow2_adds(s as nat, 9);
    vstd::arithmetic::power2::lemma2_to64();
    let x = v as nat % pow2(e as nat);
    assert(x < pow2(e as nat));
    assert(pow2(e as nat) == pow2(s as nat) * 512);
    vstd::arithmetic::div_mod::lemma_div_is_ordered_by_denominator(x as int, pow2(s as nat) as int, pow2(s as nat) as int);
    vstd::arithmetic::div_mod::lemma_multiply_divide_lt(x as int, pow2(s as nat) as int, 512);
}

/// The paging tables in physical memory, by the physical address of each.
pub struct TableMemory {
    tables: HashMap<u64, TableRef>,
}

impl TableMemory {
    /// The tables, by physical address.
    pub closed spec fn tables(&self) -> Map<u64, TableRef> {
        self.tables@
    }

    /// No tables.
    pub fn new() -> (r: Self)
        ensures
            r.tables() == Map::<u64, TableRef>::empty(),
    {
        TableMemory { tables: HashMap::new() }
    }

    /// Places `table` at physical address `paddr`.
    pub fn insert(&mut self, paddr: u64, table: TableRef)
        ensures
            final(self).tables() == old(self).tables().insert(paddr, table),
    {
        self.tables.insert(paddr, table);
    }

    /// Whether a table lies at `paddr`.
    pub fn holds(&self, paddr: u64) -> (r: bool)
        ensures
            r == self.tables().contains_key(paddr),
    {
        self.tables.contains_key(&paddr)
    }

    /// Takes away the table at `paddr`.
    pub fn remove(&mut self, paddr: u64)
        ensures
            final(self).tables() == old(self).tables().remove(paddr),
    {
        self.tables.remove(&paddr);
    }

    /// Returns entry `idx` of the table at `paddr`.
    pub fn entry(&self, paddr: u64, idx: usize) -> (r: EntryRef)
        requires
            self.tables().contains_key(paddr),
            self.tables()[paddr].entries().len() == TABLE_LEN,
            idx < TABLE_LEN,
        ensures
            r.spec_level() == self.tables()[paddr].spec_level(),
            r.bits() == self.tables()[paddr].entries()[idx as int].0,
    {
        let table = self.tables.get(&paddr).unwrap();
        table.index(idx)
    }

    /// Writes `e` as entry `idx` of the table at `paddr`.
    pub fn write(&mut self, paddr: u64, idx: usize, e: EntryRef)
        requires
            old(self).tables().contains_key(paddr),
            idx < TABLE_LEN,
        ensures
            final(self).tables().dom() == old(self).tables().dom(),
            final(self).tables()[paddr].spec_level() == old(self).tables()[paddr].spec_level(),
            final(self).tables()[paddr].entries() == old(self).tables()[paddr].entries().update(
                idx as int,
                RawEntry(e.bits()),
            ),
            forall|t: u64| t != paddr ==> #[trigger] final(self).tables().index(t) == old(self).tables().index(t),
    {
        let mut table = self.tables.remove(&paddr).unwrap();
        table.write(idx, e);
        self.tables.insert(paddr, table);
        proof {
            assert(self.tables().dom() =~= old(self).tables().dom());
        }
    }
}

/// The level whose entries map pages of `size`.
pub open spec fn page_level(size: PageSize) -> Level {
    match size {
        PageSize::Small => Level::PT,
        PageSize::Large => Level::PD,
        PageSize::Huge => Level::PDPT,
    }
}

/// The index, in a table of `level`, of the entry that `addr` goes through.
fn table_idx<S: VirtSpace>(level: Level, addr: Addr<S>) -> (r: usize)
    requires
        level != Level::CR3,
    ensures
        r == table_index(level, addr@),
        r < TABLE_LEN,
{
    let range = level.page_table_idx_range();
    let idx = addr.index_range(&range);
    proof {
        lemma_table_index_bound(level, addr@);
    }
    idx as usize
}

/// Adding a table at an address not yet used changes no walk that
/// succeeded.
proof fn lemma_walk_insert(m: Map<u64, TableRef>, f: u64, x: TableRef, cr3: u64, v: u64, level: Level)
    requires
        !m.contains_key(f),
        walk_entry(m, cr3, v, level).is_some(),
    ensures
        walk_entry(m.insert(f, x), cr3, v, level) == walk_entry(m, cr3, v, level),
    decreases depth(level),
{
    if level != Level::CR3 {
        lemma_walk_insert(m, f, x, cr3, v, above(level));
    }
}

/// Rewriting the entry that the walk for `v` reaches at `level`, in the
/// table `loc` that holds it, changes the walk at that level to the new
/// entry and leaves it unchanged above.
proof fn lemma_walk_write(
    m: Map<u64, TableRef>,
    m2: Map<u64, TableRef>,
    cr3: u64,
    v: u64,
    level: Level,
    loc: u64,
    nb: u64,
)
    requires
        well_linked(m),
        rooted(m, cr3),
        level != Level::CR3,
        m.contains_key(loc),
        m[loc].spec_level() == level,
        walk_entry(m, cr3, v, above(level)).is_some(),
        points_to_table(above(level), walk_entry(m, cr3, v, above(level)).unwrap()),
        target_addr(above(level), walk_entry(m, cr3, v, above(level)).unwrap()) == loc,
        m2.dom() == m.dom(),
        m2[loc].spec_level() == level,
        m2[loc].entries() == m[loc].entries().update(table_index(level, v), RawEntry(nb)),
        forall|t: u64| t != loc ==> #[trigger] m2.index(t) == m.index(t),
    ensures
        forall|u: Level| depth(u) < depth(level) ==> #[trigger] walk_entry(m2, cr3, v, u) == walk_entry(m, cr3, v, u),
        walk_entry(m2, cr3, v, level) == Some(nb),
{
    assert forall|u: Level| depth(u) < depth(level) implies #[trigger] walk_entry(m2, cr3, v, u) == walk_entry(m, cr3, v, u) by {
        lemma_walk_write_above(m, m2, cr3, v, level, loc, u);
    }
    lemma_table_index_bound(level, v);
    assert(above(level) != level);
    assert(depth(above(level)) < depth(level));
    assert(walk_entry(m2, cr3, v, above(level)) == walk_entry(m, cr3, v, above(level)));
    assert(m2.contains_key(loc));
}

/// The walk above the rewritten level is unchanged.
proof fn lemma_walk_write_above(
    m: Map<u64, TableRef>,
    m2: Map<u64, TableRef>,
    cr3: u64,
    v: u64,
    level: Level,
    loc: u64,
    u: Level,
)
    requires
        well_linked(m),
        rooted(m, cr3),
        m.contains_key(loc),
        m[loc].spec_level() == level,
        walk_entry(m, cr3, v, above(level)).is_some(),
        depth(u) < depth(level),
        m2.dom() == m.dom(),
        forall|t: u64| t != loc ==> #[trigger] m2.index(t) == m.index(t),
    ensures
        walk_entry(m2, cr3, v, u) == walk_entry(m, cr3, v, u),
    decreases depth(u),
{
    if u != Level::CR3 {
        let up = above(u);
        lemma_walk_write_above(m, m2, cr3, v, level, loc, up);
        if walk_entry(m, cr3, v, u).is_some() {
            lemma_walk_fits(m, cr3, v, u);
            let t = target_addr(up, walk_entry(m, cr3, v, up).unwrap());
            assert(m[t].spec_level() == u);
            assert(t != loc);
        } else if let Some(e) = walk_entry(m, cr3, v, up) {
            let t = target_addr(up, e);
            if points_to_table(up, e) && m.contains_key(t) {
                assert(false);
            }
        }
    }
}

impl X86_64MemoryMap {
    /// Translates `vaddr`: walks down from the CR3 entry while the entry
    /// reached points to a table, then returns the page address of a
    /// present page entry, or `None` for an entry that is not present.
    pub fn translate<V: VirtSpace>(&self, mem: &TableMemory, vaddr: Addr<V>) -> (r: Option<Addr<UMASpace>>)
        requires
            well_linked(mem.tables()),
            rooted(mem.tables(), self.cr3()),
        ensures
            r.is_some() == mapped_addr(mem.tables(), self.cr3(), vaddr@).is_some(),
            r.is_some() ==> r.unwrap()@ == mapped_addr(mem.tables(), self.cr3(), vaddr@).unwrap(),
    {
        let ghost m = mem.tables();
        let ghost cr3 = self.cr3();
        let mut cur = EntryRef::from_raw(self.cr3, Level::CR3);
        loop
            invariant
                well_linked(m),
                rooted(m, cr3),
                m == mem.tables(),
                walk_entry(m, cr3, vaddr@, cur.spec_level()) == Some(cur.bits()),
            ensures
                walk_entry(m, cr3, vaddr@, cur.spec_level()) == Some(cur.bits()),
                addr_fits(cur.bits()),
                !points_to_table(cur.spec_level(), cur.bits()),
            decreases 4 - depth(cur.spec_level()),
        {
            proof {
                lemma_walk_fits(m, cr3, vaddr@, cur.spec_level());
            }
            match cur.target() {
                EntryTarget::Table(next, a) => {
                    let idx = table_idx(next, vaddr);
                    proof {
                        assert(above(next) == cur.spec_level());
                    }
                    cur = mem.entry(a.usize(), idx);
                },
                _ => {
                    break;
                },
            }
        }
        proof {
            lemma_walk_resolve(m, cr3, vaddr@, cur.spec_level(), cur.bits());
        }
        match cur.target() {
            EntryTarget::Page(l, a) => {
                let span = level_span_of(l);
                let pa = a.usize();
                let off = vaddr.usize() % span;
                let base = pa - pa % span;
                proof {
                    crate::mem::paging::entry::lemma_addr_bits(cur.bits());
                    assert(pa < 0x4000_0000_0000);
                    lemma_page_base_room(pa as int, span as int, off as int);
                }
                Some(Addr::new(base + off))
            },
            _ => None,
        }
    }
}

/// The bytes a page entry of `level` maps.
fn level_span_of(level: Level) -> (r: u64)
    ensures
        r == level_span(level),
{
    match level {
        Level::PDPT => 0x4000_0000,
        Level::PD => 0x20_0000,
        _ => 0x1000,
    }
}

/// An address below the end of the physical space, rounded down to a span
/// that divides that end, leaves room for any offset within the span.
proof fn lemma_page_base_room(a: int, span: int, off: int)
    requires
        0 <= a < 0x4000_0000_0000,
        span == 0x4000_0000 || span == 0x20_0000 || span == 0x1000,
        0 <= off < span,
    ensures
        a - a % span + off < 0x4000_0000_0000,
        a - a % span >= 0,
{
    vstd::arithmetic::div_mod::lemma_fundamental_div_mod(a, span);
    let q: int = a / span;
    let k: int = 0x4000_0000_0000int / span;
    assert(k * span == 0x4000_0000_0000);
    assert(q * span <= a) by (nonlinear_arith)
        requires
            a == span * q + a % span,
            a % span >= 0,
    ;
    assert(q < k) by (nonlinear_arith)
        requires
            q * span <= a,
            a < k * span,
            span > 0,
    ;
    assert(q * span + span <= k * span) by (nonlinear_arith)
        requires
            q + 1 <= k,
            span > 0,
    ;
    assert(a - a % span == q * span) by (nonlinear_arith)
        requires
            a == span * q + a % span,
    ;
    assert(q >= 0) by (nonlinear_arith)
        requires
            a >= 0,
            span > 0,
            a == span * q + a % span,
            a % span < span,
    ;
    assert(q * span >= 0) by (nonlinear_arith)
        requires
            q >= 0,
            span > 0,
    ;
}

/// Adding an empty table at an address not yet used keeps the tables well
/// linked.
proof fn lemma_linked_insert(m: Map<u64, TableRef>, f: u64, x: TableRef)
    requires
        well_linked(m),
        !m.contains_key(f),
        x.entries().len() == TABLE_LEN,
        x.spec_level() != Level::CR3,
        forall|i: int| 0 <= i < TABLE_LEN ==> (#[trigger] x.entries()[i]).0 == 0,
    ensures
        well_linked(m.insert(f, x)),
{
    let m1 = m.insert(f, x);
    assert(addr_fits(0)) by (bit_vector);
    assert forall|t: u64| #[trigger] m1.contains_key(t) implies m1[t].entries().len() == TABLE_LEN
        && m1[t].spec_level() != Level::CR3 && forall|i: int|
        0 <= i < TABLE_LEN ==> entry_fits(m1, m1[t].spec_level(), #[trigger] m1[t].entries()[i].0) by {
        if t == f {
            assert forall|i: int| 0 <= i < TABLE_LEN implies entry_fits(m1, m1[t].spec_level(), #[trigger] m1[t].entries()[i].0) by {
                assert(x.entries()[i].0 == 0);
                assert(0u64 & 1 == 0) by (bit_vector);
            }
        } else {
            assert forall|i: int| 0 <= i < TABLE_LEN implies entry_fits(m1, m1[t].spec_level(), #[trigger] m1[t].entries()[i].0) by {
                assert(entry_fits(m, m[t].spec_level(), m[t].entries()[i].0));
            }
        }
    }
}

/// Rewriting one entry with an entry that fits keeps the tables well
/// linked.
proof fn lemma_linked_write(m: Map<u64, TableRef>, m2: Map<u64, TableRef>, loc: u64, idx: int, nb: u64)
    requires
        well_linked(m),
        m.contains_key(loc),
        0 <= idx < TABLE_LEN,
        m2.dom() == m.dom(),
        m2[loc].spec_level() == m[loc].spec_level(),
        m2[loc].entries() == m[loc].entries().update(idx, RawEntry(nb)),
        forall|t: u64| t != loc ==> #[trigger] m2.index(t) == m.index(t),
        entry_fits(m, m[loc].spec_level(), nb),
    ensures
        well_linked(m2),
{
    assert forall|l: Level, e: u64| entry_fits(m, l, e) implies #[trigger] entry_fits(m2, l, e) by {
        if points_to_table(l, e) {
            let t = target_addr(l, e);
            if t != loc {
                assert(m2.index(t) == m.index(t));
            }
        }
    }
    assert forall|t: u64| #[trigger] m2.contains_key(t) implies m2[t].entries().len() == TABLE_LEN
        && m2[t].spec_level() != Level::CR3 && forall|i: int|
        0 <= i < TABLE_LEN ==> entry_fits(m2, m2[t].spec_level(), #[trigger] m2[t].entries()[i].0) by {
        if t == loc {
            assert forall|i: int| 0 <= i < TABLE_LEN implies entry_fits(m2, m2[t].spec_level(), #[trigger] m2[t].entries()[i].0) by {
                if i != idx {
                    assert(entry_fits(m, m[t].spec_level(), m[t].entries()[i].0));
                }
            }
        } else {
            assert(m2.index(t) == m.index(t));
            assert forall|i: int| 0 <= i < TABLE_LEN implies entry_fits(m2, m2[t].spec_level(), #[trigger] m2[t].entries()[i].0) by {
                assert(entry_fits(m, m[t].spec_level(), m[t].entries()[i].0));
            }
        }
    }
}

/// The entry that maps a page of `level` at `p` with `flags`, which make a
/// page entry or none at that level, fits any tables.
proof fn lemma_page_entry_fits(m: Map<u64, TableRef>, level: Level, p: u64, flags: u16)
    requires
        p < UMASpace::range_end(),
        present(level, flag_bits(flags)) ==> maps_page(level, flag_bits(flags)),
        level != Level::CR3,
    ensures
        entry_fits(m, level, reinit_raw(level, p, flags)),
        !points_to_table(level, reinit_raw(level, p, flags)),
{
    let f = flag_bits(flags);
    assert(f == (flags & 0x1FF) as u64);
    assert((flags & 0x1FF) as u64 & 0x0000_C000_0000_0000 == 0) by (bit_vector);
    if present(level, f) && p % required_align(level, f) == 0 {
        lemma_reinit_target(level, p, flags);
    }
}

/// A frame that the physical memory manager has just handed out holds no
/// table, lies in the space, and is aligned to a frame; the tables stay
/// held by the manager after it.
proof fn lemma_new_table_frame(
    m: Map<u64, TableRef>,
    before: PhysicalMemoryManager,
    after: PhysicalMemoryManager,
    f: u64,
)
    requires
        before.wf(),
        tables_held(m, before),
        after.base_addr() == before.base_addr(),
        after.frame_records().len() == before.frame_records().len(),
        forall|g: int| before.buddies().held(g) ==> #[trigger] after.buddies().held(g),
        exists|idx: int|
            {
                let order = (#[trigger] after.frame_records()[idx]).order as nat;
                &&& 0 <= idx < before.frame_records().len()
                &&& !before.buddies().held(idx)
                &&& after.buddies().held(idx)
                &&& pow2(order) >= 1 * frames_per_page(PageSize::Small)
                &&& (order == 0 || pow2((order - 1) as nat) < 1 * frames_per_page(PageSize::Small))
                &&& after.buddies().allocated(after.buddies().top() - order, idx / pow2(order) as int)
                &&& f == before.base_addr() + idx * FRAME_SIZE
            },
    ensures
        table_frame(after, f as int),
        !m.contains_key(f),
        f % 0x1000 == 0,
        f + 0x1000 <= UMASpace::range_end(),
        before.base_addr() <= f,
        (f - before.base_addr()) % (FRAME_SIZE as int) == 0,
        after.frame_index(f as int) < after.frame_records().len(),
        after.buddies().held(after.frame_index(f as int)),
{
    let idx = choose|idx: int|
        {
            let order = (#[trigger] after.frame_records()[idx]).order as nat;
            &&& 0 <= idx < before.frame_records().len()
            &&& !before.buddies().held(idx)
            &&& after.buddies().held(idx)
            &&& pow2(order) >= 1 * frames_per_page(PageSize::Small)
            &&& (order == 0 || pow2((order - 1) as nat) < 1 * frames_per_page(PageSize::Small))
            &&& after.buddies().allocated(after.buddies().top() - order, idx / pow2(order) as int)
            &&& f == before.base_addr() + idx * FRAME_SIZE
        };
    assert(0 <= idx < before.frame_records().len());
    let order = after.frame_records()[idx].order as nat;
    assert(frames_per_page(PageSize::Small) == 1);
    if order > 0 {
        vstd::arithmetic::power2::lemma_pow2_pos((order - 1) as nat);
    }
    assert(order == 0);
    vstd::arithmetic::power2::lemma2_to64();
    vstd::arithmetic::div_mod::lemma_div_basics(idx);
    assert(idx / (pow2(0) as int) == idx);
    before.lemma_wf();
    let b = before.base_addr() as int;
    let l = before.frame_records().len() as int;
    assert(idx * 4096 + 4096 <= l * 4096) by (nonlinear_arith)
        requires
            idx < l,
    ;
    vstd::arithmetic::div_mod::lemma_mod_multiples_basic(idx, 4096);
    vstd::arithmetic::div_mod::lemma_div_multiples_vanish(idx, 4096);
    assert((idx * 4096) / 4096 == idx);
    assert((idx * 4096) % 4096 == 0);
    assert(f - b == idx * 4096);
    assert(before.frame_index(f as int) == idx);
    vstd::arithmetic::div_mod::lemma_add_mod_noop(b, idx * 4096, 4096);
    if m.contains_key(f) {
        assert(before.buddies().held(before.frame_index(f as int)));
    }
}

/// The entry that points to a new table at the frame `f`, in a table of a
/// level above the last: present, not a page, and pointing to `f`.
proof fn lemma_table_entry(level: Level, f: u64)
    requires
        level != Level::CR3,
        level != Level::PT,
        f % 0x1000 == 0,
        f < UMASpace::range_end(),
    ensures
        flag_bits(3) == 3,
        points_to_table(level, reinit_raw(level, f, 3)),
        target_addr(level, reinit_raw(level, f, 3)) == f,
        addr_fits(reinit_raw(level, f, 3)),
{
    assert((3u16 & 0x1FF) as u64 == 3) by (bit_vector);
    assert(3u64 & 1 != 0) by (bit_vector);
    assert(3u64 & 0x80 == 0) by (bit_vector);
    assert(!maps_page(level, 3));
    assert(required_align(level, 3) == 0x1000);
    lemma_reinit_target(level, f, 3);
}

/// The law of the page tables: once [`X86_64MemoryMap::map`] has written
/// the entry of a present page at the level of its size, the walk for any
/// address of the virtual page translates to the same offset in the
/// physical page.
pub proof fn lemma_translate_after_map(m: Map<u64, TableRef>, cr3: u64, v: u64, level: Level, p: u64, flags: u16)
    requires
        walk_entry(m, cr3, v, level) == Some(reinit_raw(level, p, flags)),
        p < UMASpace::range_end(),
        present(level, flag_bits(flags)),
        maps_page(level, flag_bits(flags)),
        p % required_align(level, flag_bits(flags)) == 0,
    ensures
        mapped_addr(m, cr3, v) == Some((p + v as int % level_span(level)) as u64),
{
    lemma_reinit_target(level, p, flags);
    lemma_walk_resolve(m, cr3, v, level, reinit_raw(level, p, flags));
    assert(required_align(level, flag_bits(flags)) == level_span(level));
    assert(p as int % level_span(level) == 0);
}

/// Two addresses in one 4 KiB page agree in every table index.
proof fn lemma_index_bits_small(v: u64, w: u64)
    by (bit_vector)
    requires
        v / 0x1000 == w / 0x1000,
    ensures
        (v % 0x1_0000_0000_0000) / 0x80_0000_0000 == (w % 0x1_0000_0000_0000) / 0x80_0000_0000,
        (v % 0x80_0000_0000) / 0x4000_0000 == (w % 0x80_0000_0000) / 0x4000_0000,
        (v % 0x4000_0000) / 0x20_0000 == (w % 0x4000_0000) / 0x20_0000,
        (v % 0x20_0000) / 0x1000 == (w % 0x20_0000) / 0x1000,
{
}

/// Two addresses in one 2 MiB page agree in the indices above the last
/// level.
proof fn lemma_index_bits_large(v: u64, w: u64)
    by (bit_vector)
    requires
        v / 0x20_0000 == w / 0x20_0000,
    ensures
        (v % 0x1_0000_0000_0000) / 0x80_0000_0000 == (w % 0x1_0000_0000_0000) / 0x80_0000_0000,
        (v % 0x80_0000_0000) / 0x4000_0000 == (w % 0x80_0000_0000) / 0x4000_0000,
        (v % 0x4000_0000) / 0x20_0000 == (w % 0x4000_0000) / 0x20_0000,
{
}

/// Two addresses in one 1 GiB page agree in the PML4 and PDPT indices.
proof fn lemma_index_bits_huge(v: u64, w: u64)
    by (bit_vector)
    requires
        v / 0x4000_0000 == w / 0x4000_0000,
    ensures
        (v % 0x1_0000_0000_0000) / 0x80_0000_0000 == (w % 0x1_0000_0000_0000) / 0x80_0000_0000,
        (v % 0x80_0000_0000) / 0x4000_0000 == (w % 0x80_0000_0000) / 0x4000_0000,
{
}

/// `v` and `w` lie in one page of the size an entry of `level` maps.
pub open spec fn same_page(level: Level, v: u64, w: u64) -> bool {
    v as int / level_span(level) == w as int / level_span(level)
}

/// Addresses in one page of `top` have the same index at every level from
/// PML4 down to `l`, for `l` at or above `top`.
proof fn lemma_same_index(top: Level, l: Level, v: u64, w: u64)
    requires
        top == Level::PDPT || top == Level::PD || top == Level::PT,
        1 <= depth(l) <= depth(top),
        same_page(top, v, w),
    ensures
        table_index(l, v) == table_index(l, w),
{
    vstd::arithmetic::power2::lemma2_to64();
    vstd::arithmetic::power2::lemma2_to64_rest();
    match top {
        Level::PT => lemma_index_bits_small(v, w),
        Level::PD => lemma_index_bits_large(v, w),
        _ => lemma_index_bits_huge(v, w),
    }
}

/// Walks for two addresses in one page of `top` reach the same entry at
/// every level down to `top`.
proof fn lemma_walk_same_page(m: Map<u64, TableRef>, cr3: u64, v: u64, w: u64, top: Level, level: Level)
    requires
        top == Level::PDPT || top == Level::PD || top == Level::PT,
        depth(level) <= depth(top),
        same_page(top, v, w),
    ensures
        walk_entry(m, cr3, v, level) == walk_entry(m, cr3, w, level),
    decreases depth(level),
{
    if level != Level::CR3 {
        lemma_walk_same_page(m, cr3, v, w, top, above(level));
        lemma_same_index(top, level, v, w);
    }
}

/// The law of the page tables at every address of a page: once
/// [`X86_64MemoryMap::map`] has written the entry of a present page for the
/// virtual page at `base`, the address `k` bytes into that page translates
/// to the address `k` bytes into the physical page at `p`.
pub proof fn lemma_translate_in_page(
    m: Map<u64, TableRef>,
    cr3: u64,
    base: u64,
    k: int,
    level: Level,
    p: u64,
    flags: u16,
)
    requires
        walk_entry(m, cr3, base, level) == Some(reinit_raw(level, p, flags)),
        p < UMASpace::range_end(),
        present(level, flag_bits(flags)),
        maps_page(level, flag_bits(flags)),
        p % required_align(level, flag_bits(flags)) == 0,
        base as int % level_span(level) == 0,
        0 <= k < level_span(level),
        base + k <= u64::MAX,
    ensures
        mapped_addr(m, cr3, (base + k) as u64) == Some((p + k) as u64),
{
    let w = (base + k) as u64;
    let span = level_span(level);
    let q = base as int / span;
    vstd::arithmetic::div_mod::lemma_fundamental_div_mod(base as int, span);
    vstd::arithmetic::div_mod::lemma_fundamental_div_mod_converse(w as int, span, q, k);
    assert(same_page(level, base, w));
    lemma_walk_same_page(m, cr3, base, w, level, level);
    lemma_translate_after_map(m, cr3, w, level, p, flags);
}

impl X86_64MemoryMap {
    /// Maps the virtual page `vpage` to the physical page `ppage` of the
    /// same size with `flags`, which must make a page entry, or none, at the
    /// level of that size. Walks down from the CR3 entry to that level;
    /// wherever the entry reached does not point to a table, an empty table
    /// is made on a frame from `pmm` and the entry rewritten to point to it.
    /// The entry reached at the last level is rewritten with `ppage` and
    /// `flags`. `None` if `pmm` gives no frame, so that no frame is left
    /// free in it; the tables made until then stay. Either way the tables the map owns stay a tree of frames handed
    /// out alone, as [`Self::drop`] needs them.
    pub fn map<V: VirtSpace>(
        &mut self,
        mem: &mut TableMemory,
        vpage: Page<V>,
        ppage: Page<UMASpace>,
        flags: Flags,
        pmm: &mut PhysicalMemoryManager,
    ) -> (r: Option<()>)
        requires
            old(pmm).wf(),
            well_linked(old(mem).tables()),
            rooted(old(mem).tables(), old(self).cr3()),
            tables_held(old(mem).tables(), *old(pmm)),
            vpage.size() == ppage.size(),
            ppage.spec_addr()@ < UMASpace::range_end(),
            present(page_level(vpage.size()), flag_bits(flags@)) ==> maps_page(
                page_level(vpage.size()),
                flag_bits(flags@),
            ),
        ensures
            final(self).cr3() == old(self).cr3(),
            final(pmm).wf(),
            final(pmm).base_addr() == old(pmm).base_addr(),
            final(pmm).frame_records().len() == old(pmm).frame_records().len(),
            forall|f: int| old(pmm).buddies().held(f) ==> #[trigger] final(pmm).buddies().held(f),
            well_linked(final(mem).tables()),
            rooted(final(mem).tables(), final(self).cr3()),
            tables_held(final(mem).tables(), *final(pmm)),
            forall|t: u64|
                #[trigger] old(mem).tables().contains_key(t) ==> final(mem).tables().contains_key(t)
                    && final(mem).tables()[t].spec_level() == old(mem).tables()[t].spec_level(),
            forall|t: u64, i: int|
                old(mem).tables().contains_key(t) && 0 <= i < TABLE_LEN && i != table_index(
                    old(mem).tables()[t].spec_level(),
                    vpage.spec_addr()@,
                ) ==> #[trigger] final(mem).tables()[t].entries()[i] == old(mem).tables()[t].entries()[i],
            walk_entry(old(mem).tables(), old(self).cr3(), vpage.spec_addr()@, page_level(vpage.size())).is_some() ==> r.is_some(),
            r.is_none() ==> final(pmm).no_free_frame(),
            owns_tree(old(mem).tables(), old(self).cr3(), *old(pmm)) ==> owns_tree(
                final(mem).tables(),
                final(self).cr3(),
                *final(pmm),
            ),
            r.is_some() ==> walk_entry(
                final(mem).tables(),
                final(self).cr3(),
                vpage.spec_addr()@,
                page_level(vpage.size()),
            ) == Some(reinit_raw(page_level(vpage.size()), ppage.spec_addr()@, flags@)),
    {
        let target = Level::from_page_size(vpage.page_size());
        let v = vpage.addr();
        let ghost m0 = mem.tables();
        let ghost cr3 = self.cr3();
        let ghost pmm0 = *pmm;
        let root = EntryRef::from_raw(self.cr3, Level::CR3);
        proof {
            lemma_walk_fits(m0, cr3, v@, Level::CR3);
        }
        let mut loc: u64 = match root.target() {
            EntryTarget::Table(_, a) => a.usize(),
            _ => {
                return None;
            },
        };
        let mut level = Level::PML4;
        loop
            invariant
                pmm0 == *old(pmm),
                m0 == old(mem).tables(),
                cr3 == old(self).cr3(),
                target == page_level(vpage.size()),
                target == Level::PDPT || target == Level::PD || target == Level::PT,
                v == vpage.spec_addr(),
                level != Level::CR3,
                depth(level) <= depth(target),
                cr3 == self.cr3(),
                pmm.wf(),
                pmm.base_addr() == pmm0.base_addr(),
                pmm.frame_records().len() == pmm0.frame_records().len(),
                forall|f: int| pmm0.buddies().held(f) ==> #[trigger] pmm.buddies().held(f),
                well_linked(mem.tables()),
                rooted(mem.tables(), cr3),
                tables_held(mem.tables(), *pmm),
                mem.tables().contains_key(loc),
                mem.tables()[loc].spec_level() == level,
                walk_entry(mem.tables(), cr3, v@, above(level)).is_some(),
                points_to_table(above(level), walk_entry(mem.tables(), cr3, v@, above(level)).unwrap()),
                target_addr(above(level), walk_entry(mem.tables(), cr3, v@, above(level)).unwrap()) == loc,
                forall|t: u64|
                    #[trigger] m0.contains_key(t) ==> mem.tables().contains_key(t)
                        && mem.tables()[t].spec_level() == m0[t].spec_level(),
                forall|t: u64, i: int|
                    m0.contains_key(t) && 0 <= i < TABLE_LEN && i != table_index(m0[t].spec_level(), v@)
                        ==> #[trigger] mem.tables()[t].entries()[i] == m0[t].entries()[i],
                walk_entry(m0, cr3, v@, target).is_some() ==> mem.tables() == m0 && *pmm == pmm0,
                owns_tree(m0, cr3, pmm0) ==> owns_tree(mem.tables(), cr3, *pmm),
                vpage.size() == ppage.size(),
                ppage.spec_addr()@ < UMASpace::range_end(),
                present(target, flag_bits(flags@)) ==> maps_page(target, flag_bits(flags@)),
            decreases depth(target) - depth(level),
        {
            let idx = table_idx(level, v);
            let ghost m1 = mem.tables();
            proof {
                assert(m1[loc].entries().len() == TABLE_LEN);
            }
            let mut entry = mem.entry(loc, idx);
            proof {
                assert(walk_entry(m1, cr3, v@, level) == Some(entry.bits()));
                lemma_walk_fits(m1, cr3, v@, level);
            }
            if level == target {
                let p = ppage.addr();
                entry.reinit(p, flags);
                mem.write(loc, idx, entry);
                proof {
                    use_type_invariant(p);
                    lemma_page_entry_fits(m1, level, p@, flags@);
                    lemma_linked_write(m1, mem.tables(), loc, idx as int, entry.bits());
                    lemma_walk_write(m1, mem.tables(), cr3, v@, level, loc, entry.bits());
                    assert(walk_entry(mem.tables(), cr3, v@, Level::CR3) == walk_entry(m1, cr3, v@, Level::CR3));
                    if owns_tree(m0, cr3, pmm0) {
                        lemma_owns_shrink(m1, mem.tables(), loc, idx as int, entry.bits(), cr3, *pmm);
                    }
                }
                return Some(());
            }
            match entry.target() {
                EntryTarget::Table(next, a) => {
                    proof {
                        assert(above(next) == level);
                    }
                    loc = a.usize();
                    level = next;
                },
                _ => {
                    proof {
                        if walk_entry(m0, cr3, v@, target).is_some() {
                            lemma_walk_prefix(m0, cr3, v@, level, target);
                        }
                    }
                    let ghost pmm_b = *pmm;
                    let frame = match pmm.allocate_pages(1, PageSize::Small) {
                        Some(f) => f,
                        None => {
                            proof {
                                assert forall|t: u64|
                                    #[trigger] mem.tables().contains_key(t) && pmm.base_addr() <= t && (t
                                        - pmm.base_addr()) % (FRAME_SIZE as int) == 0 && pmm.frame_index(
                                        t as int,
                                    ) < pmm.frame_records().len() implies pmm.buddies().held(
                                    pmm.frame_index(t as int),
                                ) by {
                                    assert(pmm_b.buddies().held(pmm_b.frame_index(t as int)));
                                }
                                assert(frames_per_page(PageSize::Small) == 1);
                                assert(pmm.no_free_frame());
                                if owns_tree(m0, cr3, pmm0) {
                                    lemma_owns_alloc(m1, cr3, pmm_b, *pmm);
                                }
                            }
                            return None;
                        },
                    };
                    let fa = frame.base.addr();
                    let f = fa.usize();
                    let next = match level.next_level() {
                        Some(n) => n,
                        None => {
                            return None;
                        },
                    };
                    proof {
                        lemma_new_table_frame(m1, pmm_b, *pmm, frame.base.spec_addr()@);
                    }
                    let table = TableRef::from_raw(next, RawTable::default());
                    proof {
                        assert(table.entries().len() == TABLE_LEN);
                        lemma_linked_insert(m1, f, table);
                        lemma_walk_insert(m1, f, table, cr3, v@, above(level));
                        lemma_walk_insert(m1, f, table, cr3, v@, level);
                    }
                    mem.insert(f, table);
                    let ghost m2 = mem.tables();
                    let flags_t = Flags::from_bits_retain(DEFAULT_PAGE_TABLE_FLAGS);
                    entry.reinit(fa, flags_t);
                    proof {
                        lemma_table_entry(level, f);
                        assert(entry.bits() == reinit_raw(level, f, 3));
                        assert(m2.contains_key(loc) && m2[loc] == m1[loc]);
                    }
                    mem.write(loc, idx, entry);
                    proof {
                        lemma_linked_write(m2, mem.tables(), loc, idx as int, entry.bits());
                        lemma_walk_write(m2, mem.tables(), cr3, v@, level, loc, entry.bits());
                        assert(walk_entry(mem.tables(), cr3, v@, Level::CR3) == walk_entry(m2, cr3, v@, Level::CR3));
                        assert(above(next) == level);
                        if owns_tree(m0, cr3, pmm0) {
                            assert forall|i: int| 0 <= i < TABLE_LEN implies (#[trigger] table.entries()[i]).0 == 0 by {}
                            assert(grown(m1, mem.tables(), f, table, loc, idx as int, entry.bits()));
                            lemma_owns_alloc(m1, cr3, pmm_b, *pmm);
                            lemma_owns_grow(m1, mem.tables(), f, table, loc, idx as int, entry.bits(), cr3, pmm_b, *pmm);
                        }
                        assert forall|t: u64|
                            #[trigger] mem.tables().contains_key(t) && pmm.base_addr() <= t && (t
                                - pmm.base_addr()) % (FRAME_SIZE as int) == 0 && pmm.frame_index(
                                t as int,
                            ) < pmm.frame_records().len() implies pmm.buddies().held(
                            pmm.frame_index(t as int),
                        ) by {
                            if t != f {
                                assert(m1.contains_key(t));
                                assert(pmm_b.buddies().held(pmm_b.frame_index(t as int)));
                            }
                        }
                    }
                    loc = f;
                    level = next;
                },
            }
        }
    }
}

/// The table at `t` lies on a frame that `pmm` handed out alone: a block
/// of order 0 recorded at that frame.
pub open spec fn table_frame(pmm: PhysicalMemoryManager, t: int) -> bool {
    &&& t >= pmm.base_addr()
    &&& (t - pmm.base_addr()) % (FRAME_SIZE as int) == 0
    &&& pmm.frame_alone(pmm.frame_index(t))
}

/// The tables reached through entry `e` of `level`: the table it points
/// to, if `m` holds it, and every table reached through that table's
/// entries.
pub open spec fn reaches(m: Map<u64, TableRef>, level: Level, e: u64, t: u64) -> bool
    decreases 4 - depth(level), 0int,
{
    if points_to_table(level, e) && m.contains_key(target_addr(level, e)) && level != Level::PT {
        target_addr(level, e) == t || reaches_from(
            m,
            level.below().unwrap(),
            target_addr(level, e),
            0,
            t,
        )
    } else {
        false
    }
}

/// Some entry from `i` on of the table at `a`, of `level`, reaches `t`.
pub open spec fn reaches_from(m: Map<u64, TableRef>, level: Level, a: u64, i: int, t: u64) -> bool
    decreases 4 - depth(level), 513 - i,
    when 0 <= i
{
    if i >= TABLE_LEN {
        false
    } else {
        reaches(m, level, m[a].entries()[i].0, t) || reaches_from(m, level, a, i + 1, t)
    }
}

/// Some entry from `i` on reaches `t` exactly when one of them does.
proof fn lemma_reaches_from(m: Map<u64, TableRef>, level: Level, a: u64, i: int, t: u64)
    requires
        0 <= i <= TABLE_LEN,
    ensures
        reaches_from(m, level, a, i, t) <==> exists|j: int|
            i <= j < TABLE_LEN && #[trigger] reaches(m, level, m[a].entries()[j].0, t),
    decreases TABLE_LEN - i,
{
    if i < TABLE_LEN {
        lemma_reaches_from(m, level, a, i + 1, t);
        assert(reaches_from(m, level, a, i, t) == (reaches(m, level, m[a].entries()[i].0, t)
            || reaches_from(m, level, a, i + 1, t)));
        if exists|j: int| i <= j < TABLE_LEN && #[trigger] reaches(m, level, m[a].entries()[j].0, t) {
            let j = choose|j: int| i <= j < TABLE_LEN && #[trigger] reaches(m, level, m[a].entries()[j].0, t);
            if j > i {
                assert(reaches_from(m, level, a, i + 1, t));
            }
        }
        if reaches(m, level, m[a].entries()[i].0, t) {
            assert(exists|j: int| i <= j < TABLE_LEN && #[trigger] reaches(m, level, m[a].entries()[j].0, t));
        }
    } else {
        assert(!reaches_from(m, level, a, i, t));
    }
}

/// What entry `e` reaches, one level down: the table it points to, and what
/// the entries of that table reach.
proof fn lemma_reaches_step(m: Map<u64, TableRef>, level: Level, e: u64, t: u64)
    requires
        points_to_table(level, e),
        m.contains_key(target_addr(level, e)),
    ensures
        reaches(m, level, e, t) <==> target_addr(level, e) == t || exists|i: int|
            0 <= i < TABLE_LEN && #[trigger] reaches(
                m,
                level.below().unwrap(),
                m[target_addr(level, e)].entries()[i].0,
                t,
            ),
{
    lemma_reaches_from(m, level.below().unwrap(), target_addr(level, e), 0, t);
}

/// Through the first `n` entries of the table at `t`, no table is reached
/// twice, and `t` itself is not reached.
pub open spec fn tree_upto(m: Map<u64, TableRef>, t: u64, n: int) -> bool {
    let level = m[t].spec_level();
    &&& forall|i: int| 0 <= i < n ==> !#[trigger] reaches(m, level, m[t].entries()[i].0, t)
    &&& forall|i: int, j: int, u: u64|
        0 <= i < j < n ==> !(#[trigger] reaches(m, level, m[t].entries()[i].0, u)
            && #[trigger] reaches(m, level, m[t].entries()[j].0, u))
}

/// The table at `t` is the root of a tree: no table is reached through two
/// of its entries, nor is `t` itself reached through them.
pub open spec fn tree_at(m: Map<u64, TableRef>, t: u64) -> bool {
    tree_upto(m, t, TABLE_LEN as int)
}

/// The tables reached through entry `e` of `level` form a tree: each of
/// them is the root of one.
pub open spec fn tree_ok(m: Map<u64, TableRef>, level: Level, e: u64) -> bool {
    forall|t: u64| #[trigger] reaches(m, level, e, t) ==> tree_at(m, t)
}

/// Freeing the table frame at `x` leaves every other table frame handed
/// out.
proof fn lemma_table_frame_kept(before: PhysicalMemoryManager, after: PhysicalMemoryManager, x: int, y: int)
    requires
        table_frame(before, x),
        table_frame(before, y),
        x != y,
        after.base_addr() == before.base_addr(),
        after.buddies().top() == before.buddies().top(),
        after.buddies().same_shape(&before.buddies()),
        after.buddies().agrees_except(&before.buddies(), before.buddies().top(), before.frame_index(x), true),
        after.frame_records() == before.frame_records().update(
            before.frame_index(x),
            Frame { order: 0, ..before.frame_records()[before.frame_index(x)] },
        ),
    ensures
        table_frame(after, y),
{
    let b = before.base_addr() as int;
    let ix = before.frame_index(x);
    let iy = before.frame_index(y);
    vstd::arithmetic::div_mod::lemma_fundamental_div_mod(x - b, 4096);
    vstd::arithmetic::div_mod::lemma_fundamental_div_mod(y - b, 4096);
    assert(ix != iy);
    let top = before.buddies().top();
    assert(!crate::mem::phy::buddy::is_anc(top, iy, top, ix));
    assert(after.buddies().valid(top, iy) == before.buddies().valid(top, iy));
}

/// Some entry before `k` of the table at `a`, of `level`, reaches `t`.
pub open spec fn reached_before(m: Map<u64, TableRef>, a: u64, level: Level, k: int, t: u64) -> bool {
    exists|j: int| 0 <= j < k && #[trigger] reaches(m, level, m[a].entries()[j].0, t)
}

/// Gives the frame of the table at `a` back to `pmm` and takes the table
/// away from `mem`.
fn free_table(mem: &mut TableMemory, pmm: &mut PhysicalMemoryManager, a: u64)
    requires
        old(pmm).wf(),
        old(mem).tables().contains_key(a),
        table_frame(*old(pmm), a as int),
    ensures
        final(pmm).wf(),
        final(pmm).base_addr() == old(pmm).base_addr(),
        final(pmm).buddies().top() == old(pmm).buddies().top(),
        final(mem).tables() == old(mem).tables().remove(a),
        forall|t: u64| #![trigger table_frame(*final(pmm), t as int)]
            table_frame(*old(pmm), t as int) && t != a ==> table_frame(*final(pmm), t as int),
{
    proof {
        old(pmm).lemma_wf();
        let b = old(pmm).base_addr() as int;
        let idx = old(pmm).frame_index(a as int);
        let l = old(pmm).frame_records().len() as int;
        vstd::arithmetic::div_mod::lemma_fundamental_div_mod(a - b, 4096);
        assert(idx * 4096 + 4096 <= l * 4096) by (nonlinear_arith)
            requires
                idx < l,
        ;
        vstd::arithmetic::div_mod::lemma_add_mod_noop(b, a - b, 4096);
        vstd::arithmetic::power2::lemma2_to64();
        assert(pow2(0) == 1);
        assert(idx / (pow2(0) as int) == idx);
        old(pmm).buddies().lemma_top_bound(0, 0);
    }
    let page = Page::new(Addr::new(a), PageSize::Small);
    let ghost before = *pmm;
    pmm.deallocate_pages(PageRange { base: page, len: 1 });
    mem.remove(a);
    proof {
        let idx = before.frame_index(a as int);
        assert(idx / (pow2(0) as int) == idx);
        assert(before.buddies().top() - 0 == before.buddies().top());
        assert forall|t: u64| #![trigger table_frame(*pmm, t as int)]
            table_frame(before, t as int) && t != a implies table_frame(*pmm, t as int) by {
            lemma_table_frame_kept(before, *pmm, a as int, t as int);
        }
    }
}

/// Frees the tables reached through entry `e`, children first: the frame
/// of each goes back to `pmm` and the table leaves `mem`. The tables are
/// those of `m0` that `mem` still holds unchanged.
fn drop_below(mem: &mut TableMemory, pmm: &mut PhysicalMemoryManager, e: EntryRef, Ghost(m0): Ghost<Map<u64, TableRef>>)
    requires
        old(pmm).wf(),
        well_linked(m0),
        entry_fits(m0, e.spec_level(), e.bits()),
        tree_ok(m0, e.spec_level(), e.bits()),
        forall|t: u64|
            #[trigger] reaches(m0, e.spec_level(), e.bits(), t) ==> old(mem).tables().contains_key(t)
                && old(mem).tables()[t] == m0[t] && table_frame(*old(pmm), t as int),
    ensures
        final(pmm).wf(),
        final(pmm).base_addr() == old(pmm).base_addr(),
        final(pmm).buddies().top() == old(pmm).buddies().top(),
        forall|t: u64|
            #[trigger] final(mem).tables().contains_key(t) <==> old(mem).tables().contains_key(t)
                && !reaches(m0, e.spec_level(), e.bits(), t),
        forall|t: u64|
            final(mem).tables().contains_key(t) ==> #[trigger] final(mem).tables()[t] == old(mem).tables()[t],
        forall|t: u64| #![trigger table_frame(*final(pmm), t as int)]
            table_frame(*old(pmm), t as int) && !reaches(m0, e.spec_level(), e.bits(), t) ==> table_frame(
                *final(pmm),
                t as int,
            ),
    decreases 4 - depth(e.spec_level()), 0nat,
{
    match e.target() {
        EntryTarget::Table(next, aa) => {
            let a = aa.usize();
            proof {
                let l = e.spec_level();
                assert(l.below() == Some(next));
                assert(target_addr(l, e.bits()) == a);
                assert(points_to_table(l, e.bits()));
                assert(m0.contains_key(a));
                assert(l != Level::PT);
                assert(l.below().unwrap() == next);
                lemma_reaches_step(m0, l, e.bits(), a);
                assert(reaches(m0, l, e.bits(), a));
                assert(m0[a].spec_level() == next);
                assert(tree_at(m0, a));
                assert forall|i: int| 0 <= i < TABLE_LEN implies #[trigger] tree_ok(m0, next, m0[a].entries()[i].0) by {
                    assert forall|t: u64| #[trigger] reaches(m0, next, m0[a].entries()[i].0, t) implies tree_at(m0, t) by {
                        lemma_reaches_step(m0, l, e.bits(), t);
                        assert(reaches(m0, l, e.bits(), t));
                    }
                }
                assert forall|t: u64| #[trigger] reached_before(m0, a, next, TABLE_LEN as int, t) implies old(
                    mem,
                ).tables().contains_key(t) && old(mem).tables()[t] == m0[t] && table_frame(
                    *old(pmm),
                    t as int,
                ) by {
                    let j = choose|j: int| 0 <= j < TABLE_LEN && #[trigger] reaches(m0, next, m0[a].entries()[j].0, t);
                    lemma_reaches_step(m0, l, e.bits(), t);
                    assert(reaches(m0, l, e.bits(), t));
                }
            }
            drop_entries(mem, pmm, a, next, TABLE_LEN, Ghost(m0));
            proof {
                assert forall|t: u64| #[trigger] reaches(m0, e.spec_level(), e.bits(), t) <==> t == a
                    || reached_before(m0, a, next, TABLE_LEN as int, t) by {
                    lemma_reaches_step(m0, e.spec_level(), e.bits(), t);
                    if reached_before(m0, a, next, TABLE_LEN as int, t) {
                        let j = choose|j: int| 0 <= j < TABLE_LEN && #[trigger] reaches(m0, next, m0[a].entries()[j].0, t);
                    }
                }
            }
            free_table(mem, pmm, a);
        },
        _ => {},
    }
}

/// Frees the tables reached through entries `0..cnt` of the table at `a`,
/// of `level`, which stays; see [`drop_below`].
fn drop_entries(
    mem: &mut TableMemory,
    pmm: &mut PhysicalMemoryManager,
    a: u64,
    level: Level,
    cnt: usize,
    Ghost(m0): Ghost<Map<u64, TableRef>>,
)
    requires
        old(pmm).wf(),
        well_linked(m0),
        cnt <= TABLE_LEN,
        m0.contains_key(a),
        m0[a].spec_level() == level,
        old(mem).tables().contains_key(a),
        old(mem).tables()[a] == m0[a],
        forall|i: int| 0 <= i < cnt ==> !#[trigger] reaches(m0, level, m0[a].entries()[i].0, a),
        forall|i: int, j: int, t: u64|
            0 <= i < j < cnt ==> !(#[trigger] reaches(m0, level, m0[a].entries()[i].0, t)
                && #[trigger] reaches(m0, level, m0[a].entries()[j].0, t)),
        forall|i: int| 0 <= i < cnt ==> #[trigger] tree_ok(m0, level, m0[a].entries()[i].0),
        table_frame(*old(pmm), a as int),
        forall|t: u64|
            #[trigger] reached_before(m0, a, level, cnt as int, t) ==> old(mem).tables().contains_key(t)
                && old(mem).tables()[t] == m0[t] && table_frame(*old(pmm), t as int),
    ensures
        final(pmm).wf(),
        final(pmm).base_addr() == old(pmm).base_addr(),
        final(pmm).buddies().top() == old(pmm).buddies().top(),
        forall|t: u64|
            #[trigger] final(mem).tables().contains_key(t) <==> old(mem).tables().contains_key(t)
                && !reached_before(m0, a, level, cnt as int, t),
        forall|t: u64|
            final(mem).tables().contains_key(t) ==> #[trigger] final(mem).tables()[t] == old(mem).tables()[t],
        forall|t: u64| #![trigger table_frame(*final(pmm), t as int)]
            table_frame(*old(pmm), t as int) && !reached_before(m0, a, level, cnt as int, t) ==> table_frame(
                *final(pmm),
                t as int,
            ),
    decreases 4 - depth(level), 1nat,
{
    let ghost mem0 = mem.tables();
    let ghost pmm0 = *pmm;
    let mut i: usize = 0;
    while i < cnt
        invariant
            i <= cnt,
            cnt <= TABLE_LEN,
            pmm.wf(),
            pmm.base_addr() == pmm0.base_addr(),
            pmm.buddies().top() == pmm0.buddies().top(),
            pmm0 == *old(pmm),
            mem0 == old(mem).tables(),
            well_linked(m0),
            m0.contains_key(a),
            m0[a].spec_level() == level,
            mem0.contains_key(a),
            mem0[a] == m0[a],
            forall|k: int| 0 <= k < cnt ==> !#[trigger] reaches(m0, level, m0[a].entries()[k].0, a),
            forall|k: int, j: int, t: u64|
                0 <= k < j < cnt ==> !(#[trigger] reaches(m0, level, m0[a].entries()[k].0, t)
                    && #[trigger] reaches(m0, level, m0[a].entries()[j].0, t)),
            forall|k: int| 0 <= k < cnt ==> #[trigger] tree_ok(m0, level, m0[a].entries()[k].0),
            table_frame(pmm0, a as int),
            forall|t: u64|
                #[trigger] reached_before(m0, a, level, cnt as int, t) ==> mem0.contains_key(t)
                    && mem0[t] == m0[t] && table_frame(pmm0, t as int),
            forall|t: u64|
                #[trigger] mem.tables().contains_key(t) <==> mem0.contains_key(t)
                    && !reached_before(m0, a, level, i as int, t),
            forall|t: u64|
                mem.tables().contains_key(t) ==> #[trigger] mem.tables()[t] == mem0[t],
            forall|t: u64| #![trigger table_frame(*pmm, t as int)]
                table_frame(pmm0, t as int) && !reached_before(m0, a, level, i as int, t) ==> table_frame(
                    *pmm,
                    t as int,
                ),
        decreases cnt - i,
    {
        proof {
            assert(!reached_before(m0, a, level, i as int, a)) by {
                if reached_before(m0, a, level, i as int, a) {
                    let j = choose|j: int| 0 <= j < i && #[trigger] reaches(m0, level, m0[a].entries()[j].0, a);
                }
            }
            assert(mem.tables()[a] == m0[a]);
            assert(m0[a].entries().len() == TABLE_LEN);
        }
        let child = mem.entry(a, i);
        proof {
            let ei = m0[a].entries()[i as int].0;
            assert(child.bits() == ei);
            assert(entry_fits(m0, m0[a].spec_level(), ei));
            assert forall|t: u64| #[trigger] reaches(m0, level, ei, t) implies mem.tables().contains_key(t)
                && mem.tables()[t] == m0[t] && table_frame(*pmm, t as int) by {
                assert(reached_before(m0, a, level, cnt as int, t));
                if reached_before(m0, a, level, i as int, t) {
                    let j = choose|j: int| 0 <= j < i && #[trigger] reaches(m0, level, m0[a].entries()[j].0, t);
                    assert(!(reaches(m0, level, m0[a].entries()[j].0, t) && reaches(m0, level, m0[a].entries()[i as int].0, t)));
                }
            }
        }
        let ghost mem1 = mem.tables();
        let ghost pmm1 = *pmm;
        drop_below(mem, pmm, child, Ghost(m0));
        proof {
            let ei = m0[a].entries()[i as int].0;
            assert forall|t: u64| reached_before(m0, a, level, i as int + 1, t) <==> reached_before(m0, a, level, i as int, t)
                || reaches(m0, level, ei, t) by {
                if reached_before(m0, a, level, i as int + 1, t) {
                    let j = choose|j: int| 0 <= j < i + 1 && #[trigger] reaches(m0, level, m0[a].entries()[j].0, t);
                    if j < i {
                        assert(reached_before(m0, a, level, i as int, t));
                    }
                }
                if reached_before(m0, a, level, i as int, t) {
                    let j = choose|j: int| 0 <= j < i && #[trigger] reaches(m0, level, m0[a].entries()[j].0, t);
                    assert(reaches(m0, level, m0[a].entries()[j].0, t));
                }
                if reaches(m0, level, ei, t) {
                    assert(reaches(m0, level, m0[a].entries()[i as int].0, t));
                }
            }
        }
        i = i + 1;
    }
}

/// A table reached through an entry is held in `m`.
proof fn lemma_reaches_held(m: Map<u64, TableRef>, level: Level, e: u64, t: u64)
    requires
        reaches(m, level, e, t),
    ensures
        m.contains_key(t),
    decreases 4 - depth(level),
{
    lemma_reaches_step(m, level, e, t);
    let a = target_addr(level, e);
    if a != t {
        let next = level.below().unwrap();
        let i = choose|i: int| 0 <= i < TABLE_LEN && #[trigger] reaches(m, next, m[a].entries()[i].0, t);
        lemma_reaches_held(m, next, m[a].entries()[i].0, t);
    }
}

/// The table that the CR3 entry `cr3` points to.
pub open spec fn pml4_of(cr3: u64) -> u64 {
    target_addr(Level::CR3, cr3)
}

/// The tables a memory map owns: its PML4 table, and every table reached
/// through the lower half (entries 0 to 255) of it. The upper half maps the
/// kernel, shared by all maps.
pub open spec fn owned_table(m: Map<u64, TableRef>, cr3: u64, t: u64) -> bool {
    t == pml4_of(cr3) || reached_before(m, pml4_of(cr3), Level::PML4, 256, t)
}

/// The tables reached through the lower half of the PML4 table form a tree
/// of which it is the root.
pub open spec fn lower_half_tree(m: Map<u64, TableRef>, cr3: u64) -> bool {
    let a = pml4_of(cr3);
    &&& tree_upto(m, a, 256)
    &&& forall|i: int| 0 <= i < 256 ==> #[trigger] tree_ok(m, Level::PML4, m[a].entries()[i].0)
}

/// The tables a memory map owns form a tree, each on a frame that `pmm`
/// handed out alone: what [`X86_64MemoryMap::drop`] needs to free them.
pub open spec fn owns_tree(m: Map<u64, TableRef>, cr3: u64, pmm: PhysicalMemoryManager) -> bool {
    &&& lower_half_tree(m, cr3)
    &&& forall|t: u64| #[trigger] owned_table(m, cr3, t) ==> table_frame(pmm, t as int)
}

/// A map whose PML4 table has an empty lower half and lies on a frame
/// handed out alone, as [`X86_64MemoryMap::new`] makes it, owns that table
/// alone: what [`X86_64MemoryMap::drop`] needs holds of it.
pub proof fn lemma_fresh_map_owns_tree(m: Map<u64, TableRef>, cr3: u64, pmm: PhysicalMemoryManager)
    requires
        rooted(m, cr3),
        forall|i: int| 0 <= i < 256 ==> (#[trigger] m[pml4_of(cr3)].entries()[i]).0 == 0,
        table_frame(pmm, pml4_of(cr3) as int),
    ensures
        owns_tree(m, cr3, pmm),
        forall|t: u64| #[trigger] owned_table(m, cr3, t) <==> t == pml4_of(cr3),
{
    let a = pml4_of(cr3);
    assert(0u64 & 1 == 0) by (bit_vector);
    assert forall|i: int, t: u64| 0 <= i < 256 implies !#[trigger] reaches(m, Level::PML4, m[a].entries()[i].0, t) by {
        assert(m[a].entries()[i].0 == 0);
    }
    assert forall|t: u64| #[trigger] owned_table(m, cr3, t) <==> t == a by {
        if reached_before(m, a, Level::PML4, 256, t) {
            let j = choose|j: int| 0 <= j < 256 && #[trigger] reaches(m, Level::PML4, m[a].entries()[j].0, t);
        }
    }
}

impl X86_64MemoryMap {
    /// Frees the tables of the memory map, children first: every table
    /// reached through the lower half of its PML4 table, then the PML4
    /// table itself. The frame of each goes back to `pmm` and the table
    /// leaves `mem`; the kernel half is shared and stays.
    pub fn drop(self, mem: &mut TableMemory, pmm: &mut PhysicalMemoryManager)
        requires
            old(pmm).wf(),
            well_linked(old(mem).tables()),
            rooted(old(mem).tables(), self.cr3()),
            owns_tree(old(mem).tables(), self.cr3(), *old(pmm)),
        ensures
            final(pmm).wf(),
            final(pmm).base_addr() == old(pmm).base_addr(),
            final(pmm).buddies().top() == old(pmm).buddies().top(),
            forall|t: u64|
                #[trigger] final(mem).tables().contains_key(t) <==> old(mem).tables().contains_key(t)
                    && !owned_table(old(mem).tables(), self.cr3(), t),
            forall|t: u64|
                final(mem).tables().contains_key(t) ==> #[trigger] final(mem).tables()[t] == old(
                    mem,
                ).tables()[t],
            forall|t: u64| #![trigger table_frame(*final(pmm), t as int)]
                table_frame(*old(pmm), t as int) && !owned_table(old(mem).tables(), self.cr3(), t)
                    ==> table_frame(*final(pmm), t as int),
    {
        let ghost m0 = mem.tables();
        let root = EntryRef::from_raw(self.cr3, Level::CR3);
        let pml4 = match root.target() {
            EntryTarget::Table(_, a) => a.usize(),
            _ => {
                return ;
            },
        };
        proof {
            assert(pml4 == pml4_of(self.cr3()));
            assert(owned_table(m0, self.cr3(), pml4));
            assert forall|t: u64| #[trigger] reached_before(m0, pml4, Level::PML4, 256, t) implies mem.tables().contains_key(t)
                && mem.tables()[t] == m0[t] && table_frame(*pmm, t as int) by {
                assert(owned_table(m0, self.cr3(), t));
                let j = choose|j: int| 0 <= j < 256 && #[trigger] reaches(m0, Level::PML4, m0[pml4].entries()[j].0, t);
                lemma_reaches_held(m0, Level::PML4, m0[pml4].entries()[j].0, t);
            }
        }
        drop_entries(mem, pmm, pml4, Level::PML4, 256, Ghost(m0));
        free_table(mem, pmm, pml4);
    }
}

/// `m2` is `m` with entry `idx` of the table at `loc` made `nb`.
pub open spec fn rewritten(m: Map<u64, TableRef>, m2: Map<u64, TableRef>, loc: u64, idx: int, nb: u64) -> bool {
    &&& m.contains_key(loc)
    &&& 0 <= idx < TABLE_LEN
    &&& m2.dom() == m.dom()
    &&& m2[loc].spec_level() == m[loc].spec_level()
    &&& m2[loc].entries() == m[loc].entries().update(idx, RawEntry(nb))
    &&& forall|t: u64| t != loc ==> #[trigger] m2.index(t) == m.index(t)
}

/// An entry that points to no table reaches nothing.
proof fn lemma_reaches_none(m: Map<u64, TableRef>, level: Level, e: u64, t: u64)
    requires
        !points_to_table(level, e),
    ensures
        !reaches(m, level, e, t),
{
}

/// Rewriting an entry so that it points to no table only shrinks what
/// entries reach.
proof fn lemma_reach_shrink(
    m: Map<u64, TableRef>,
    m3: Map<u64, TableRef>,
    loc: u64,
    idx: int,
    nb: u64,
    level: Level,
    e: u64,
    t: u64,
)
    requires
        well_linked(m),
        rewritten(m, m3, loc, idx, nb),
        !points_to_table(m[loc].spec_level(), nb),
        entry_fits(m, level, e),
    ensures
        reaches(m3, level, e, t) ==> reaches(m, level, e, t),
    decreases 4 - depth(level),
{
    if !points_to_table(level, e) {
        lemma_reaches_none(m3, level, e, t);
        return;
    }
    let a = target_addr(level, e);
    let next = level.below().unwrap();
    assert(m.contains_key(a));
    assert(m3.contains_key(a));
    lemma_reaches_step(m, level, e, t);
    lemma_reaches_step(m3, level, e, t);
    if reaches(m3, level, e, t) && a != t {
        let i = choose|i: int| 0 <= i < TABLE_LEN && #[trigger] reaches(m3, next, m3[a].entries()[i].0, t);
        if a == loc && i == idx {
            assert(m3[a].entries()[i].0 == nb);
            lemma_reaches_none(m3, next, nb, t);
        } else {
            assert(m3[a].entries()[i] == m[a].entries()[i]);
            assert(entry_fits(m, m[a].spec_level(), m[a].entries()[i].0));
            lemma_reach_shrink(m, m3, loc, idx, nb, next, m[a].entries()[i].0, t);
            assert(reaches(m, next, m[a].entries()[i].0, t));
        }
    }
}

/// Rewriting an entry that pointed to no table so that it points to a new
/// empty table `f` adds `f` to what reaches the rewritten table, and
/// nothing else.
proof fn lemma_reach_grow(
    m: Map<u64, TableRef>,
    m3: Map<u64, TableRef>,
    f: u64,
    z: TableRef,
    loc: u64,
    idx: int,
    nb: u64,
    level: Level,
    e: u64,
    t: u64,
)
    requires
        well_linked(m),
        !m.contains_key(f),
        z.entries().len() == TABLE_LEN,
        z.spec_level() != Level::CR3,
        forall|i: int| 0 <= i < TABLE_LEN ==> (#[trigger] z.entries()[i]).0 == 0,
        rewritten(m.insert(f, z), m3, loc, idx, nb),
        m.contains_key(loc),
        points_to_table(m[loc].spec_level(), nb),
        target_addr(m[loc].spec_level(), nb) == f,
        !points_to_table(m[loc].spec_level(), m[loc].entries()[idx].0),
        entry_fits(m, level, e),
    ensures
        reaches(m3, level, e, t) <==> reaches(m, level, e, t) || (t == f && reaches(m, level, e, loc)),
    decreases 4 - depth(level),
{
    if !points_to_table(level, e) {
        lemma_reaches_none(m3, level, e, t);
        lemma_reaches_none(m, level, e, t);
        lemma_reaches_none(m, level, e, loc);
        return;
    }
    let a = target_addr(level, e);
    let next = level.below().unwrap();
    assert(m.contains_key(a));
    assert(a != f);
    assert(m3.contains_key(a));
    lemma_reaches_step(m, level, e, t);
    lemma_reaches_step(m3, level, e, t);
    lemma_reaches_step(m, level, e, loc);
    assert(0u64 & 1 == 0) by (bit_vector);
    // What the rewritten entry reaches in `m3`: the new table alone.
    if a == loc {
        assert(m3[f] == z);
        lemma_reaches_step(m3, next, nb, t);
        assert forall|j: int| 0 <= j < TABLE_LEN implies !#[trigger] reaches(m3, next.below().unwrap(), m3[f].entries()[j].0, t) by {
            assert(z.entries()[j].0 == 0);
            lemma_reaches_none(m3, next.below().unwrap(), 0, t);
        }
        assert(reaches(m3, next, nb, t) <==> t == f);
        lemma_reaches_none(m, next, m[loc].entries()[idx].0, t);
        lemma_reaches_none(m, next, m[loc].entries()[idx].0, loc);
    }
    // Every other entry of the table `a` reaches in `m3` what it reached in
    // `m`, and the new table where it reached `loc`.
    assert forall|i: int| 0 <= i < TABLE_LEN && !(a == loc && i == idx) implies (#[trigger] reaches(
        m3,
        next,
        m3[a].entries()[i].0,
        t,
    ) <==> reaches(m, next, m[a].entries()[i].0, t) || (t == f && reaches(
        m,
        next,
        m[a].entries()[i].0,
        loc,
    ))) by {
        assert(m3[a].entries()[i] == m[a].entries()[i]);
        assert(entry_fits(m, m[a].spec_level(), m[a].entries()[i].0));
        lemma_reach_grow(m, m3, f, z, loc, idx, nb, next, m[a].entries()[i].0, t);
    }
    if reaches(m3, level, e, t) && a != t {
        let i = choose|i: int| 0 <= i < TABLE_LEN && #[trigger] reaches(m3, next, m3[a].entries()[i].0, t);
        if a == loc && i == idx {
            assert(m3[a].entries()[i].0 == nb);
        } else {
            assert(reaches(m3, next, m3[a].entries()[i].0, t));
        }
    }
    if reaches(m, level, e, t) && a != t {
        let i = choose|i: int| 0 <= i < TABLE_LEN && #[trigger] reaches(m, next, m[a].entries()[i].0, t);
        if a == loc && i == idx {
            lemma_reaches_none(m, next, m[loc].entries()[idx].0, t);
        } else {
            assert(reaches(m3, next, m3[a].entries()[i].0, t));
        }
    }
    if t == f && reaches(m, level, e, loc) {
        if a == loc {
            assert(m3[a].entries()[idx].0 == nb);
            assert(reaches(m3, next, m3[a].entries()[idx].0, t));
        } else {
            let i = choose|i: int| 0 <= i < TABLE_LEN && #[trigger] reaches(m, next, m[a].entries()[i].0, loc);
            if i == idx && a == loc {
            } else {
                assert(reaches(m3, next, m3[a].entries()[i].0, t));
            }
        }
    }
}

/// `m3` is `m` with a new empty table `z` placed at the unused address `f`
/// and entry `idx` of the table at `loc`, which pointed to no table, made
/// the entry `nb` that points to it.
pub open spec fn grown(
    m: Map<u64, TableRef>,
    m3: Map<u64, TableRef>,
    f: u64,
    z: TableRef,
    loc: u64,
    idx: int,
    nb: u64,
) -> bool {
    &&& !m.contains_key(f)
    &&& z.entries().len() == TABLE_LEN
    &&& z.spec_level() != Level::CR3
    &&& forall|i: int| 0 <= i < TABLE_LEN ==> (#[trigger] z.entries()[i]).0 == 0
    &&& rewritten(m.insert(f, z), m3, loc, idx, nb)
    &&& m.contains_key(loc)
    &&& points_to_table(m[loc].spec_level(), nb)
    &&& target_addr(m[loc].spec_level(), nb) == f
    &&& !points_to_table(m[loc].spec_level(), m[loc].entries()[idx].0)
}

/// After growing, the rewritten entry reaches the new table alone, and the
/// new table is the root of a tree.
proof fn lemma_new_entry_reach(
    m: Map<u64, TableRef>,
    m3: Map<u64, TableRef>,
    f: u64,
    z: TableRef,
    loc: u64,
    idx: int,
    nb: u64,
    u: u64,
)
    requires
        grown(m, m3, f, z, loc, idx, nb),
    ensures
        reaches(m3, m[loc].spec_level(), nb, u) <==> u == f,
        m3.contains_key(f),
        m3[f] == z,
        tree_at(m3, f),
{
    let lvl = m[loc].spec_level();
    let next = lvl.below().unwrap();
    assert(m3.index(f) == m.insert(f, z).index(f));
    assert(0u64 & 1 == 0) by (bit_vector);
    lemma_reaches_step(m3, lvl, nb, u);
    assert forall|j: int, w: u64| 0 <= j < TABLE_LEN implies !#[trigger] reaches(m3, z.spec_level(), m3[f].entries()[j].0, w) by {
        assert(z.entries()[j].0 == 0);
        lemma_reaches_none(m3, z.spec_level(), 0, w);
    }
}

/// Growing keeps the first `n` entries of a table of `m` a tree.
proof fn lemma_tree_upto_grow(
    m: Map<u64, TableRef>,
    m3: Map<u64, TableRef>,
    f: u64,
    z: TableRef,
    loc: u64,
    idx: int,
    nb: u64,
    t: u64,
    n: int,
)
    requires
        well_linked(m),
        grown(m, m3, f, z, loc, idx, nb),
        m.contains_key(t),
        0 <= n <= TABLE_LEN,
        tree_upto(m, t, n),
    ensures
        tree_upto(m3, t, n),
{
    let level = m[t].spec_level();
    assert(t != f);
    assert(m3[t].spec_level() == level) by {
        if t != loc {
            assert(m3.index(t) == m.insert(f, z).index(t));
        }
    }
    assert forall|k: int, u: u64|
        0 <= k < n && !(t == loc && k == idx) implies (#[trigger] reaches(
        m3,
        level,
        m3[t].entries()[k].0,
        u,
    ) <==> reaches(m, level, m[t].entries()[k].0, u) || (u == f && reaches(
        m,
        level,
        m[t].entries()[k].0,
        loc,
    ))) by {
        if t != loc {
            assert(m3.index(t) == m.insert(f, z).index(t));
        }
        assert(m3[t].entries()[k] == m[t].entries()[k]);
        assert(entry_fits(m, m[t].spec_level(), m[t].entries()[k].0));
        lemma_reach_grow(m, m3, f, z, loc, idx, nb, level, m[t].entries()[k].0, u);
    }
    assert forall|k: int| 0 <= k < n implies !#[trigger] reaches(m3, level, m3[t].entries()[k].0, t) by {
        if t == loc && k == idx {
            lemma_new_entry_reach(m, m3, f, z, loc, idx, nb, t);
        } else {
            assert(reaches(m3, level, m3[t].entries()[k].0, t) ==> reaches(m, level, m[t].entries()[k].0, t));
        }
    }
    assert forall|k: int, l: int, u: u64|
        0 <= k < l < n implies !(#[trigger] reaches(m3, level, m3[t].entries()[k].0, u)
        && #[trigger] reaches(m3, level, m3[t].entries()[l].0, u)) by {
        if reaches(m3, level, m3[t].entries()[k].0, u) && reaches(m3, level, m3[t].entries()[l].0, u) {
            if t == loc && k == idx {
                lemma_new_entry_reach(m, m3, f, z, loc, idx, nb, u);
                if reaches(m, level, m[t].entries()[l].0, f) {
                    lemma_reaches_held(m, level, m[t].entries()[l].0, f);
                }
                assert(reaches(m, level, m[t].entries()[l].0, t));
            } else if t == loc && l == idx {
                lemma_new_entry_reach(m, m3, f, z, loc, idx, nb, u);
                if reaches(m, level, m[t].entries()[k].0, f) {
                    lemma_reaches_held(m, level, m[t].entries()[k].0, f);
                }
                assert(reaches(m, level, m[t].entries()[k].0, t));
            } else if u == f {
                if reaches(m, level, m[t].entries()[k].0, f) {
                    lemma_reaches_held(m, level, m[t].entries()[k].0, f);
                }
                if reaches(m, level, m[t].entries()[l].0, f) {
                    lemma_reaches_held(m, level, m[t].entries()[l].0, f);
                }
                assert(reaches(m, level, m[t].entries()[k].0, loc));
                assert(reaches(m, level, m[t].entries()[l].0, loc));
            } else {
                assert(reaches(m, level, m[t].entries()[k].0, u));
                assert(reaches(m, level, m[t].entries()[l].0, u));
            }
        }
    }
}

/// Growing keeps the tables a memory map owns a tree of frames handed out
/// alone, given that the new table's frame is one.
proof fn lemma_owns_grow(
    m: Map<u64, TableRef>,
    m3: Map<u64, TableRef>,
    f: u64,
    z: TableRef,
    loc: u64,
    idx: int,
    nb: u64,
    cr3: u64,
    pmm: PhysicalMemoryManager,
    pmm2: PhysicalMemoryManager,
)
    requires
        well_linked(m),
        rooted(m, cr3),
        grown(m, m3, f, z, loc, idx, nb),
        owns_tree(m, cr3, pmm),
        forall|t: u64| #![trigger table_frame(pmm2, t as int)] table_frame(pmm, t as int) ==> table_frame(pmm2, t as int),
        table_frame(pmm2, f as int),
    ensures
        owns_tree(m3, cr3, pmm2),
{
    let a = pml4_of(cr3);
    assert(a != f);
    assert(m3[a].spec_level() == Level::PML4) by {
        if a != loc {
            assert(m3.index(a) == m.insert(f, z).index(a));
        }
    }
    lemma_tree_upto_grow(m, m3, f, z, loc, idx, nb, a, 256);
    assert forall|i: int, u: u64|
        0 <= i < 256 && !(a == loc && i == idx) implies (#[trigger] reaches(
        m3,
        Level::PML4,
        m3[a].entries()[i].0,
        u,
    ) <==> reaches(m, Level::PML4, m[a].entries()[i].0, u) || (u == f && reaches(
        m,
        Level::PML4,
        m[a].entries()[i].0,
        loc,
    ))) by {
        if a != loc {
            assert(m3.index(a) == m.insert(f, z).index(a));
        }
        assert(m3[a].entries()[i] == m[a].entries()[i]);
        assert(entry_fits(m, m[a].spec_level(), m[a].entries()[i].0));
        lemma_reach_grow(m, m3, f, z, loc, idx, nb, Level::PML4, m[a].entries()[i].0, u);
    }
    assert forall|i: int| 0 <= i < 256 implies #[trigger] tree_ok(m3, Level::PML4, m3[a].entries()[i].0) by {
        assert forall|t: u64| #[trigger] reaches(m3, Level::PML4, m3[a].entries()[i].0, t) implies tree_at(m3, t) by {
            lemma_new_entry_reach(m, m3, f, z, loc, idx, nb, t);
            if t != f && !(a == loc && i == idx) {
                assert(reaches(m, Level::PML4, m[a].entries()[i].0, t));
                assert(tree_ok(m, Level::PML4, m[a].entries()[i].0));
                lemma_reaches_held(m, Level::PML4, m[a].entries()[i].0, t);
                lemma_tree_upto_grow(m, m3, f, z, loc, idx, nb, t, TABLE_LEN as int);
            }
        }
    }
    assert forall|t: u64| #[trigger] owned_table(m3, cr3, t) implies table_frame(pmm2, t as int) by {
        if t != a && t != f {
            let i = choose|i: int| 0 <= i < 256 && #[trigger] reaches(m3, Level::PML4, m3[a].entries()[i].0, t);
            if a == loc && i == idx {
                lemma_new_entry_reach(m, m3, f, z, loc, idx, nb, t);
            } else {
                assert(reaches(m, Level::PML4, m[a].entries()[i].0, t));
                assert(owned_table(m, cr3, t));
            }
        }
        if t == a {
            assert(owned_table(m, cr3, a));
        }
    }
}

/// Rewriting an entry so that it points to no table keeps the first `n`
/// entries of a table of `m` a tree.
proof fn lemma_tree_upto_shrink(
    m: Map<u64, TableRef>,
    m3: Map<u64, TableRef>,
    loc: u64,
    idx: int,
    nb: u64,
    t: u64,
    n: int,
)
    requires
        well_linked(m),
        rewritten(m, m3, loc, idx, nb),
        !points_to_table(m[loc].spec_level(), nb),
        m.contains_key(t),
        0 <= n <= TABLE_LEN,
        tree_upto(m, t, n),
    ensures
        tree_upto(m3, t, n),
{
    let level = m[t].spec_level();
    assert(m3[t].spec_level() == level);
    assert forall|k: int, u: u64|
        0 <= k < n implies (#[trigger] reaches(m3, level, m3[t].entries()[k].0, u) ==> reaches(
        m,
        level,
        m[t].entries()[k].0,
        u,
    )) by {
        if t == loc && k == idx {
            lemma_reaches_none(m3, level, nb, u);
        } else {
            assert(m3[t].entries()[k] == m[t].entries()[k]);
            assert(entry_fits(m, m[t].spec_level(), m[t].entries()[k].0));
            lemma_reach_shrink(m, m3, loc, idx, nb, level, m[t].entries()[k].0, u);
        }
    }
}

/// Rewriting an entry so that it points to no table keeps the tables a
/// memory map owns a tree of frames handed out alone.
proof fn lemma_owns_shrink(
    m: Map<u64, TableRef>,
    m3: Map<u64, TableRef>,
    loc: u64,
    idx: int,
    nb: u64,
    cr3: u64,
    pmm: PhysicalMemoryManager,
)
    requires
        well_linked(m),
        rooted(m, cr3),
        rewritten(m, m3, loc, idx, nb),
        !points_to_table(m[loc].spec_level(), nb),
        owns_tree(m, cr3, pmm),
    ensures
        owns_tree(m3, cr3, pmm),
{
    let a = pml4_of(cr3);
    lemma_tree_upto_shrink(m, m3, loc, idx, nb, a, 256);
    assert forall|i: int, u: u64|
        0 <= i < 256 implies (#[trigger] reaches(m3, Level::PML4, m3[a].entries()[i].0, u) ==> reaches(
        m,
        Level::PML4,
        m[a].entries()[i].0,
        u,
    )) by {
        if a == loc && i == idx {
            lemma_reaches_none(m3, Level::PML4, nb, u);
        } else {
            assert(m3[a].entries()[i] == m[a].entries()[i]);
            assert(entry_fits(m, m[a].spec_level(), m[a].entries()[i].0));
            lemma_reach_shrink(m, m3, loc, idx, nb, Level::PML4, m[a].entries()[i].0, u);
        }
    }
    assert forall|i: int| 0 <= i < 256 implies #[trigger] tree_ok(m3, Level::PML4, m3[a].entries()[i].0) by {
        assert forall|t: u64| #[trigger] reaches(m3, Level::PML4, m3[a].entries()[i].0, t) implies tree_at(m3, t) by {
            assert(reaches(m, Level::PML4, m[a].entries()[i].0, t));
            assert(tree_ok(m, Level::PML4, m[a].entries()[i].0));
            lemma_reaches_held(m, Level::PML4, m[a].entries()[i].0, t);
            lemma_tree_upto_shrink(m, m3, loc, idx, nb, t, TABLE_LEN as int);
        }
    }
    assert forall|t: u64| #[trigger] owned_table(m3, cr3, t) implies table_frame(pmm, t as int) by {
        if t != a {
            let i = choose|i: int| 0 <= i < 256 && #[trigger] reaches(m3, Level::PML4, m3[a].entries()[i].0, t);
            assert(reaches(m, Level::PML4, m[a].entries()[i].0, t));
            assert(owned_table(m, cr3, t));
        } else {
            assert(owned_table(m, cr3, a));
        }
    }
}

/// An allocation that keeps every frame handed out alone so keeps the
/// tables a memory map owns on such frames.
proof fn lemma_owns_alloc(m: Map<u64, TableRef>, cr3: u64, before: PhysicalMemoryManager, after: PhysicalMemoryManager)
    requires
        after.base_addr() == before.base_addr(),
        forall|i: int| before.frame_alone(i) ==> #[trigger] after.frame_alone(i),
    ensures
        forall|t: u64| #![trigger table_frame(after, t as int)] table_frame(before, t as int) ==> table_frame(after, t as int),
        owns_tree(m, cr3, before) ==> owns_tree(m, cr3, after),
{
    assert forall|t: u64| #![trigger table_frame(after, t as int)] table_frame(before, t as int) implies table_frame(after, t as int) by {
        assert(before.frame_alone(before.frame_index(t as int)));
    }
}

} // verus!

verus! {

/// The table indices of the upper-half address `0xFFFF_0000_0000_0000 + w`
/// are the digits of `w` in base `2^9` above its page offset.
proof fn lemma_upper_indices(w: int)
    requires
        0 <= w < 0x1_0000_0000_0000,
    ensures
        table_index(Level::PML4, (0xFFFF_0000_0000_0000 + w) as u64) == w / 0x80_0000_0000,
        table_index(Level::PDPT, (0xFFFF_0000_0000_0000 + w) as u64) == (w % 0x80_0000_0000) / 0x4000_0000,
        table_index(Level::PD, (0xFFFF_0000_0000_0000 + w) as u64) == (w % 0x4000_0000) / 0x20_0000,
        (0xFFFF_0000_0000_0000 + w) as u64 as int % 0x4000_0000 == w % 0x4000_0000,
        (0xFFFF_0000_0000_0000 + w) as u64 as int % 0x20_0000 == w % 0x20_0000,
{
    vstd::arithmetic::power2::lemma2_to64();
    vstd::arithmetic::power2::lemma2_to64_rest();
    let v = (0xFFFF_0000_0000_0000 + w) as u64;
    assert(v == 0xFFFF_0000_0000_0000 + w);
    assert(pow2(48) == 0x1_0000_0000_0000 && pow2(39) == 0x80_0000_0000);
    assert(pow2(30) == 0x4000_0000 && pow2(21) == 0x20_0000);
    vstd::arithmetic::div_mod::lemma_fundamental_div_mod_converse(v as int, 0x1_0000_0000_0000, 0xFFFF, w);
    vstd::arithmetic::div_mod::lemma_fundamental_div_mod(w, 0x80_0000_0000);
    vstd::arithmetic::div_mod::lemma_fundamental_div_mod(w, 0x4000_0000);
    vstd::arithmetic::div_mod::lemma_fundamental_div_mod(w, 0x20_0000);
    vstd::arithmetic::div_mod::lemma_fundamental_div_mod_converse(
        v as int,
        0x80_0000_0000,
        0xFFFF * 0x200 + w / 0x80_0000_0000,
        w % 0x80_0000_0000,
    );
    vstd::arithmetic::div_mod::lemma_fundamental_div_mod_converse(
        v as int,
        0x4000_0000,
        0xFFFF * 0x4_0000 + w / 0x4000_0000,
        w % 0x4000_0000,
    );
    vstd::arithmetic::div_mod::lemma_fundamental_div_mod_converse(
        v as int,
        0x20_0000,
        0xFFFF * 0x800_0000 + w / 0x20_0000,
        w % 0x20_0000,
    );
}

/// The flags of the kernel's pages make present page entries at the PDPT
/// and PD levels.
proof fn lemma_kernel_page_flags(level: Level)
    requires
        level == Level::PDPT || level == Level::PD,
    ensures
        present(level, flag_bits(KERNEL_PAGE_FLAGS)),
        maps_page(level, flag_bits(KERNEL_PAGE_FLAGS)),
        required_align(level, flag_bits(KERNEL_PAGE_FLAGS)) == level_span(level),
{
    assert((0b1_1000_0011u16 & 0x1FF) as u64 == 0x183) by (bit_vector);
    assert(0x183u64 & 1 != 0) by (bit_vector);
    assert(0x183u64 & 0x80 != 0) by (bit_vector);
}

/// The law of the initial kernel tables: through tables that hold what
/// [`crate::mem::paging::X86_64MemoryManager::init`] builds, at the
/// physical addresses given to it, every address of the kernel image below
/// `kernel_end` translates to its place in physical memory, its offset from
/// the start of the image.
pub proof fn lemma_init_maps_kernel_image(
    m: Map<u64, TableRef>,
    pml4_p: u64,
    pdpts_p: u64,
    pd_p: u64,
    managed_size: u64,
    kernel_end: u64,
    v: u64,
)
    requires
        pml4_p % 0x1000 == 0,
        pdpts_p % 0x1000 == 0,
        pd_p % 0x1000 == 0,
        pml4_p < UMASpace::range_end(),
        pdpts_p + 256 * 0x1000 <= UMASpace::range_end(),
        pd_p < UMASpace::range_end(),
        m.contains_key(pml4_p),
        forall|idx: int|
            0 <= idx < 512 ==> (#[trigger] m[pml4_p].entries()[idx]).0 == if idx < 256 {
                0
            } else {
                reinit_raw(Level::PML4, (pdpts_p + (idx - 256) * 0x1000) as u64, DEFAULT_PAGE_TABLE_FLAGS)
            },
        forall|a: int| 0 <= a < 256 ==> #[trigger] m.contains_key((pdpts_p + a * 0x1000) as u64),
        forall|a: int, j: int|
            0 <= a < 256 && 0 <= j < 512 ==> (#[trigger] m[(pdpts_p + a * 0x1000) as u64].entries()[j]).0
                == pdpt_entry(a + 256, j, managed_size, pd_p),
        m.contains_key(pd_p),
        forall|k: int| 0 <= k < 512 ==> (#[trigger] m[pd_p].entries()[k]).0 == kernel_pd_entry(k, kernel_end),
        kernel_end <= KERNEL_START + HUGE_PAGE,
        KERNEL_START <= v < kernel_end,
    ensures
        mapped_addr(m, reinit_raw(Level::CR3, pml4_p, 0), v) == Some((v - KERNEL_START) as u64),
{
    let cr3 = reinit_raw(Level::CR3, pml4_p, 0);
    let a = v - KERNEL_START;
    let w = v - 0xFFFF_0000_0000_0000;
    let k = a / 0x20_0000;
    lemma_upper_indices(w);
    vstd::arithmetic::div_mod::lemma_fundamental_div_mod_converse(w, 0x80_0000_0000, 511, 0x7F_8000_0000 + a);
    vstd::arithmetic::div_mod::lemma_fundamental_div_mod_converse(
        0x7F_8000_0000 + a,
        0x4000_0000,
        510,
        a,
    );
    vstd::arithmetic::div_mod::lemma_fundamental_div_mod(a, 0x20_0000);
    assert(table_index(Level::PML4, v) == 511);
    assert(table_index(Level::PDPT, v) == 510);
    assert(table_index(Level::PD, v) == k);
    assert(0 <= k < 512);
    // The CR3 entry points to the PML4 table.
    assert(present(Level::CR3, flag_bits(0)));
    assert(required_align(Level::CR3, flag_bits(0)) == 0x1000);
    lemma_reinit_target(Level::CR3, pml4_p, 0);
    // Its last entry points to the kernel's PDPT.
    let pdpt = (pdpts_p + 255 * 0x1000) as u64;
    let e4 = m[pml4_p].entries()[511].0;
    assert(e4 == reinit_raw(Level::PML4, pdpt, DEFAULT_PAGE_TABLE_FLAGS));
    lemma_table_entry(Level::PML4, pdpt);
    assert(m.contains_key(pdpt));
    // Its kernel slot points to the kernel page directory.
    let e3 = m[pdpt].entries()[510].0;
    assert(e3 == pdpt_entry(511, 510, managed_size, pd_p));
    lemma_table_entry(Level::PDPT, pd_p);
    // Which maps the large page of `v`.
    let e2 = m[pd_p].entries()[k].0;
    assert(KERNEL_START + k * LARGE_PAGE <= v) by (nonlinear_arith)
        requires
            a == 0x20_0000 * k + a % 0x20_0000,
            a % 0x20_0000 >= 0,
            a == v - KERNEL_START,
            LARGE_PAGE == 0x20_0000,
    ;
    let p = (k * LARGE_PAGE) as u64;
    assert(e2 == reinit_raw(Level::PD, p, KERNEL_PAGE_FLAGS));
    lemma_kernel_page_flags(Level::PD);
    assert(p as int % 0x20_0000 == 0) by {
        vstd::arithmetic::div_mod::lemma_mod_multiples_basic(k, 0x20_0000);
    }
    lemma_reinit_target(Level::PD, p, KERNEL_PAGE_FLAGS);
    assert(resolve(m, Level::PD, e2, v) == Some(page_addr_of(Level::PD, e2, v)));
    assert(resolve(m, Level::PDPT, e3, v) == resolve(m, Level::PD, e2, v));
    assert(resolve(m, Level::PML4, e4, v) == resolve(m, Level::PDPT, e3, v));
    assert(resolve(m, Level::CR3, cr3, v) == resolve(m, Level::PML4, e4, v));
}

/// The law of the initial remap tables: through tables that hold what
/// [`crate::mem::paging::X86_64MemoryManager::init`] builds, every
/// physical address below `managed_size`, read through the physical remap,
/// translates back to itself.
pub proof fn lemma_init_maps_remap(
    m: Map<u64, TableRef>,
    pml4_p: u64,
    pdpts_p: u64,
    pd_p: u64,
    managed_size: u64,
    kernel_end: u64,
    p: u64,
)
    requires
        pml4_p % 0x1000 == 0,
        pdpts_p % 0x1000 == 0,
        pml4_p < UMASpace::range_end(),
        pdpts_p + 256 * 0x1000 <= UMASpace::range_end(),
        m.contains_key(pml4_p),
        forall|idx: int|
            0 <= idx < 512 ==> (#[trigger] m[pml4_p].entries()[idx]).0 == if idx < 256 {
                0
            } else {
                reinit_raw(Level::PML4, (pdpts_p + (idx - 256) * 0x1000) as u64, DEFAULT_PAGE_TABLE_FLAGS)
            },
        forall|a: int| 0 <= a < 256 ==> #[trigger] m.contains_key((pdpts_p + a * 0x1000) as u64),
        forall|a: int, j: int|
            0 <= a < 256 && 0 <= j < 512 ==> (#[trigger] m[(pdpts_p + a * 0x1000) as u64].entries()[j]).0
                == pdpt_entry(a + 256, j, managed_size, pd_p),
        managed_size <= UMASpace::range_end(),
        p < managed_size,
    ensures
        mapped_addr(m, reinit_raw(Level::CR3, pml4_p, 0), (REMAP_START + p) as u64) == Some(p),
{
    let cr3 = reinit_raw(Level::CR3, pml4_p, 0);
    let v = (REMAP_START + p) as u64;
    let w = 0x8880_0000_0000 + p;
    assert(v == 0xFFFF_0000_0000_0000 + w);
    lemma_upper_indices(w);
    let t: int = p as int / 0x80_0000_0000;
    let j: int = (p as int % 0x80_0000_0000) / 0x4000_0000;
    vstd::arithmetic::div_mod::lemma_fundamental_div_mod(p as int, 0x80_0000_0000);
    vstd::arithmetic::div_mod::lemma_fundamental_div_mod_converse(
        w,
        0x80_0000_0000,
        273 + t,
        p as int % 0x80_0000_0000,
    );
    assert(table_index(Level::PML4, v) == 273 + t);
    assert(table_index(Level::PDPT, v) == j);
    assert(0 <= t < 128) by (nonlinear_arith)
        requires
            p == 0x80_0000_0000 * t + p % 0x80_0000_0000,
            0 <= p % 0x80_0000_0000,
            p < 0x4000_0000_0000,
    ;
    vstd::arithmetic::div_mod::lemma_fundamental_div_mod((p % 0x80_0000_0000) as int, 0x4000_0000);
    assert(0 <= j < 512);
    // The remap of `p` lies in a table that the PML4 points to.
    let s = (managed_size - 1) as u64;
    let ws = 0x8880_0000_0000 + s;
    lemma_upper_indices(ws);
    vstd::arithmetic::div_mod::lemma_fundamental_div_mod(s as int, 0x80_0000_0000);
    vstd::arithmetic::div_mod::lemma_fundamental_div_mod_converse(
        ws,
        0x80_0000_0000,
        273 + s as int / 0x80_0000_0000,
        s as int % 0x80_0000_0000,
    );
    assert(remap_last(managed_size) == 273 + s / 0x80_0000_0000);
    vstd::arithmetic::div_mod::lemma_div_is_ordered(p as int, s as int, 0x80_0000_0000);
    // The CR3 entry points to the PML4 table.
    assert(present(Level::CR3, flag_bits(0)));
    assert(required_align(Level::CR3, flag_bits(0)) == 0x1000);
    lemma_reinit_target(Level::CR3, pml4_p, 0);
    let idx = 273 + t;
    let pdpt = (pdpts_p + (idx - 256) * 0x1000) as u64;
    let e4 = m[pml4_p].entries()[idx].0;
    assert(e4 == reinit_raw(Level::PML4, pdpt, DEFAULT_PAGE_TABLE_FLAGS));
    assert(pdpt % 0x1000 == 0) by {
        vstd::arithmetic::div_mod::lemma_mod_multiples_vanish(idx - 256, pdpts_p as int, 0x1000);
    }
    lemma_table_entry(Level::PML4, pdpt);
    assert(m.contains_key(pdpt));
    // Its entry maps the huge page of `p`.
    let e3 = m[pdpt].entries()[j].0;
    let q = ((idx - REMAP_PML4_IDX) * PDPT_SPAN + j * HUGE_PAGE) as u64;
    assert(e3 == pdpt_entry(idx, j, managed_size, pd_p));
    assert(e3 == reinit_raw(Level::PDPT, q, KERNEL_PAGE_FLAGS));
    vstd::arithmetic::div_mod::lemma_fundamental_div_mod((p % 0x80_0000_0000) as int, 0x4000_0000);
    assert(q == p - p % 0x4000_0000) by (nonlinear_arith)
        requires
            q == t * 0x80_0000_0000 + j * 0x4000_0000,
            p == 0x80_0000_0000 * t + p % 0x80_0000_0000,
            p % 0x80_0000_0000 == 0x4000_0000 * j + (p % 0x80_0000_0000) % 0x4000_0000,
            (p % 0x80_0000_0000) % 0x4000_0000 == p % 0x4000_0000,
    ;
    lemma_kernel_page_flags(Level::PDPT);
    assert(q as int % 0x4000_0000 == 0) by {
        vstd::arithmetic::div_mod::lemma_mod_multiples_basic(t * 0x200 + j, 0x4000_0000);
    }
    lemma_reinit_target(Level::PDPT, q, KERNEL_PAGE_FLAGS);
    assert(resolve(m, Level::PDPT, e3, v) == Some(page_addr_of(Level::PDPT, e3, v)));
    assert(resolve(m, Level::PML4, e4, v) == resolve(m, Level::PDPT, e3, v));
    assert(resolve(m, Level::CR3, cr3, v) == resolve(m, Level::PML4, e4, v));
}

} // verus!
