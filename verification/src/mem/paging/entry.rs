//! Paging-table entries: their flags, and the page or table they point to.
use crate::mem::addr::{Addr, AddrSpace};
use crate::mem::paging::Level;
use crate::mem::phy::UMASpace;
use vstd::prelude::*;

verus! {

/// A raw paging-table entry, without its level.
#[derive(Debug, Clone, Copy)]
pub struct RawEntry(pub u64);

impl RawEntry {
    /// The zero entry.
    pub fn default() -> (r: Self)
        ensures
            r.0 == 0,
    {
        RawEntry(0)
    }
}

/// Flags of a page entry, as bits; bits other than the known flags may be
/// set.
#[derive(Debug, Clone, Copy, PartialEq, Eq, Structural)]
pub struct Flags {
    bits: u16,
}

impl View for Flags {
    type V = u16;

    closed spec fn view(&self) -> u16 {
        self.bits
    }
}

impl Flags {
    /// The entry is present.
    pub const PRESENT: u16 = 0b1;

    /// The memory may be written.
    pub const WRITEABLE: u16 = 0b10;

    /// User mode may access the memory.
    pub const IS_KERNEL: u16 = 0b100;

    /// Write-through caching.
    pub const WRITE_THRU: u16 = 0b1000;

    /// Caching disabled.
    pub const NO_CACHE: u16 = 0b1_0000;

    /// The entry was accessed.
    pub const ACCESSED: u16 = 0b10_0000;

    /// The page was written.
    pub const DIRTY: u16 = 0b100_0000;

    /// The entry maps a large or huge page.
    pub const BIG_PAGE: u16 = 0b1000_0000;

    /// The mapping is global.
    pub const GLOBAL: u16 = 0b1_0000_0000;

    /// All known flags.
    pub const ALL: u16 = 0b1_1111_1111;

    /// The flags of the bits `bits`, unknown bits kept.
    pub fn from_bits_retain(bits: u16) -> (r: Self)
        ensures
            r@ == bits,
    {
        Flags { bits }
    }

    /// The bits of the flags.
    pub fn bits(&self) -> (r: u16)
        ensures
            r == self@,
    {
        self.bits
    }

    /// Whether every flag of `other` is set.
    pub fn contains(&self, other: u16) -> (r: bool)
        ensures
            r == (self@ & other == other),
    {
        self.bits & other == other
    }

    /// Clears the unknown bits.
    pub fn truncate(&mut self)
        ensures
            final(self)@ == old(self)@ & Flags::ALL,
    {
        self.bits = self.bits & Flags::ALL;
    }
}

/// What a paging-table entry points to.
#[derive(Debug, Clone, Copy)]
pub enum EntryTarget {
    /// Nothing: the entry is not present.
    NotPresent,
    /// A table of the given level.
    Table(Level, Addr<UMASpace>),
    /// A page mapped by an entry of the given level.
    Page(Level, Addr<UMASpace>),
}

/// Whether an entry of `level` holding `raw` is present (a `CR3` entry
/// always is).
pub open spec fn present(level: Level, raw: u64) -> bool {
    level == Level::CR3 || raw & 1 != 0
}

/// Whether an entry of `level` holding `raw` maps a page rather than a
/// table.
pub open spec fn maps_page(level: Level, raw: u64) -> bool {
    match level {
        Level::PDPT | Level::PD => raw & 0x80 != 0,
        Level::PT => true,
        _ => false,
    }
}

/// The bits of the address in an entry of `level` holding `raw`.
pub open spec fn addr_mask(level: Level, raw: u64) -> u64 {
    if (level == Level::PDPT || level == Level::PD) && maps_page(level, raw) {
        0x0000_FFFF_FFFF_E000
    } else {
        0x0000_FFFF_FFFF_F000
    }
}

/// The address an entry of `level` holding `raw` points to.
pub open spec fn target_addr(level: Level, raw: u64) -> u64 {
    raw & addr_mask(level, raw)
}

/// The address bits of `raw` lie within the physical address space.
pub open spec fn addr_fits(raw: u64) -> bool {
    raw & 0x0000_C000_0000_0000 == 0
}

/// The alignment an address written to an entry of `level` holding `raw`
/// must have.
pub open spec fn required_align(level: Level, raw: u64) -> u64 {
    if !maps_page(level, raw) {
        0x1000
    } else {
        match level {
            Level::PDPT => 0x4000_0000,
            Level::PD => 0x20_0000,
            _ => 0x1000,
        }
    }
}

/// The known flag bits of `flags`, as entry bits.
pub open spec fn flag_bits(flags: u16) -> u64 {
    (flags & 0x1FF) as u64
}

/// The entry that [`EntryRef::reinit`] writes: the known flags, and the
/// address if the entry is present and the address suitably aligned.
pub open spec fn reinit_raw(level: Level, addr: u64, flags: u16) -> u64 {
    let f = flag_bits(flags);
    if present(level, f) && addr % required_align(level, f) == 0 {
        f | addr
    } else {
        f
    }
}

pub proof fn lemma_addr_bits(raw: u64)
    by (bit_vector)
    requires
        raw & 0x0000_C000_0000_0000 == 0,
    ensures
        raw & 0x0000_FFFF_FFFF_F000 < 0x4000_0000_0000,
        raw & 0x0000_FFFF_FFFF_E000 < 0x4000_0000_0000,
{
}

#[verifier::rlimit(40)]
proof fn lemma_write_addr(f: u64, a: u64, align: u64)
    by (bit_vector)
    requires
        f < 0x200,
        a <= 0x4000_0000_0000,
        align == 0x1000 || align == 0x20_0000 || align == 0x4000_0000,
        a % align == 0,
    ensures
        (f & !((0x1_0000_0000_0000u64 - align) as u64)) | a == f | a,
        (f | a) & 0x1FF == f,
        (f | a) & 0x80 == f & 0x80,
        (f | a) & 1 == f & 1,
        a < 0x4000_0000_0000 ==> (f | a) & 0x0000_C000_0000_0000 == 0,
        (f | a) & 0x0000_FFFF_FFFF_F000 == a,
        align != 0x1000 ==> (f | a) & 0x0000_FFFF_FFFF_E000 == a,
{
}

proof fn lemma_flag_bits(flags: u16)
    by (bit_vector)
    ensures
        ((flags & 0x1FF) as u64) < 0x200,
        ((flags & 0x1FF) as u64) & 0x1FF == (flags & 0x1FF) as u64,
        ((flags & 0x1FF) as u64) & 0x0000_C000_0000_0000 == 0,
        ((flags & 0x1FF) as u64) & 0x0000_FFFF_FFFF_F000 == 0,
        ((flags & 0x1FF) as u64) & 0x0000_FFFF_FFFF_E000 == 0,
        0u64 | ((flags & 0x1FF) as u64) == (flags & 0x1FF) as u64,
{
}

/// A paging-table entry with its level.
#[derive(Debug, Clone, Copy)]
pub struct EntryRef {
    level: Level,
    raw: RawEntry,
}

impl EntryRef {
    /// The level of the table holding the entry.
    pub closed spec fn spec_level(&self) -> Level {
        self.level
    }

    /// The bits of the entry.
    pub closed spec fn bits(&self) -> u64 {
        self.raw.0
    }

    /// Whether the entry points to anything.
    pub fn is_present(&self) -> (r: bool)
        ensures
            r == present(self.spec_level(), self.bits()),
    {
        self.level == Level::CR3 || self.raw.0 & 1 != 0
    }

    /// Whether the entry maps a page.
    pub fn is_page(&self) -> (r: bool)
        ensures
            r == (present(self.spec_level(), self.bits()) && maps_page(
                self.spec_level(),
                self.bits(),
            )),
    {
        self.is_present() && self.maps_page()
    }

    /// Whether the entry points to a table.
    pub fn is_table(&self) -> (r: bool)
        ensures
            r == (present(self.spec_level(), self.bits()) && !maps_page(
                self.spec_level(),
                self.bits(),
            )),
    {
        self.is_present() && !self.maps_page()
    }

    fn maps_page(&self) -> (r: bool)
        ensures
            r == maps_page(self.spec_level(), self.bits()),
    {
        match self.level {
            Level::PDPT | Level::PD => self.raw.0 & 0x80 != 0,
            Level::PT => true,
            _ => false,
        }
    }

    /// Returns the level of the entry.
    pub fn level(&self) -> (r: Level)
        ensures
            r == self.spec_level(),
    {
        self.level
    }

    /// Returns the raw entry.
    pub fn raw(self) -> (r: RawEntry)
        ensures
            r.0 == self.bits(),
    {
        self.raw
    }

    /// Returns what the entry points to: nothing when it is not present, a
    /// page for a page entry, else a table of the next level.
    pub fn target(&self) -> (r: EntryTarget)
        requires
            addr_fits(self.bits()),
        ensures
            match r {
                EntryTarget::NotPresent => !present(self.spec_level(), self.bits()),
                EntryTarget::Page(l, a) => {
                    &&& present(self.spec_level(), self.bits())
                    &&& maps_page(self.spec_level(), self.bits())
                    &&& l == self.spec_level()
                    &&& a@ == target_addr(self.spec_level(), self.bits())
                },
                EntryTarget::Table(l, a) => {
                    &&& present(self.spec_level(), self.bits())
                    &&& !maps_page(self.spec_level(), self.bits())
                    &&& self.spec_level().below() == Some(l)
                    &&& a@ == target_addr(self.spec_level(), self.bits())
                },
            },
    {
        if !self.is_present() {
            return EntryTarget::NotPresent;
        }
        let is_page = self.maps_page();
        let mask: u64 = if (self.level == Level::PDPT || self.level == Level::PD) && is_page {
            0x0000_FFFF_FFFF_E000
        } else {
            0x0000_FFFF_FFFF_F000
        };
        proof {
            lemma_addr_bits(self.raw.0);
        }
        let addr = Addr::new(self.raw.0 & mask);
        if is_page {
            EntryTarget::Page(self.level, addr)
        } else {
            match self.level.next_level() {
                Some(next) => EntryTarget::Table(next, addr),
                None => EntryTarget::NotPresent,
            }
        }
    }

    /// Writes `addr` into a present entry, keeping its other bits. Returns
    /// false, changing nothing, if the entry is not present or `addr` is not
    /// aligned to what the entry points to (4 KiB for a table, else the page
    /// size).
    pub fn set_addr(&mut self, addr: Addr<UMASpace>) -> (r: bool)
        ensures
            final(self).spec_level() == old(self).spec_level(),
            r == (present(old(self).spec_level(), old(self).bits()) && addr@ % required_align(
                old(self).spec_level(),
                old(self).bits(),
            ) == 0),
            r ==> final(self).bits() == (old(self).bits() & !((0x1_0000_0000_0000u64
                - required_align(old(self).spec_level(), old(self).bits())) as u64)) | addr@,
            !r ==> final(self).bits() == old(self).bits(),
    {
        if !self.is_present() {
            return false;
        }
        let align: u64 = if !self.maps_page() {
            0x1000
        } else {
            match self.level {
                Level::PDPT => 0x4000_0000,
                Level::PD => 0x20_0000,
                _ => 0x1000,
            }
        };
        if !addr.is_aligned_to(align) {
            return false;
        }
        let mask = !(0x1_0000_0000_0000u64 - align);
        self.raw.0 = self.raw.0 & mask;
        self.raw.0 = self.raw.0 | addr.usize();
        true
    }

    /// Returns the flags of the entry: its low 16 bits, which may hold
    /// address bits as well.
    pub fn flags(&self) -> (r: Flags)
        ensures
            r@ == self.bits() as u16,
    {
        Flags::from_bits_retain(self.raw.0 as u16)
    }

    /// Flips the known flags of `flags`.
    pub fn toggle_flags(&mut self, flags: Flags)
        ensures
            final(self).spec_level() == old(self).spec_level(),
            final(self).bits() == old(self).bits() ^ flag_bits(flags@),
    {
        let mut flags = flags;
        flags.truncate();
        self.raw.0 = self.raw.0 ^ (flags.bits() as u64);
    }

    /// Sets the known flags of `flags` when `value`, else clears them.
    pub fn set_flags(&mut self, flags: Flags, value: bool)
        ensures
            final(self).spec_level() == old(self).spec_level(),
            final(self).bits() == if value {
                old(self).bits() | flag_bits(flags@)
            } else {
                old(self).bits() & !flag_bits(flags@)
            },
    {
        let mut flags = flags;
        flags.truncate();
        if value {
            self.raw.0 = self.raw.0 | (flags.bits() as u64);
        } else {
            self.raw.0 = self.raw.0 & !(flags.bits() as u64);
        }
    }

    /// The entry `raw` of a table of `level`.
    pub fn from_raw(raw: RawEntry, level: Level) -> (r: Self)
        ensures
            r.spec_level() == level,
            r.bits() == raw.0,
    {
        EntryRef { level, raw }
    }

    /// An entry of a table of `level` pointing to `addr` with `flags`; see
    /// [`Self::reinit`].
    pub fn init(raw: RawEntry, level: Level, addr: Addr<UMASpace>, flags: Flags) -> (r: Self)
        ensures
            r.spec_level() == level,
            r.bits() == reinit_raw(level, addr@, flags@),
    {
        let mut new = Self::from_raw(raw, level);
        new.reinit(addr, flags);
        new
    }

    /// Rewrites the entry to hold the known flags of `flags` and, if it is
    /// then present and `addr` is suitably aligned, the address `addr`.
    pub fn reinit(&mut self, addr: Addr<UMASpace>, flags: Flags)
        ensures
            final(self).spec_level() == old(self).spec_level(),
            final(self).bits() == reinit_raw(old(self).spec_level(), addr@, flags@),
    {
        self.raw.0 = 0;
        self.set_flags(flags, true);
        proof {
            lemma_flag_bits(flags@);
        }
        let ghost f = self.raw.0;
        let set = self.set_addr(addr);
        proof {
            if set {
                use_type_invariant(addr);
                lemma_write_addr(f, addr@, required_align(self.level, f));
            }
        }
    }
}

/// What a read gives back of a write: after [`EntryRef::reinit`] with a
/// present entry and a suitably aligned address, the entry points to that
/// address, as a page or a table as the flags say, and holds the known
/// flags given. The address fits an entry read back unless it is the end
/// of the physical space itself.
pub proof fn lemma_reinit_target(level: Level, addr: u64, flags: u16)
    requires
        addr <= UMASpace::range_end(),
        present(level, flag_bits(flags)),
        addr % required_align(level, flag_bits(flags)) == 0,
    ensures
        addr < UMASpace::range_end() ==> addr_fits(reinit_raw(level, addr, flags)),
        target_addr(level, reinit_raw(level, addr, flags)) == addr,
        present(level, reinit_raw(level, addr, flags)),
        maps_page(level, reinit_raw(level, addr, flags)) == maps_page(level, flag_bits(flags)),
        reinit_raw(level, addr, flags) & 0x1FF == flag_bits(flags),
{
    lemma_flag_bits(flags);
    lemma_write_addr(flag_bits(flags), addr, required_align(level, flag_bits(flags)));
}

} // verus!
