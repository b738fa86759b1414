//! Paging tables of 512 entries.
use crate::mem::addr::Addr;
use crate::mem::paging::entry::{EntryRef, RawEntry};
use crate::mem::paging::{table_index, Level};
use crate::mem::virt::VirtSpace;
use vstd::arithmetic::power2::pow2;
use vstd::prelude::*;

verus! {

/// Size of a table in bytes.
pub const TABLE_SIZE: u64 = 0x1000;

/// Number of entries of a table.
pub const TABLE_LEN: usize = 512;

/// Alignment of a table in bytes.
pub const TABLE_ALIGNMENT: u64 = 0x1000;

/// A paging table.
pub struct RawTable(pub [RawEntry; 512]);

impl RawTable {
    /// A table of zero entries.
    pub fn default() -> (r: Self)
        ensures
            forall|i: int| 0 <= i < TABLE_LEN ==> (#[trigger] r.0@[i]).0 == 0,
    {
        RawTable([RawEntry(0); 512])
    }
}

/// A paging table with its level.
pub struct TableRef {
    level: Level,
    data: RawTable,
}

/// `(v mod 2^e) / 2^s` is below `2^(e - s)`.
proof fn lemma_index_bound(v: nat, s: nat, e: nat)
    requires
        s <= e,
    ensures
        (v % pow2(e)) / pow2(s) < pow2((e - s) as nat),
{
    vstd::arithmetic::power2::lemma_pow2_pos(e);
    vstd::arithmetic::power2::lemma_pow2_pos(s);
    vstd::arithmetic::power2::lemma_pow2_adds(s, (e - s) as nat);
    let m = v % pow2(e);
    assert(m < pow2(e));
    vstd::arithmetic::div_mod::lemma_multiply_divide_lt(
        m as int,
        pow2(s) as int,
        pow2((e - s) as nat) as int,
    );
    assert(pow2(e) == pow2(s) * pow2((e - s) as nat));
}

impl TableRef {
    /// The level of the table.
    pub closed spec fn spec_level(&self) -> Level {
        self.level
    }

    /// The entries of the table.
    pub closed spec fn entries(&self) -> Seq<RawEntry> {
        self.data.0@
    }

    /// Returns the table.
    pub fn raw(self) -> (r: RawTable)
        ensures
            r.0@ == self.entries(),
    {
        self.data
    }

    /// The table `data` of `level`.
    pub fn from_raw(level: Level, data: RawTable) -> (r: Self)
        ensures
            r.spec_level() == level,
            r.entries() == data.0@,
    {
        TableRef { level, data }
    }

    /// Borrows the table again, for a shorter time.
    pub fn reborrow(&mut self) -> (r: &mut TableRef)
        ensures
            *r == *old(self),
            *final(self) == *final(r),
    {
        self
    }

    /// Returns entry `idx`.
    pub fn index(&self, idx: usize) -> (r: EntryRef)
        requires
            idx < TABLE_LEN,
        ensures
            r.spec_level() == self.spec_level(),
            r.bits() == self.entries()[idx as int].0,
    {
        EntryRef::from_raw(self.data.0[idx], self.level)
    }

    /// Writes `entry` as entry `idx`.
    pub fn write(&mut self, idx: usize, entry: EntryRef)
        requires
            idx < TABLE_LEN,
        ensures
            final(self).spec_level() == old(self).spec_level(),
            final(self).entries() == old(self).entries().update(idx as int, RawEntry(entry.bits())),
    {
        self.data.0[idx] = entry.raw();
    }

    /// Returns the entry of the table that `addr` goes through: the one
    /// indexed by the address bits of the table's level.
    pub fn index_with_vaddr<S: VirtSpace>(&self, addr: Addr<S>) -> (r: EntryRef)
        requires
            self.spec_level() != Level::CR3,
        ensures
            r.spec_level() == self.spec_level(),
            r.bits() == self.entries()[table_index(self.spec_level(), addr@)].0,
    {
        let range = self.level.page_table_idx_range();
        let idx = addr.index_range(&range);
        proof {
            lemma_index_bound(addr@ as nat, range.start as nat, range.end as nat);
            vstd::arithmetic::power2::lemma2_to64();
        }
        self.index(idx as usize)
    }
}

} // verus!
