//! User tasks: the memory a task sees, as user pages mapped to physical
//! frames that hold bytes.
use crate::mem::phy::{PhysicalMemoryManager, FRAME_SIZE};
use std::collections::HashMap;
use vstd::prelude::*;

verus! {

broadcast use vstd::std_specs::hash::group_hash_axioms;

/// The size of a user page.
pub const USER_PAGE: u64 = 4096;

/// The start of the page holding address `v`.
pub open spec fn page_of(v: u64) -> u64 {
    (v - v % 4096) as u64
}

/// The frame at physical address `a` is one of `pmm`'s frames, and `pmm`
/// holds it.
pub open spec fn frame_owned(a: u64, pmm: PhysicalMemoryManager) -> bool {
    &&& a >= pmm.base_addr()
    &&& (a - pmm.base_addr()) % (FRAME_SIZE as int) == 0
    &&& pmm.frame_index(a as int) < pmm.frame_records().len()
    &&& pmm.buddies().held(pmm.frame_index(a as int))
}

/// The memory of a user task: the frame each user page is mapped to, and
/// the bytes stored in frames, by physical address.
pub struct TaskMemory {
    pages: HashMap<u64, u64>,
    bytes: HashMap<u64, u8>,
}

impl TaskMemory {
    /// The frame each mapped page (by its start) is mapped to.
    pub closed spec fn pages(&self) -> Map<u64, u64> {
        self.pages@
    }

    /// The bytes stored in the frames, by physical address.
    pub closed spec fn bytes(&self) -> Map<u64, u8> {
        self.bytes@
    }

    /// The physical address of user address `v`, whose page is mapped.
    pub open spec fn phys_of(&self, v: u64) -> int {
        self.pages()[page_of(v)] + v % 4096
    }

    /// The byte the task reads at user address `v`: `None` if its page is
    /// not mapped or nothing was stored there.
    pub open spec fn byte_at(&self, v: u64) -> Option<u8> {
        if self.pages().contains_key(page_of(v)) && self.phys_of(v) <= u64::MAX && self.bytes().contains_key(
            self.phys_of(v) as u64,
        ) {
            Some(self.bytes()[self.phys_of(v) as u64])
        } else {
            None
        }
    }

    /// Every mapped page starts at a page boundary and is mapped to a frame
    /// that `pmm` holds, and no two pages share a frame.
    pub open spec fn owned_by(&self, pmm: PhysicalMemoryManager) -> bool {
        &&& forall|p: u64| #[trigger] self.pages().contains_key(p) ==> p % 4096 == 0 && frame_owned(self.pages()[p], pmm)
        &&& forall|p: u64, q: u64|
            #[trigger] self.pages().contains_key(p) && #[trigger] self.pages().contains_key(q) && p != q
                ==> self.pages()[p] != self.pages()[q]
    }

    /// A memory with no page mapped.
    pub fn new() -> (r: Self)
        ensures
            r.pages() == Map::<u64, u64>::empty(),
            r.bytes() == Map::<u64, u8>::empty(),
    {
        TaskMemory { pages: HashMap::new(), bytes: HashMap::new() }
    }

    /// Maps the page at `vpage` to the frame at `frame`; false, changing
    /// nothing, if the page is already mapped.
    pub fn map_page(&mut self, vpage: u64, frame: u64) -> (r: bool)
        ensures
            r == !old(self).pages().contains_key(vpage),
            r ==> final(self).pages() == old(self).pages().insert(vpage, frame),
            !r ==> final(self).pages() == old(self).pages(),
            final(self).bytes() == old(self).bytes(),
    {
        if self.pages.contains_key(&vpage) {
            return false;
        }
        self.pages.insert(vpage, frame);
        true
    }

    /// Stores `b` at user address `v`, whose page is mapped.
    pub fn write(&mut self, v: u64, b: u8)
        requires
            old(self).pages().contains_key(page_of(v)),
            old(self).pages()[page_of(v)] + 4096 <= u64::MAX,
        ensures
            final(self).pages() == old(self).pages(),
            final(self).bytes() == old(self).bytes().insert(old(self).phys_of(v) as u64, b),
    {
        let page = v - v % 4096;
        let frame = *self.pages.get(&page).unwrap();
        self.bytes.insert(frame + v % 4096, b);
    }

    /// The byte the task reads at user address `v`.
    pub fn read(&self, v: u64) -> (r: Option<u8>)
        ensures
            r == self.byte_at(v),
    {
        let page = v - v % 4096;
        match self.pages.get(&page) {
            None => None,
            Some(frame) => {
                if *frame > u64::MAX - v % 4096 {
                    None
                } else {
                    match self.bytes.get(&(*frame + v % 4096)) {
                        Some(b) => Some(*b),
                        None => None,
                    }
                }
            },
        }
    }
}

} // verus!
