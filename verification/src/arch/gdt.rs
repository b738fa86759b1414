//! Segment descriptors of the global descriptor table.
use vstd::prelude::*;

verus! {

/// Number of descriptors of the table: the null one, kernel and user code
/// and data, and the two halves of the task state segment.
pub const GDT_LEN: usize = 7;

/// Size in bytes of the task state segment.
pub const TSS_SIZE: u16 = 104;

/// A segment descriptor: limit in bits 0-15 and 48-51, base in bits 16-39
/// and 56-63, access byte in bits 40-47, flags in bits 52-55.
#[derive(Debug, Clone, Copy, PartialEq, Eq, Structural)]
pub struct SegmentDesc(pub u64);

/// The descriptor with access byte `access` and flags `flags`, everything
/// else zero.
pub open spec fn desc_bits(access: u64, flags: u64) -> u64 {
    (access << 40u64) | (flags << 52u64)
}

impl SegmentDesc {
    /// The null descriptor.
    pub fn invalid() -> (r: Self)
        ensures
            r.0 == 0,
    {
        SegmentDesc(0)
    }

    /// Kernel code: present, ring 0, executable and readable; long mode.
    pub fn kcode() -> (r: Self)
        ensures
            r.0 == desc_bits(0x9A, 0xA),
    {
        SegmentDesc((0x9Au64 << 40u64) | (0xAu64 << 52u64))
    }

    /// Kernel data: present, ring 0, writable.
    pub fn kdata() -> (r: Self)
        ensures
            r.0 == desc_bits(0x92, 0xC),
    {
        SegmentDesc((0x92u64 << 40u64) | (0xCu64 << 52u64))
    }

    /// User code: present, ring 3, executable and readable; long mode.
    pub fn ucode() -> (r: Self)
        ensures
            r.0 == desc_bits(0xFA, 0xA),
    {
        SegmentDesc((0xFAu64 << 40u64) | (0xAu64 << 52u64))
    }

    /// User data: present, ring 3, writable.
    pub fn udata() -> (r: Self)
        ensures
            r.0 == desc_bits(0xF2, 0xC),
    {
        SegmentDesc((0xF2u64 << 40u64) | (0xCu64 << 52u64))
    }

    /// The two descriptors of a task state segment at `base` of `limit`
    /// bytes: an available 64-bit TSS with the limit and the low 32 bits of
    /// the base, then the high 32 bits of the base.
    pub fn tss(base: u64, limit: u16) -> (r: [Self; 2])
        ensures
            (r[0].0 & 0xFFFF) == limit,
            (r[0].0 >> 16u64) & 0xFF_FFFF == base & 0xFF_FFFF,
            (r[0].0 >> 40u64) & 0xFF == 0x89,
            (r[0].0 >> 48u64) & 0xFF == 0,
            (r[0].0 >> 56u64) == (base >> 24u64) & 0xFF,
            r[1].0 == base >> 32u64,
    {
        let low = (0x89u64 << 40u64) | (limit as u64) | ((base & 0xFF_FFFF) << 16u64) | (((base
            >> 24u64) & 0xFF) << 56u64);
        let hi = base >> 32u64;
        proof {
            let l = limit as u64;
            assert(((0x89u64 << 40u64) | l | ((base & 0xFF_FFFF) << 16u64) | (((base >> 24u64)
                & 0xFF) << 56u64)) & 0xFFFF == l) by (bit_vector)
                requires
                    l < 0x1_0000,
            ;
            assert((((0x89u64 << 40u64) | l | ((base & 0xFF_FFFF) << 16u64) | (((base >> 24u64)
                & 0xFF) << 56u64)) >> 16u64) & 0xFF_FFFF == base & 0xFF_FFFF) by (bit_vector)
                requires
                    l < 0x1_0000,
            ;
            assert((((0x89u64 << 40u64) | l | ((base & 0xFF_FFFF) << 16u64) | (((base >> 24u64)
                & 0xFF) << 56u64)) >> 40u64) & 0xFF == 0x89) by (bit_vector)
                requires
                    l < 0x1_0000,
            ;
            assert((((0x89u64 << 40u64) | l | ((base & 0xFF_FFFF) << 16u64) | (((base >> 24u64)
                & 0xFF) << 56u64)) >> 48u64) & 0xFF == 0) by (bit_vector)
                requires
                    l < 0x1_0000,
            ;
            assert((((0x89u64 << 40u64) | l | ((base & 0xFF_FFFF) << 16u64) | (((base >> 24u64)
                & 0xFF) << 56u64)) >> 56u64) == (base >> 24u64) & 0xFF) by (bit_vector)
                requires
                    l < 0x1_0000,
            ;
        }
        [SegmentDesc(low), SegmentDesc(hi)]
    }
}

/// The global descriptor table.
pub struct Gdt(pub [SegmentDesc; 7]);

impl Gdt {
    /// The table: null, kernel code, kernel data, user code, user data,
    /// and the task state segment at `tss_base`.
    pub fn new(tss_base: u64) -> (r: Self)
        ensures
            r.0[0].0 == 0,
            r.0[1].0 == desc_bits(0x9A, 0xA),
            r.0[2].0 == desc_bits(0x92, 0xC),
            r.0[3].0 == desc_bits(0xFA, 0xA),
            r.0[4].0 == desc_bits(0xF2, 0xC),
            r.0[6].0 == tss_base >> 32u64,
            (r.0[5].0 & 0xFFFF) == TSS_SIZE,
    {
        let tss = SegmentDesc::tss(tss_base, TSS_SIZE);
        let tss_low = tss[0];
        let tss_hi = tss[1];
        Gdt(
            [
                SegmentDesc::invalid(),
                SegmentDesc::kcode(),
                SegmentDesc::kdata(),
                SegmentDesc::ucode(),
                SegmentDesc::udata(),
                tss_low,
                tss_hi,
            ],
        )
    }

    /// The limit field of the table register: the table's size in bytes,
    /// less one.
    pub fn limit() -> (r: u16)
        ensures
            r == GDT_LEN * 8 - 1,
    {
        (GDT_LEN * 8 - 1) as u16
    }
}

} // verus!
