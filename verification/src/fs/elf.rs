//! Loading an ELF executable: which segments to map where, and the entry
//! point.
use crate::fs::ustar::{read_count, BLOCK_SIZE};
use crate::fs::{File, INode};
use crate::mem::addr::PageSize;
use crate::mem::phy::{frames_per_page, PhysicalMemoryManager, FRAME_SIZE};
use crate::usr::{frame_owned, page_of, TaskMemory};
use goblin::elf::Elf;
use vstd::arithmetic::power2::pow2;
use vstd::prelude::*;

verus! {

/// The type of a loadable segment.
pub const PT_LOAD: u32 = 1;

/// One past the last user-space address.
pub const USER_SPACE_END: u64 = 0x8000_0000_0000;

/// An ELF program header.
#[derive(Debug, Clone, Copy, PartialEq, Eq, Structural)]
pub struct ProgramHeader {
    pub p_type: u32,
    pub p_flags: u32,
    pub p_offset: u64,
    pub p_vaddr: u64,
    pub p_paddr: u64,
    pub p_filesz: u64,
    pub p_memsz: u64,
    pub p_align: u64,
}

/// What the loader reads of a parsed ELF file.
pub struct ElfImage {
    pub entry: u64,
    pub program_headers: Vec<ProgramHeader>,
}

/// The entry point and program headers that `goblin` parses from `bytes`,
/// or `None` where it fails.
pub uninterp spec fn elf_parse(bytes: Seq<u8>) -> Option<(u64, Seq<ProgramHeader>)>;

/// `goblin::elf::Elf::parse`: parses `bytes` as an ELF file; the result is
/// the one `elf_parse` names, its entry point and program headers copied
/// out. Nothing more is claimed of what the parser accepts.
#[verifier::external_body]
fn parse_elf(bytes: &[u8]) -> (r: Option<ElfImage>)
    ensures
        elf_parse(bytes@) == match r {
            Some(img) => Some((img.entry, img.program_headers@)),
            None => None,
        },
{
    match Elf::parse(bytes) {
        Ok(elf) => Some(ElfImage {
            entry: elf.entry,
            program_headers: elf.program_headers.iter().map(|ph| ProgramHeader {
                p_type: ph.p_type, p_flags: ph.p_flags, p_offset: ph.p_offset, p_vaddr: ph.p_vaddr,
                p_paddr: ph.p_paddr, p_filesz: ph.p_filesz, p_memsz: ph.p_memsz, p_align: ph.p_align,
            }).collect(),
        }),
        Err(_) => None,
    }
}

/// A segment to load: `memsz` bytes aligned to `align` mapped at `vaddr`,
/// the first `filesz` of them copied from `offset` of the file.
#[derive(Debug, Clone, Copy, PartialEq, Eq, Structural)]
pub struct LoadSegment {
    pub vaddr: u64,
    pub memsz: u64,
    pub align: u64,
    pub offset: u64,
    pub filesz: u64,
}

/// `size` bytes aligned to `align` make a valid memory layout: the
/// alignment is a power of two and the size, rounded up to it, fits in an
/// `isize`.
pub open spec fn layout_ok(size: u64, align: u64) -> bool {
    &&& align != 0
    &&& align & (align - 1) as u64 == 0
    &&& size + (align - 1) <= i64::MAX
}

/// A program header is fit to load: not a loadable segment, or one with a
/// valid layout at a user-space address.
pub open spec fn header_ok(ph: ProgramHeader) -> bool {
    ph.p_type == PT_LOAD ==> layout_ok(ph.p_memsz, ph.p_align) && ph.p_vaddr < USER_SPACE_END
}

/// The segment of a loadable program header.
pub open spec fn segment_of(ph: ProgramHeader) -> LoadSegment {
    LoadSegment {
        vaddr: ph.p_vaddr,
        memsz: ph.p_memsz,
        align: ph.p_align,
        offset: ph.p_offset,
        filesz: ph.p_filesz,
    }
}

/// The segments of the loadable headers of `phs`, in order.
pub open spec fn segments_of(phs: Seq<ProgramHeader>) -> Seq<LoadSegment>
    decreases phs.len(),
{
    if phs.len() == 0 {
        Seq::empty()
    } else if phs.last().p_type == PT_LOAD {
        segments_of(phs.drop_last()).push(segment_of(phs.last()))
    } else {
        segments_of(phs.drop_last())
    }
}

/// The law of the loading plan: its segments are the program headers of
/// type `PT_LOAD`, whatever their flags, each made a segment, in the order
/// of the headers.
pub proof fn lemma_segments_are_loadable_headers(phs: Seq<ProgramHeader>)
    ensures
        segments_of(phs) == phs.filter(|ph: ProgramHeader| ph.p_type == PT_LOAD).map_values(
            |ph: ProgramHeader| segment_of(ph),
        ),
    decreases phs.len(),
{
    reveal(Seq::filter);
    let pred = |ph: ProgramHeader| ph.p_type == PT_LOAD;
    let f = |ph: ProgramHeader| segment_of(ph);
    if phs.len() == 0 {
        assert(phs.filter(pred).map_values(f) =~= Seq::<LoadSegment>::empty());
    } else {
        lemma_segments_are_loadable_headers(phs.drop_last());
        let sub = phs.drop_last().filter(pred);
        if pred(phs.last()) {
            assert(phs.filter(pred) == sub.push(phs.last()));
            assert(sub.push(phs.last()).map_values(f) =~= sub.map_values(f).push(segment_of(phs.last())));
        } else {
            assert(phs.filter(pred) == sub);
        }
    }
}

/// Checks whether a layout of `size` bytes aligned to `align` is valid.
fn layout_valid(size: u64, align: u64) -> (r: bool)
    ensures
        r == layout_ok(size, align),
{
    if align == 0 {
        return false;
    }
    if align & (align - 1) != 0 {
        return false;
    }
    if align - 1 > i64::MAX as u64 {
        return false;
    }
    size <= i64::MAX as u64 - (align - 1)
}

/// The loading plan of a parsed ELF file: its entry point and the segments
/// of its loadable headers. `None` if a loadable header has an invalid
/// layout or lies outside user space, or the entry point is zero.
pub fn load_plan(elf: &ElfImage) -> (r: Option<(u64, Vec<LoadSegment>)>)
    ensures
        r.is_some() <==> (forall|i: int|
            0 <= i < elf.program_headers@.len() ==> #[trigger] header_ok(elf.program_headers@[i]))
            && elf.entry != 0,
        r.is_some() ==> r.unwrap().0 == elf.entry && r.unwrap().1@ == segments_of(
            elf.program_headers@,
        ),
{
    let mut segments: Vec<LoadSegment> = Vec::new();
    let mut i: usize = 0;
    while i < elf.program_headers.len()
        invariant
            i <= elf.program_headers@.len(),
            forall|k: int| 0 <= k < i ==> #[trigger] header_ok(elf.program_headers@[k]),
            segments@ == segments_of(elf.program_headers@.take(i as int)),
        decreases elf.program_headers@.len() - i,
    {
        let ph = elf.program_headers[i];
        proof {
            assert(elf.program_headers@.take(i + 1).drop_last() =~= elf.program_headers@.take(
                i as int,
            ));
        }
        if ph.p_type == PT_LOAD {
            if !layout_valid(ph.p_memsz, ph.p_align) || ph.p_vaddr >= USER_SPACE_END {
                assert(!header_ok(elf.program_headers@[i as int]));
                return None;
            }
            segments.push(
                LoadSegment {
                    vaddr: ph.p_vaddr,
                    memsz: ph.p_memsz,
                    align: ph.p_align,
                    offset: ph.p_offset,
                    filesz: ph.p_filesz,
                },
            );
        }
        i = i + 1;
    }
    assert(elf.program_headers@.take(i as int) =~= elf.program_headers@);
    if elf.entry == 0 {
        None
    } else {
        Some((elf.entry, segments))
    }
}

/// What loading an ELF file yields: its bytes, the entry point and the
/// segments to map.
pub struct ElfLoad {
    pub image: Vec<u8>,
    pub entry: u64,
    pub segments: Vec<LoadSegment>,
}

/// The bytes read from `file` into a zeroed buffer as long as the file:
/// the file's bytes from its position, then zeros.
pub open spec fn image_of(file: File) -> Seq<u8> {
    let tape = file.node().tape();
    let off = file.node().offset();
    let size = crate::fs::ustar::size_at(tape, off);
    let start = off + BLOCK_SIZE + file.position();
    let n = read_count(tape, off, file.position() as int, size).unwrap();
    tape.subrange(start, start + n) + Seq::new((size - n) as nat, |i: int| 0u8)
}

/// A parsed ELF file is loaded: it has a non-zero entry point and every
/// program header is fit to load.
pub open spec fn loadable(parsed: Option<(u64, Seq<ProgramHeader>)>) -> bool {
    &&& parsed.is_some()
    &&& parsed.unwrap().0 != 0
    &&& forall|i: int|
        0 <= i < parsed.unwrap().1.len() ==> #[trigger] header_ok(parsed.unwrap().1[i])
}

/// Reads the ELF file `file` (as many bytes as its size, from its
/// position), parses it, and returns its loading plan; `None` if it does
/// not parse or its plan is refused (see [`load_plan`]).
pub fn read_elf(file: &mut File) -> (r: Option<ElfLoad>)
    requires
        read_count(
            old(file).node().tape(),
            old(file).node().offset(),
            old(file).position() as int,
            crate::fs::ustar::size_at(old(file).node().tape(), old(file).node().offset()),
        ).is_some(),
        old(file).node().offset() + BLOCK_SIZE <= old(file).node().tape().len(),
    ensures
        *final(file) == *old(file),
        r.is_some() <==> loadable(elf_parse(image_of(*old(file)))),
        r.is_some() ==> ({
            let (entry, phs) = elf_parse(image_of(*old(file))).unwrap();
            &&& r.unwrap().image@ == image_of(*old(file))
            &&& r.unwrap().entry == entry
            &&& r.unwrap().segments@ == segments_of(phs)
        }),
{
    let size = file.inode().stat().size;
    let mut fbuf: Vec<u8> = Vec::new();
    let mut k: u64 = 0;
    while k < size
        invariant
            k <= size,
            fbuf@ == Seq::new(k as nat, |i: int| 0u8),
        decreases size - k,
    {
        fbuf.push(0);
        k = k + 1;
    }
    let ghost zeros = fbuf@;
    let _ = file.read(&mut fbuf);
    assert(fbuf@ =~= image_of(*old(file)));
    let elf = parse_elf(fbuf.as_slice())?;
    assert(elf_parse(fbuf@) == Some((elf.entry, elf.program_headers@)));
    let plan = match load_plan(&elf) {
        Some(p) => p,
        None => {
            proof {
                let parsed = Some((elf.entry, elf.program_headers@));
                assert(parsed.unwrap().1 == elf.program_headers@);
                assert(parsed.unwrap().0 == elf.entry);
                if elf.entry != 0 {
                    let i = choose|i: int|
                        0 <= i < elf.program_headers@.len() && !#[trigger] header_ok(
                            elf.program_headers@[i],
                        );
                    assert(!header_ok(parsed.unwrap().1[i]));
                }
                assert(!loadable(parsed));
            }
            return None;
        },
    };
    Some(ElfLoad { image: fbuf, entry: plan.0, segments: plan.1 })
}

} // verus!

verus! {

/// A segment fits: its file bytes lie within the image and within its
/// memory, and its memory lies in user space.
pub open spec fn segment_fits(s: LoadSegment, image_len: int) -> bool {
    &&& s.filesz <= s.memsz
    &&& s.offset + s.filesz <= image_len
    &&& s.vaddr + s.memsz <= USER_SPACE_END
}

/// Page `pg` is one of the pages that segment `s` spans.
pub open spec fn seg_has_page(s: LoadSegment, pg: u64) -> bool {
    &&& pg % 4096 == 0
    &&& page_of(s.vaddr) <= pg
    &&& pg < s.vaddr + s.memsz
}

/// Some page of a segment is already mapped in `pages`, or is spanned by an
/// earlier segment too.
pub open spec fn collides(pages: Map<u64, u64>, segs: Seq<LoadSegment>) -> bool {
    exists|i: int, pg: u64|
        0 <= i < segs.len() && #[trigger] seg_has_page(segs[i], pg) && (pages.contains_key(pg) || exists|j: int|
            0 <= j < i && #[trigger] seg_has_page(segs[j], pg))
}

/// The task reads the file bytes of segment `s` at the segment's
/// addresses.
pub open spec fn segment_loaded(mem: TaskMemory, image: Seq<u8>, s: LoadSegment) -> bool {
    forall|k: int| 0 <= k < s.filesz ==> #[trigger] mem.byte_at((s.vaddr + k) as u64) == Some(image[s.offset + k])
}

/// A task memory owned by one manager stays owned by a manager with the
/// same frames that holds at least the same frames.
proof fn lemma_owned_kept(mem: TaskMemory, p0: PhysicalMemoryManager, p1: PhysicalMemoryManager)
    requires
        mem.owned_by(p0),
        p1.base_addr() == p0.base_addr(),
        p1.frame_records().len() == p0.frame_records().len(),
        forall|f: int| p0.buddies().held(f) ==> #[trigger] p1.buddies().held(f),
    ensures
        mem.owned_by(p1),
{
    assert forall|p: u64| #[trigger] mem.pages().contains_key(p) implies p % 4096 == 0 && frame_owned(
        mem.pages()[p],
        p1,
    ) by {
        assert(p0.buddies().held(p0.frame_index(mem.pages()[p] as int)));
    }
}

/// Within an owned task memory, distinct mapped user addresses lie at
/// distinct physical addresses below the end of the physical space.
proof fn lemma_distinct_phys(mem: TaskMemory, pmm: PhysicalMemoryManager, v1: u64, v2: u64)
    requires
        pmm.wf(),
        mem.owned_by(pmm),
        mem.pages().contains_key(page_of(v1)),
        mem.pages().contains_key(page_of(v2)),
        v1 != v2,
    ensures
        mem.phys_of(v1) != mem.phys_of(v2),
{
    pmm.lemma_wf();
    let f1 = mem.pages()[page_of(v1)] as int;
    let f2 = mem.pages()[page_of(v2)] as int;
    let b = pmm.base_addr() as int;
    vstd::arithmetic::div_mod::lemma_fundamental_div_mod(f1 - b, 4096);
    vstd::arithmetic::div_mod::lemma_fundamental_div_mod(f2 - b, 4096);
    vstd::arithmetic::div_mod::lemma_fundamental_div_mod(v1 as int, 4096);
    vstd::arithmetic::div_mod::lemma_fundamental_div_mod(v2 as int, 4096);
    if page_of(v1) != page_of(v2) {
        let q1 = (f1 - b) / 4096;
        let q2 = (f2 - b) / 4096;
        assert(f1 != f2);
        assert(q1 != q2);
        let o1 = v1 as int % 4096;
        let o2 = v2 as int % 4096;
        assert(b + 4096 * q1 + o1 != b + 4096 * q2 + o2) by (nonlinear_arith)
            requires
                q1 != q2,
                0 <= o1 < 4096,
                0 <= o2 < 4096,
        ;
    }
}

/// The page of an address within a segment's memory is one of its pages.
proof fn lemma_page_in_segment(s: LoadSegment, k: int)
    requires
        0 <= k < s.memsz,
        s.vaddr + s.memsz <= USER_SPACE_END,
    ensures
        seg_has_page(s, page_of((s.vaddr + k) as u64)),
{
    let v = (s.vaddr + k) as u64;
    vstd::arithmetic::div_mod::lemma_fundamental_div_mod(v as int, 4096);
    vstd::arithmetic::div_mod::lemma_fundamental_div_mod(s.vaddr as int, 4096);
    vstd::arithmetic::div_mod::lemma_mod_multiples_basic(v as int / 4096, 4096);
    assert(page_of(v) == 4096 * (v as int / 4096));
    assert(page_of(s.vaddr) == 4096 * (s.vaddr as int / 4096));
    assert(s.vaddr as int / 4096 <= v as int / 4096) by {
        vstd::arithmetic::div_mod::lemma_div_is_ordered(s.vaddr as int, v as int, 4096);
    }
    assert(4096 * (s.vaddr as int / 4096) <= 4096 * (v as int / 4096)) by (nonlinear_arith)
        requires
            s.vaddr as int / 4096 <= v as int / 4096,
    ;
    assert((4096 * (v as int / 4096)) % 4096 == 0) by {
        vstd::arithmetic::div_mod::lemma_mod_multiples_basic(v as int / 4096, 4096);
    }
}

/// Page boundaries from a page boundary up: the next one after `pg` is
/// `pg + 4096`.
proof fn lemma_next_page(pg: u64, q: u64)
    requires
        pg % 4096 == 0,
        q % 4096 == 0,
        pg <= q < pg + 4096,
    ensures
        q == pg,
{
    vstd::arithmetic::div_mod::lemma_fundamental_div_mod(pg as int, 4096);
    vstd::arithmetic::div_mod::lemma_fundamental_div_mod(q as int, 4096);
    let a = pg as int / 4096;
    let c = q as int / 4096;
    assert(a == c) by (nonlinear_arith)
        requires
            pg == 4096 * a,
            q == 4096 * c,
            pg <= q < pg + 4096,
    ;
}

/// Loads the segments of an ELF image into the memory of a task: for each
/// segment in turn, every page it spans is mapped to a frame allocated from
/// `pmm`, and its file bytes are copied to its address. False if a segment
/// does not fit (changing nothing), if `pmm` gives no frame, or if a page
/// is mapped already; the pages mapped until then stay.
pub fn load_segments(
    image: &Vec<u8>,
    segs: &Vec<LoadSegment>,
    mem: &mut TaskMemory,
    pmm: &mut PhysicalMemoryManager,
) -> (r: bool)
    requires
        old(pmm).wf(),
        old(mem).owned_by(*old(pmm)),
    ensures
        final(pmm).wf(),
        final(mem).owned_by(*final(pmm)),
        final(pmm).base_addr() == old(pmm).base_addr(),
        final(pmm).frame_records().len() == old(pmm).frame_records().len(),
        forall|f: int| old(pmm).buddies().held(f) ==> #[trigger] final(pmm).buddies().held(f),
        (exists|i: int| 0 <= i < segs@.len() && !#[trigger] segment_fits(segs@[i], image@.len() as int)) ==> !r
            && *final(mem) == *old(mem) && *final(pmm) == *old(pmm),
        r ==> !collides(old(mem).pages(), segs@),
        r ==> forall|i: int| 0 <= i < segs@.len() ==> #[trigger] segment_loaded(*final(mem), image@, segs@[i]),
        !r ==> (exists|i: int| 0 <= i < segs@.len() && !#[trigger] segment_fits(segs@[i], image@.len() as int))
            || collides(old(mem).pages(), segs@) || final(pmm).no_free_frame(),
{
    let mut i: usize = 0;
    while i < segs.len()
        invariant
            i <= segs@.len(),
            forall|j: int| 0 <= j < i ==> #[trigger] segment_fits(segs@[j], image@.len() as int),
            *mem == *old(mem),
            *pmm == *old(pmm),
            pmm.wf(),
            mem.owned_by(*pmm),
        decreases segs@.len() - i,
    {
        let s = segs[i];
        let n = image.len() as u64;
        if !(s.filesz <= s.memsz && s.filesz <= n && s.offset <= n - s.filesz && s.memsz <= USER_SPACE_END
            && s.vaddr <= USER_SPACE_END - s.memsz) {
            assert(!segment_fits(segs@[i as int], image@.len() as int));
            return false;
        }
        i = i + 1;
    }
    let ghost old_pages = mem.pages();
    let ghost pmm0 = *pmm;
    let mut i: usize = 0;
    while i < segs.len()
        invariant
            i <= segs@.len(),
            forall|j: int| 0 <= j < segs@.len() ==> #[trigger] segment_fits(segs@[j], image@.len() as int),
            pmm.wf(),
            mem.owned_by(*pmm),
            pmm.base_addr() == pmm0.base_addr(),
            pmm.frame_records().len() == pmm0.frame_records().len(),
            forall|f: int| pmm0.buddies().held(f) ==> #[trigger] pmm.buddies().held(f),
            pmm0 == *old(pmm),
            old_pages == old(mem).pages(),
            forall|j: int| 0 <= j < i ==> #[trigger] segment_loaded(*mem, image@, segs@[j]),
            forall|q: u64|
                #[trigger] mem.pages().contains_key(q) <==> old_pages.contains_key(q) || exists|j: int|
                    0 <= j < i && #[trigger] seg_has_page(segs@[j], q),
            forall|j: int, q: u64|
                0 <= j < i && #[trigger] seg_has_page(segs@[j], q) ==> !old_pages.contains_key(q) && forall|j2: int|
                    0 <= j2 < j ==> !#[trigger] seg_has_page(segs@[j2], q),
        decreases segs@.len() - i,
    {
        let s = segs[i];
        assert(segment_fits(segs@[i as int], image@.len() as int));
        let ghost before = mem.pages();
        let ghost bytes0 = mem.bytes();
        let end = s.vaddr + s.memsz;
        let mut pg = s.vaddr - s.vaddr % 4096;
        proof {
            vstd::arithmetic::div_mod::lemma_fundamental_div_mod(s.vaddr as int, 4096);
            vstd::arithmetic::div_mod::lemma_mod_multiples_basic(s.vaddr as int / 4096, 4096);
        }
        while pg < end
            invariant
                s == segs@[i as int],
                segment_fits(s, image@.len() as int),
                end == s.vaddr + s.memsz,
                pg % 4096 == 0,
                page_of(s.vaddr) <= pg,
                pg <= end + 4096,
                pmm.wf(),
                mem.owned_by(*pmm),
                pmm.base_addr() == pmm0.base_addr(),
                pmm.frame_records().len() == pmm0.frame_records().len(),
                forall|f: int| pmm0.buddies().held(f) ==> #[trigger] pmm.buddies().held(f),
                mem.bytes() == bytes0,
                forall|q: u64|
                    #[trigger] mem.pages().contains_key(q) <==> before.contains_key(q) || (seg_has_page(s, q)
                        && q < pg),
                forall|q: u64| #[trigger] before.contains_key(q) ==> mem.pages()[q] == before[q],
                forall|q: u64| #[trigger] seg_has_page(s, q) && q < pg ==> !before.contains_key(q),
                i < segs@.len(),
                old_pages == old(mem).pages(),
                pmm0 == *old(pmm),
                forall|j: int| 0 <= j < segs@.len() ==> #[trigger] segment_fits(segs@[j], image@.len() as int),
                forall|q: u64|
                    #[trigger] before.contains_key(q) <==> old_pages.contains_key(q) || exists|j: int|
                        0 <= j < i && #[trigger] seg_has_page(segs@[j], q),
                forall|j: int| 0 <= j < i ==> #[trigger] segment_loaded(*mem, image@, segs@[j]),
            decreases end + 4096 - pg,
        {
            let ghost p_before = *pmm;
            let frame = match pmm.allocate_pages(1, PageSize::Small) {
                Some(f) => f,
                None => {
                    proof {
                        lemma_owned_kept(*mem, p_before, *pmm);
                        assert(frames_per_page(PageSize::Small) == 1);
                    }
                    return false;
                },
            };
            let fa = frame.base.addr().usize();
            let ghost m_before = *mem;
            proof {
                lemma_owned_kept(*mem, p_before, *pmm);
                assert(frames_per_page(PageSize::Small) == 1);
                let idx = choose|idx: int|
                    {
                        let order = (#[trigger] pmm.frame_records()[idx]).order as nat;
                        &&& 0 <= idx < p_before.frame_records().len()
                        &&& !p_before.buddies().held(idx)
                        &&& pmm.buddies().held(idx)
                        &&& pow2(order) >= 1 * frames_per_page(PageSize::Small)
                        &&& (order == 0 || pow2((order - 1) as nat) < 1 * frames_per_page(PageSize::Small))
                        &&& pmm.buddies().allocated(pmm.buddies().top() - order, idx / pow2(order) as int)
                        &&& forall|y: int|
                            #[trigger] p_before.buddies().available(p_before.buddies().top() - order, y) ==> idx
                                / pow2(order) as int <= y
                        &&& frame.base.spec_addr()@ == p_before.base_addr() + idx * FRAME_SIZE
                        &&& frame.base.size() == PageSize::Small
                        &&& frame.len == pow2(order) / frames_per_page(PageSize::Small)
                    };
                let b = p_before.base_addr() as int;
                vstd::arithmetic::div_mod::lemma_mod_multiples_basic(idx, 4096);
                vstd::arithmetic::div_mod::lemma_div_multiples_vanish(idx, 4096);
                assert((fa - b) % 4096 == 0);
                assert(pmm.frame_index(fa as int) == idx);
                assert(frame_owned(fa, *pmm));
                assert forall|q: u64| #[trigger] mem.pages().contains_key(q) implies mem.pages()[q] != fa by {
                    assert(frame_owned(mem.pages()[q], p_before));
                }
            }
            let ok = mem.map_page(pg, fa);
            if !ok {
                proof {
                    assert(seg_has_page(s, pg));
                    assert(before.contains_key(pg));
                    if !old_pages.contains_key(pg) {
                        let j = choose|j: int| 0 <= j < i && #[trigger] seg_has_page(segs@[j], pg);
                        assert(seg_has_page(segs@[j], pg));
                    }
                    assert(seg_has_page(segs@[i as int], pg));
                    assert(collides(old_pages, segs@));
                }
                return false;
            }
            proof {
                assert forall|j: int| 0 <= j < i implies #[trigger] segment_loaded(*mem, image@, segs@[j]) by {
                    assert forall|k2: int| 0 <= k2 < segs@[j].filesz implies #[trigger] mem.byte_at(
                        (segs@[j].vaddr + k2) as u64,
                    ) == Some(image@[segs@[j].offset + k2]) by {
                        let w = (segs@[j].vaddr + k2) as u64;
                        assert(segment_loaded(m_before, image@, segs@[j]));
                        assert(m_before.byte_at(w) == Some(image@[segs@[j].offset + k2]));
                        assert(m_before.pages().contains_key(page_of(w)));
                    }
                }
                assert forall|p: u64| #[trigger] mem.pages().contains_key(p) implies p % 4096 == 0 && frame_owned(
                    mem.pages()[p],
                    *pmm,
                ) by {
                    if p != pg {
                        assert(m_before.pages().contains_key(p));
                    }
                }
                assert forall|q: u64|
                    #[trigger] mem.pages().contains_key(q) <==> before.contains_key(q) || (seg_has_page(s, q) && q
                        < pg + 4096) by {
                    if seg_has_page(s, q) && pg <= q && q < pg + 4096 {
                        lemma_next_page(pg, q);
                    }
                }
                assert forall|q: u64| #[trigger] seg_has_page(s, q) && q < pg + 4096 implies !before.contains_key(
                    q,
                ) by {
                    if q >= pg {
                        lemma_next_page(pg, q);
                    }
                }
            }
            pg = pg + 4096;
        }
        let ghost pages1 = mem.pages();
        let n = image.len();
        let mut k: u64 = 0;
        while k < s.filesz
            invariant
                s == segs@[i as int],
                segment_fits(s, image@.len() as int),
                forall|j: int| 0 <= j < segs@.len() ==> #[trigger] segment_fits(segs@[j], image@.len() as int),
                k <= s.filesz,
                n == image@.len(),
                i < segs@.len(),
                pmm.wf(),
                mem.owned_by(*pmm),
                mem.pages() == pages1,
                forall|q: u64| #[trigger] seg_has_page(s, q) ==> pages1.contains_key(q) && !before.contains_key(q),
                forall|q: u64|
                    #[trigger] before.contains_key(q) <==> old_pages.contains_key(q) || exists|j: int|
                        0 <= j < i && #[trigger] seg_has_page(segs@[j], q),
                forall|q: u64| #[trigger] before.contains_key(q) ==> pages1.contains_key(q),
                forall|k2: int|
                    0 <= k2 < k ==> #[trigger] mem.byte_at((s.vaddr + k2) as u64) == Some(image@[s.offset + k2]),
                forall|j: int| 0 <= j < i ==> #[trigger] segment_loaded(*mem, image@, segs@[j]),
            decreases s.filesz - k,
        {
            let v = s.vaddr + k;
            assert(s.offset + k < n);
            let b = image[(s.offset + k) as usize];
            let ghost m0 = *mem;
            proof {
                lemma_page_in_segment(s, k as int);
                pmm.lemma_wf();
            }
            mem.write(v, b);
            proof {
                assert forall|w: u64| #[trigger] m0.pages().contains_key(page_of(w)) && w != v implies mem.byte_at(w)
                    == m0.byte_at(w) by {
                    lemma_distinct_phys(m0, *pmm, v, w);
                }
                assert forall|k2: int| 0 <= k2 < k + 1 implies #[trigger] mem.byte_at((s.vaddr + k2) as u64) == Some(
                    image@[s.offset + k2],
                ) by {
                    if k2 < k {
                        lemma_page_in_segment(s, k2);
                        let w = (s.vaddr + k2) as u64;
                        assert(m0.pages().contains_key(page_of(w)));
                        assert(w != v);
                        assert(m0.byte_at(w) == Some(image@[s.offset + k2]));
                    } else {
                        assert(m0.pages().contains_key(page_of(v)));
                        assert(mem.phys_of(v) == m0.phys_of(v));
                        assert(mem.byte_at(v) == Some(b));
                    }
                }
                assert forall|j: int| 0 <= j < i implies #[trigger] segment_loaded(*mem, image@, segs@[j]) by {
                    assert forall|k2: int| 0 <= k2 < segs@[j].filesz implies #[trigger] mem.byte_at(
                        (segs@[j].vaddr + k2) as u64,
                    ) == Some(image@[segs@[j].offset + k2]) by {
                        let w = (segs@[j].vaddr + k2) as u64;
                        assert(segment_fits(segs@[j], image@.len() as int));
                        lemma_page_in_segment(segs@[j], k2);
                        assert(before.contains_key(page_of(w)));
                        assert(!before.contains_key(page_of(v)));
                        assert(segment_loaded(m0, image@, segs@[j]));
                        assert(m0.byte_at(w) == Some(image@[segs@[j].offset + k2]));
                    }
                }
            }
            k = k + 1;
        }
        proof {
            assert forall|q: u64|
                #[trigger] mem.pages().contains_key(q) <==> old_pages.contains_key(q) || exists|j: int|
                    0 <= j < i + 1 && #[trigger] seg_has_page(segs@[j], q) by {
                if exists|j: int| 0 <= j < i + 1 && #[trigger] seg_has_page(segs@[j], q) {
                    let j = choose|j: int| 0 <= j < i + 1 && #[trigger] seg_has_page(segs@[j], q);
                    if j < i {
                        assert(before.contains_key(q));
                    }
                }
                if mem.pages().contains_key(q) && !before.contains_key(q) {
                    assert(seg_has_page(segs@[i as int], q));
                }
            }
            assert forall|j: int, q: u64|
                0 <= j < i + 1 && #[trigger] seg_has_page(segs@[j], q) implies !old_pages.contains_key(q)
                    && forall|j2: int| 0 <= j2 < j ==> !#[trigger] seg_has_page(segs@[j2], q) by {
                if j == i {
                    assert(!before.contains_key(q));
                }
            }
            assert(segment_loaded(*mem, image@, segs@[i as int]));
        }
        i = i + 1;
    }
    proof {
        if collides(old_pages, segs@) {
            let (i0, pg0) = choose|i0: int, pg0: u64|
                0 <= i0 < segs@.len() && #[trigger] seg_has_page(segs@[i0], pg0) && (old_pages.contains_key(pg0)
                    || exists|j: int| 0 <= j < i0 && #[trigger] seg_has_page(segs@[j], pg0));
            if !old_pages.contains_key(pg0) {
                let j = choose|j: int| 0 <= j < i0 && #[trigger] seg_has_page(segs@[j], pg0);
                assert(seg_has_page(segs@[j], pg0));
            }
        }
    }
    true
}

} // verus!

verus! {

/// Loads the ELF file `file` into the memory `mem` of a task: reads and
/// parses it (see [`read_elf`]), then maps and fills its segments with
/// frames from `pmm` (see [`load_segments`]). Returns the entry point;
/// `None` if the file does not parse or its plan is refused (nothing is
/// then changed), or if loading a segment fails.
pub fn load_elf(file: &mut File, mem: &mut TaskMemory, pmm: &mut PhysicalMemoryManager) -> (r: Option<u64>)
    requires
        read_count(
            old(file).node().tape(),
            old(file).node().offset(),
            old(file).position() as int,
            crate::fs::ustar::size_at(old(file).node().tape(), old(file).node().offset()),
        ).is_some(),
        old(file).node().offset() + BLOCK_SIZE <= old(file).node().tape().len(),
        old(pmm).wf(),
        old(mem).owned_by(*old(pmm)),
    ensures
        *final(file) == *old(file),
        final(pmm).wf(),
        final(mem).owned_by(*final(pmm)),
        final(pmm).base_addr() == old(pmm).base_addr(),
        final(pmm).frame_records().len() == old(pmm).frame_records().len(),
        forall|f: int| old(pmm).buddies().held(f) ==> #[trigger] final(pmm).buddies().held(f),
        !loadable(elf_parse(image_of(*old(file)))) ==> r.is_none() && *final(mem) == *old(mem) && *final(pmm)
            == *old(pmm),
        loadable(elf_parse(image_of(*old(file)))) ==> ({
            let (entry, phs) = elf_parse(image_of(*old(file))).unwrap();
            let segs = segments_of(phs);
            let image = image_of(*old(file));
            &&& (exists|i: int| 0 <= i < segs.len() && !#[trigger] segment_fits(segs[i], image.len() as int))
                ==> r.is_none() && *final(mem) == *old(mem) && *final(pmm) == *old(pmm)
            &&& r.is_some() ==> r == Some(entry) && !collides(old(mem).pages(), segs) && forall|i: int|
                0 <= i < segs.len() ==> #[trigger] segment_loaded(*final(mem), image, segs[i])
            &&& r.is_none() ==> (exists|i: int|
                0 <= i < segs.len() && !#[trigger] segment_fits(segs[i], image.len() as int)) || collides(
                old(mem).pages(),
                segs,
            ) || final(pmm).no_free_frame()
        }),
{
    let plan = match read_elf(file) {
        Some(p) => p,
        None => {
            return None;
        },
    };
    if load_segments(&plan.image, &plan.segments, mem, pmm) {
        Some(plan.entry)
    } else {
        None
    }
}

} // verus!
