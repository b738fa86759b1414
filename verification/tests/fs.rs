use kernel::fs::elf::{load_elf, load_plan, load_segments, read_elf, ElfImage, LoadSegment, ProgramHeader, PT_LOAD};
use kernel::mem::addr::{Addr, AddrRange};
use kernel::mem::phy::{PhysicalMemoryManager, UMASpace};
use kernel::usr::TaskMemory;
use kernel::fs::initramfs::InitRamFs;
use kernel::fs::ustar::{octal2usize, Header, UStarFs};
use kernel::fs::vfs::Vfs;
use kernel::fs::{init_initrd, Error, File, FileSystem, INode};

fn tar_entry(name: &str, data: &[u8]) -> Vec<u8> {
    let mut header = vec![0u8; 512];
    header[..name.len()].copy_from_slice(name.as_bytes());
    let size = format!("{:011o}", data.len());
    header[124..135].copy_from_slice(size.as_bytes());
    header[100..107].copy_from_slice(b"0000644");
    header[257..262].copy_from_slice(b"ustar");
    let mut out = header;
    out.extend_from_slice(data);
    while out.len() % 512 != 0 {
        out.push(0);
    }
    out
}

fn archive(entries: &[(&str, &[u8])]) -> Vec<u8> {
    let mut tape = Vec::new();
    for (name, data) in entries {
        tape.extend(tar_entry(name, data));
    }
    tape.extend(vec![0u8; 1024]);
    tape
}

fn elf_image() -> Vec<u8> {
    let mut b = Vec::new();
    b.extend_from_slice(&[0x7F, b'E', b'L', b'F', 2, 1, 1, 0]);
    b.extend_from_slice(&[0; 8]);
    b.extend_from_slice(&2u16.to_le_bytes());
    b.extend_from_slice(&0x3Eu16.to_le_bytes());
    b.extend_from_slice(&1u32.to_le_bytes());
    b.extend_from_slice(&0x40_1000u64.to_le_bytes());
    b.extend_from_slice(&64u64.to_le_bytes());
    b.extend_from_slice(&0u64.to_le_bytes());
    b.extend_from_slice(&0u32.to_le_bytes());
    b.extend_from_slice(&64u16.to_le_bytes());
    b.extend_from_slice(&56u16.to_le_bytes());
    b.extend_from_slice(&1u16.to_le_bytes());
    b.extend_from_slice(&64u16.to_le_bytes());
    b.extend_from_slice(&0u16.to_le_bytes());
    b.extend_from_slice(&0u16.to_le_bytes());
    assert_eq!(b.len(), 64);
    b.extend_from_slice(&1u32.to_le_bytes());
    b.extend_from_slice(&5u32.to_le_bytes());
    b.extend_from_slice(&0u64.to_le_bytes());
    b.extend_from_slice(&0x40_0000u64.to_le_bytes());
    b.extend_from_slice(&0x40_0000u64.to_le_bytes());
    b.extend_from_slice(&120u64.to_le_bytes());
    b.extend_from_slice(&0x1000u64.to_le_bytes());
    b.extend_from_slice(&0x1000u64.to_le_bytes());
    assert_eq!(b.len(), 120);
    b
}

#[test]
fn octal_digits() {
    assert_eq!(octal2usize(b"00000000005"), 5);
    assert_eq!(octal2usize(b"777"), 511);
    assert_eq!(octal2usize(b"10"), 8);
    assert_eq!(octal2usize(b""), 0);
}

#[test]
fn find_headers_by_name() {
    let tape = archive(&[("a.txt", b"alpha"), ("dir/b.txt", &[7u8; 600]), ("c", b"")]);
    assert_eq!(UStarFs::find_header_off(&tape, b"a.txt"), Some(0));
    assert_eq!(UStarFs::find_header_off(&tape, b"dir/b.txt"), Some(1024));
    assert_eq!(UStarFs::find_header_off(&tape, b"c"), Some(1024 + 512 + 1024));
    assert_eq!(UStarFs::find_header_off(&tape, b"missing"), None);
}

#[test]
fn headers_read_name_and_size() {
    let tape = archive(&[("hello.txt", b"hello")]);
    let header = Header::read(&tape, 0);
    assert_eq!(header.name(), b"hello.txt".to_vec());
    assert_eq!(header.size(), 5);
    let ramfs = InitRamFs::mount(tape.clone());
    let (off, found) = ramfs.lookup(b"hello.txt").unwrap();
    assert_eq!(off, 0);
    assert_eq!(found.size(), 5);
    assert!(ramfs.lookup(b"nope").is_none());
}

#[test]
fn files_start_after_their_header() {
    let tape = archive(&[("a.txt", b"first file"), ("b.txt", b"second")]);
    let ramfs = InitRamFs::mount(tape.clone());
    let (off, header) = ramfs.lookup(b"b.txt").unwrap();
    assert_eq!(off, 1024);
    let (start, size) = InitRamFs::file_start(off, &header);
    assert_eq!((start, size), (1536, 6));
    assert_eq!(&tape[start as usize..(start + size) as usize], b"second");
}

#[test]
fn nodes_read_within_the_file() {
    let tape = archive(&[("hello.txt", b"hello world")]);
    let fs = UStarFs::new(tape);
    let node = fs.resolve(b"hello.txt").unwrap();
    assert_eq!(node.stat().size, 11);
    let mut buf = vec![0u8; 5];
    assert_eq!(node.read(0, &mut buf), Ok(5));
    assert_eq!(&buf, b"hello");
    let mut buf = vec![b'x'; 20];
    assert_eq!(node.read(6, &mut buf), Ok(5));
    assert_eq!(&buf[..5], b"world");
    assert_eq!(buf[5], b'x');
    let mut buf = vec![0u8; 4];
    assert_eq!(node.read(12, &mut buf), Err(Error::Unknown));
    assert!(fs.resolve(b"other").is_none());
    assert_eq!(fs.root().stat().size, 11);
}

#[test]
fn vfs_uses_the_last_root_mount() {
    let mut vfs = Vfs::new();
    init_initrd(&mut vfs, archive(&[("one", b"1")]));
    assert!(vfs.resolve(b"one").is_some());
    init_initrd(&mut vfs, archive(&[("two", b"22")]));
    assert!(vfs.resolve(b"one").is_none());
    let node = vfs.resolve(b"two").unwrap();
    assert_eq!(node.stat().size, 2);
    assert_eq!(vfs.root().stat().size, 2);
}

#[test]
fn files_open_and_read_from_the_start() {
    let mut vfs = Vfs::new();
    init_initrd(&mut vfs, archive(&[("motd", b"welcome")]));
    let mut file = File::open(&vfs, b"motd").unwrap();
    let mut buf = vec![0u8; 3];
    assert_eq!(file.read(&mut buf), Some(3));
    assert_eq!(&buf, b"wel");
    let mut buf = vec![0u8; 3];
    assert_eq!(file.read(&mut buf), Some(3));
    assert_eq!(&buf, b"wel");
    assert_eq!(file.inode().stat().size, 7);
    file.close();
    assert!(File::open(&vfs, b"absent").is_none());
}

fn header(p_type: u32, vaddr: u64, memsz: u64, align: u64) -> ProgramHeader {
    ProgramHeader { p_type, p_flags: 5, p_offset: 0x1000, p_vaddr: vaddr, p_paddr: vaddr, p_filesz: 0x10, p_memsz: memsz, p_align: align }
}

#[test]
fn load_plans_keep_loadable_segments() {
    let elf = ElfImage {
        entry: 0x40_1000,
        program_headers: vec![header(PT_LOAD, 0x40_0000, 0x2000, 0x1000), header(6, 0, 0, 0), header(PT_LOAD, 0x60_0000, 0x10, 8)],
    };
    let (entry, segs) = load_plan(&elf).unwrap();
    assert_eq!(entry, 0x40_1000);
    assert_eq!(segs.len(), 2);
    assert_eq!(segs[0], LoadSegment { vaddr: 0x40_0000, memsz: 0x2000, align: 0x1000, offset: 0x1000, filesz: 0x10 });
    assert_eq!(segs[1].vaddr, 0x60_0000);
}

#[test]
fn load_plans_refuse_bad_headers() {
    let bad_align = ElfImage { entry: 1, program_headers: vec![header(PT_LOAD, 0x40_0000, 0x10, 3)] };
    assert!(load_plan(&bad_align).is_none());
    let kernel_addr = ElfImage { entry: 1, program_headers: vec![header(PT_LOAD, 0x8000_0000_0000, 0x10, 8)] };
    assert!(load_plan(&kernel_addr).is_none());
    let zero_align = ElfImage { entry: 1, program_headers: vec![header(PT_LOAD, 0x1000, 0x10, 0)] };
    assert!(load_plan(&zero_align).is_none());
    let no_entry = ElfImage { entry: 0, program_headers: vec![] };
    assert!(load_plan(&no_entry).is_none());
    let not_loadable = ElfImage { entry: 5, program_headers: vec![header(4, 0xFFFF_FFFF_FFFF_0000, 0, 3)] };
    assert_eq!(load_plan(&not_loadable).unwrap().1.len(), 0);
}

fn frames(free: u64) -> PhysicalMemoryManager {
    PhysicalMemoryManager::new(
        AddrRange::new(Addr::<UMASpace>::new(0), 0x10_0000),
        &vec![AddrRange::new(Addr::<UMASpace>::new(0x1_0000), free)],
    )
}

#[test]
fn read_elf_parses_the_file() {
    let image = elf_image();
    let mut vfs = Vfs::new();
    init_initrd(&mut vfs, archive(&[("init", &image)]));
    let mut file = File::open(&vfs, b"init").unwrap();
    let load = read_elf(&mut file).unwrap();
    assert_eq!(load.image, image);
    assert_eq!(load.entry, 0x40_1000);
    assert_eq!(load.segments.len(), 1);
    assert_eq!(load.segments[0], LoadSegment { vaddr: 0x40_0000, memsz: 0x1000, align: 0x1000, offset: 0, filesz: 120 });
}

#[test]
fn load_elf_refuses_what_is_not_elf() {
    let mut vfs = Vfs::new();
    init_initrd(&mut vfs, archive(&[("text", b"just some text, not an executable at all")]));
    let mut file = File::open(&vfs, b"text").unwrap();
    assert!(read_elf(&mut file).is_none());
    let mut pmm = frames(0x1_0000);
    let mut mem = TaskMemory::new();
    assert!(load_elf(&mut file, &mut mem, &mut pmm).is_none());
    assert!(mem.read(0x40_0000).is_none());
}

#[test]
fn load_elf_maps_and_fills_the_segments() {
    let image = elf_image();
    let mut vfs = Vfs::new();
    init_initrd(&mut vfs, archive(&[("init", &image)]));
    let mut file = File::open(&vfs, b"init").unwrap();
    let mut pmm = frames(0x1_0000);
    let mut mem = TaskMemory::new();
    assert_eq!(load_elf(&mut file, &mut mem, &mut pmm), Some(0x40_1000));
    for k in 0..120u64 {
        assert_eq!(mem.read(0x40_0000 + k), Some(image[k as usize]));
    }
    // Past the file bytes nothing was stored; the next page is not mapped.
    assert_eq!(mem.read(0x40_0000 + 200), None);
    assert_eq!(mem.read(0x40_1000), None);
    // Loading it again finds its page mapped already.
    assert_eq!(load_elf(&mut file, &mut mem, &mut pmm), None);
}

#[test]
fn load_elf_fails_without_frames() {
    let image = elf_image();
    let mut vfs = Vfs::new();
    init_initrd(&mut vfs, archive(&[("init", &image)]));
    let mut file = File::open(&vfs, b"init").unwrap();
    let mut pmm = frames(0);
    let mut mem = TaskMemory::new();
    assert_eq!(load_elf(&mut file, &mut mem, &mut pmm), None);
}

#[test]
fn segments_span_pages_from_an_unaligned_address() {
    let image: Vec<u8> = (0..0x30u8).collect();
    let segs = vec![LoadSegment { vaddr: 0x40_0FF0, memsz: 0x20, align: 0x10, offset: 0x8, filesz: 0x18 }];
    let mut pmm = frames(0x1_0000);
    let mut mem = TaskMemory::new();
    assert!(load_segments(&image, &segs, &mut mem, &mut pmm));
    assert_eq!(mem.read(0x40_0FF0), Some(0x8));
    assert_eq!(mem.read(0x40_1007), Some(0x1F));
    assert_eq!(mem.read(0x40_1008), None);
    // A segment whose file bytes do not fit is refused before anything is
    // mapped.
    let bad = vec![LoadSegment { vaddr: 0x50_0000, memsz: 0x10, align: 0x10, offset: 0x28, filesz: 0x10 }];
    assert!(!load_segments(&image, &bad, &mut mem, &mut pmm));
    assert_eq!(mem.read(0x50_0000), None);
}
