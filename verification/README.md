# kernel

The memory management, scheduling and driver logic of a small x86_64 kernel,
written in Verus: every function under `src/` carries a contract that Verus
proves, and `app/` holds the parts that only run on the machine.

## What is proved

- `mem::addr`: address and page arithmetic (alignment, ranges, page ranges),
  free of overflow.
- `mem::memblock`: the boot-time memory manager. Free memory is a sorted list
  of extents that never meet; every allocation keeps an extent of its own, so
  freeing one address gives back exactly what `allocate` handed out there.
- `mem::phy`: the buddy allocator over physical frames and the physical
  memory manager built on it; a block handed out is free before and held
  after, and every other block keeps its state.
- `mem::allocator`: page and slab allocators. A slab cache hands out the first
  free slot of its first partial slab, else of its first empty slab, else of a
  new slab on a fresh page.
- `mem::paging`: page-table entries, tables and the address-space map. After
  `map`, every address of the virtual page maps to the same offset in the
  physical page (`lemma_translate_in_page`).
- `fs::elf`: ELF load plans and loading them into a task's memory
  (`usr::TaskMemory`, a model of the pages and bytes a task owns).
- `sched`, `interrupt`, `sync`, `drivers`: the scheduler's queues and
  reschedule step, the interrupt-guard counter, the VGA buffer, the serial
  line and the PS/2 keyboard decoder.

## Outside crates

`arrayvec`, `goblin` and `ringbuf` are called through a few trusted wrappers,
each with a doc comment saying what its contract claims of the crate.
Bit fields are plain integer arithmetic with proofs, and page-table flags are
`u16` constants. The scheduler's run queues are `VecDeque`s rather than
intrusive linked lists, whose adapters need `unsafe` code.

## app/

The boot entry, which reads the memory map that `multiboot2` hands over,
the `in`/`out` instructions behind the serial line and the PIC, and the loop
that feeds keyboard bytes to the library: the I/O edge, with no logic of its
own.
