//! Core logic of a small x86-64 kernel: address arithmetic, physical memory
//! bookkeeping (boot-time memblocks, buddy system, page bitmaps, slabs),
//! paging-entry encoding, a ustar reader, descriptor encoders and the
//! text-mode/keyboard state machines.

use vstd::prelude::*;

pub mod arch;
pub mod common;
pub mod drivers;
pub mod fs;
pub mod interrupt;
pub mod io;
pub mod mem;
pub mod sched;
pub mod sync;
pub mod usr;
