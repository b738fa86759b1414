//! The initial ramdisk, a ustar archive.
use crate::fs::ustar::{find_from, octal_value, Header, UStarFs, BLOCK_SIZE, SIZE_LEN};
use vstd::prelude::*;

verus! {

/// The initial ramdisk.
pub struct InitRamFs {
    pub tape: Vec<u8>,
}

impl InitRamFs {
    /// The ramdisk of the archive `tape`.
    pub fn mount(tape: Vec<u8>) -> (r: Self)
        ensures
            r.tape@ == tape@,
    {
        InitRamFs { tape }
    }

    /// The header of the file at `path`, if the archive has one, and its
    /// offset.
    pub fn lookup(&self, path: &[u8]) -> (r: Option<(u64, Header)>)
        ensures
            r.is_some() == find_from(self.tape@, path@, 0).is_some(),
            r.is_some() ==> r.unwrap().0 == find_from(self.tape@, path@, 0).unwrap() && r.unwrap().1.at(
                self.tape@,
                r.unwrap().0 as int,
            ),
    {
        let n = self.tape.len();
        let off = UStarFs::find_header_off(self.tape.as_slice(), path)?;
        proof {
            crate::fs::ustar::lemma_find_fits(self.tape@, path@, 0);
        }
        assert(off < n);
        let offu = off as usize;
        Some((off, Header::read(self.tape.as_slice(), offu)))
    }

    /// Where the file of `header`, found at offset `header_off` of the
    /// archive, lies: the offset of its first byte, the block after the
    /// header, and its size.
    pub fn file_start(header_off: u64, header: &Header) -> (r: (u64, u64))
        requires
            header_off + BLOCK_SIZE <= u64::MAX,
            header.size@.len() == SIZE_LEN,
        ensures
            r.0 == header_off + BLOCK_SIZE,
            r.1 == octal_value(header.size@.subrange(0, 11)),
    {
        (header_off + BLOCK_SIZE as u64, header.size())
    }
}

} // verus!
