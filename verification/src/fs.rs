//! File systems: a ustar archive as the initial ramdisk, mounted at the
//! root of a virtual file system.
use crate::fs::ustar::{UStarFs, UStarNode};
use crate::fs::vfs::Vfs;
use vstd::prelude::*;

pub mod elf;
pub mod initramfs;
pub mod ustar;
pub mod vfs;

verus! {

/// A file-system error.
#[derive(Debug, Clone, Copy, PartialEq, Eq, Structural)]
pub enum Error {
    Unimplemented,
    Unknown,
}

/// What is known of a file.
#[derive(Debug, Clone, Copy, PartialEq, Eq, Structural)]
pub struct Stat {
    pub size: u64,
}

/// A file system.
pub trait FileSystem {
    /// The nodes of the file system.
    type Node: INode;

    /// The root node.
    fn root(&self) -> Self::Node;

    /// The node at `path`, if any.
    fn resolve(&self, path: &[u8]) -> Option<Self::Node>;
}

/// A node of a file system.
pub trait INode {
    /// Reads from `offset` into `buf`; returns the number of bytes read.
    fn read(&self, offset: u64, buf: &mut Vec<u8>) -> Result<u64, Error>;

    /// What is known of the node.
    fn stat(&self) -> Stat;
}

/// Mounts the ustar archive `rd` as the root of `vfs`.
pub fn init_initrd(vfs: &mut Vfs, rd: Vec<u8>)
    ensures
        final(vfs).mounts().len() == old(vfs).mounts().len() + 1,
        final(vfs).mounts()[0].tape() == rd@,
        final(vfs).mounts().drop_first() == old(vfs).mounts(),
{
    let fs = UStarFs::new(rd);
    let root: [u8; 1] = [0x2fu8];
    assert(root@ =~= seq![0x2fu8]);
    vfs.mount(fs, root.as_slice());
}

/// A file handle: a node and a position.
pub struct File {
    pos: u64,
    inode: UStarNode,
}

impl File {
    /// The position of the handle.
    pub closed spec fn position(&self) -> u64 {
        self.pos
    }

    /// The node of the handle.
    pub closed spec fn node(&self) -> UStarNode {
        self.inode
    }

    /// Returns the node of the file.
    pub fn inode(&self) -> (r: &UStarNode)
        ensures
            *r == self.node(),
    {
        &self.inode
    }

    /// Opens the file at `path` in `vfs`, at position 0.
    pub fn open(vfs: &Vfs, path: &[u8]) -> (r: Option<Self>)
        requires
            vfs.mounts().len() > 0,
        ensures
            r.is_some() <==> ustar::find_from(vfs.mounts()[0].tape(), path@, 0).is_some(),
            r.is_some() ==> r.unwrap().position() == 0 && r.unwrap().node().offset() == ustar::find_from(
                vfs.mounts()[0].tape(),
                path@,
                0,
            ).unwrap() && r.unwrap().node().tape() == vfs.mounts()[0].tape(),
    {
        let inode = vfs.resolve(path)?;
        Some(File { pos: 0, inode })
    }

    /// Reads from the position into `buf`; `None` on an error. The position
    /// does not move.
    pub fn read(&mut self, buf: &mut Vec<u8>) -> (r: Option<u64>)
        ensures
            *final(self) == *old(self),
            ({
                let count = ustar::read_count(
                    old(self).node().tape(),
                    old(self).node().offset(),
                    old(self).position() as int,
                    old(buf)@.len() as int,
                );
                let start = old(self).node().offset() + ustar::BLOCK_SIZE + old(self).position();
                match count {
                    None => r.is_none() && final(buf)@ == old(buf)@,
                    Some(n) => r == Some(n as u64) && final(buf)@ == old(self).node().tape().subrange(
                        start,
                        start + n,
                    ) + old(buf)@.skip(n),
                }
            }),
    {
        match self.inode.read(self.pos, buf) {
            Ok(n) => Some(n),
            Err(_) => None,
        }
    }

    /// Closes the file.
    pub fn close(self) {
    }
}

} // verus!
