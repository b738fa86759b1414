//! The virtual file system: the mounted file systems.
use crate::fs::ustar::{find_from, UStarFs, UStarNode};
use crate::fs::FileSystem;
use vstd::prelude::*;

verus! {

/// The virtual file system; only the root mount is supported, and the last
/// file system mounted there is used.
pub struct Vfs {
    mounts: Vec<UStarFs>,
}

impl Vfs {
    /// The mounted file systems, the one in use first.
    pub closed spec fn mounts(&self) -> Seq<UStarFs> {
        self.mounts@
    }

    /// A file system with nothing mounted.
    pub fn new() -> (r: Self)
        ensures
            r.mounts().len() == 0,
    {
        Vfs { mounts: Vec::new() }
    }

    /// Mounts `fs` at `path`, which must be the root.
    pub fn mount(&mut self, fs: UStarFs, path: &[u8])
        requires
            path@ == seq![0x2fu8],
        ensures
            final(self).mounts() == seq![fs] + old(self).mounts(),
    {
        self.mounts.insert(0, fs);
        assert(self.mounts() =~= seq![fs] + old(self).mounts());
    }

    /// The root node of the file system in use.
    pub fn root(&self) -> (r: UStarNode)
        requires
            self.mounts().len() > 0,
        ensures
            r.tape() == self.mounts()[0].tape(),
            r.offset() == 0,
    {
        self.mounts[0].root()
    }

    /// The node at `path` in the file system in use.
    pub fn resolve(&self, path: &[u8]) -> (r: Option<UStarNode>)
        requires
            self.mounts().len() > 0,
        ensures
            r.is_some() == find_from(self.mounts()[0].tape(), path@, 0).is_some(),
            r.is_some() ==> r.unwrap().tape() == self.mounts()[0].tape() && r.unwrap().offset()
                == find_from(self.mounts()[0].tape(), path@, 0).unwrap(),
    {
        self.mounts[0].resolve(path)
    }
}

} // verus!
