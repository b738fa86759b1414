//! A read-only file system over a ustar archive held in memory.
use crate::fs::{Error, FileSystem, INode, Stat};
use crate::mem::addr::next_multiple;
use std::sync::Arc;
use vstd::prelude::*;

verus! {

/// Size of an archive block, and of a header.
pub const BLOCK_SIZE: u64 = 512;

/// Offset of the name field in a header.
pub const NAME_OFF: u64 = 0;

/// Length of the name field.
pub const NAME_LEN: u64 = 100;

/// Offset of the size field.
pub const SIZE_OFF: u64 = 124;

/// Length of the size field.
pub const SIZE_LEN: u64 = 12;

/// Offset of the prefix field.
pub const PREFIX_OFF: u64 = 345;

/// Length of the prefix field.
pub const PREFIX_LEN: u64 = 155;

/// The bytes of `s` before its first NUL, or all of them if it has none.
pub open spec fn until_nul(s: Seq<u8>) -> Seq<u8>
    decreases s.len(),
{
    if s.len() == 0 {
        s
    } else if s[0] == 0 {
        Seq::empty()
    } else {
        seq![s[0]] + until_nul(s.drop_first())
    }
}

/// The value of the octal digits `s`, most significant first; a byte below
/// `'0'` wraps around as a digit, as unsigned byte subtraction does.
pub open spec fn octal_value(s: Seq<u8>) -> int
    decreases s.len(),
{
    if s.len() == 0 {
        0
    } else {
        octal_value(s.drop_last()) * 8 + (s.last() as int - 0x30) % 256
    }
}

/// The name of the header at `off`: its prefix field, then its name field,
/// each up to its first NUL.
pub open spec fn name_at(tape: Seq<u8>, off: int) -> Seq<u8> {
    until_nul(tape.subrange(off + PREFIX_OFF, off + PREFIX_OFF + PREFIX_LEN)) + until_nul(
        tape.subrange(off + NAME_OFF, off + NAME_OFF + NAME_LEN),
    )
}

/// The file size recorded in the header at `off`: the first 11 bytes of
/// its size field, in octal.
pub open spec fn size_at(tape: Seq<u8>, off: int) -> int {
    octal_value(tape.subrange(off + SIZE_OFF, off + SIZE_OFF + 11))
}

/// The offset of the header after the one at `off`: past the header and
/// its file, rounded up to whole blocks.
pub open spec fn next_header(tape: Seq<u8>, off: int) -> int {
    off + BLOCK_SIZE + next_multiple(size_at(tape, off), BLOCK_SIZE as int)
}

/// The offset of the first header, from `off` on, named `path`; the walk
/// stops at the first header that does not fit in the archive.
pub open spec fn find_from(tape: Seq<u8>, path: Seq<u8>, off: int) -> Option<int>
    decreases (if off <= tape.len() {
        tape.len() - off
    } else {
        0
    }),
{
    if off < 0 || off + BLOCK_SIZE > tape.len() {
        None
    } else if name_at(tape, off) == path {
        Some(off)
    } else {
        proof {
            lemma_next_header_advances(tape, off);
        }
        find_from(tape, path, next_header(tape, off))
    }
}

/// The next header lies at least a block further on.
pub proof fn lemma_next_header_advances(tape: Seq<u8>, off: int)
    ensures
        next_header(tape, off) >= off + BLOCK_SIZE,
        size_at(tape, off) >= 0,
{
    let size = size_at(tape, off);
    lemma_octal_nonneg(tape.subrange(off + SIZE_OFF, off + SIZE_OFF + 11));
    vstd::arithmetic::div_mod::lemma_mod_multiples_basic(size, BLOCK_SIZE as int);
    assert(size * BLOCK_SIZE >= size) by (nonlinear_arith)
        requires
            size >= 0,
    ;
    crate::mem::addr::lemma_next_multiple(size, BLOCK_SIZE as int, size * BLOCK_SIZE);
}

/// A header found by the walk lies within the archive.
pub proof fn lemma_find_fits(tape: Seq<u8>, path: Seq<u8>, off: int)
    ensures
        find_from(tape, path, off).is_some() ==> find_from(tape, path, off).unwrap() + BLOCK_SIZE
            <= tape.len(),
    decreases (if off <= tape.len() {
        tape.len() - off
    } else {
        0
    }),
{
    if off >= 0 && off + BLOCK_SIZE <= tape.len() && name_at(tape, off) != path {
        lemma_next_header_advances(tape, off);
        lemma_find_fits(tape, path, next_header(tape, off));
    }
}

/// The header at `h` is reached by the walk from `off`: the walk passes
/// through it, each header before it fitting in the archive.
pub open spec fn walk_reaches(tape: Seq<u8>, off: int, h: int) -> bool
    decreases (if off <= tape.len() {
        tape.len() - off
    } else {
        0
    }),
{
    if off < 0 || off + BLOCK_SIZE > tape.len() {
        false
    } else if off == h {
        true
    } else {
        proof {
            lemma_next_header_advances(tape, off);
        }
        walk_reaches(tape, next_header(tape, off), h)
    }
}

/// The law of the header search: a header found is one the walk reaches
/// whose name is exactly `path` (prefix then name field, each up to its
/// NUL), and no header the walk reaches before it has that name; when none
/// is found, no header the walk reaches has that name.
pub proof fn lemma_find_exact(tape: Seq<u8>, path: Seq<u8>, off: int)
    ensures
        find_from(tape, path, off) matches Some(h) ==> {
            &&& walk_reaches(tape, off, h)
            &&& name_at(tape, h) == path
            &&& forall|g: int| g < h && #[trigger] walk_reaches(tape, off, g) ==> name_at(tape, g) != path
        },
        find_from(tape, path, off) is None ==> forall|g: int|
            #[trigger] walk_reaches(tape, off, g) ==> name_at(tape, g) != path,
    decreases (if off <= tape.len() {
        tape.len() - off
    } else {
        0
    }),
{
    if off >= 0 && off + BLOCK_SIZE <= tape.len() {
        lemma_next_header_advances(tape, off);
        let nx = next_header(tape, off);
        lemma_find_exact(tape, path, nx);
        if name_at(tape, off) == path {
            assert forall|g: int| g < off && #[trigger] walk_reaches(tape, off, g) implies name_at(tape, g) != path by {
                lemma_walk_forward(tape, off, g);
            }
        } else {
            assert forall|g: int| #[trigger] walk_reaches(tape, off, g) && g != off implies walk_reaches(tape, nx, g) by {}
            if let Some(h) = find_from(tape, path, off) {
                lemma_walk_forward(tape, nx, h);
                assert(walk_reaches(tape, off, h));
                assert forall|g: int| g < h && #[trigger] walk_reaches(tape, off, g) implies name_at(tape, g) != path by {
                    if g != off {
                        assert(walk_reaches(tape, nx, g));
                    }
                }
            } else {
                assert forall|g: int| #[trigger] walk_reaches(tape, off, g) implies name_at(tape, g) != path by {
                    if g != off {
                        assert(walk_reaches(tape, nx, g));
                    }
                }
            }
        }
    }
}

/// A header the walk reaches lies at or after the walk's start.
pub proof fn lemma_walk_forward(tape: Seq<u8>, off: int, h: int)
    ensures
        walk_reaches(tape, off, h) ==> off <= h,
    decreases (if off <= tape.len() {
        tape.len() - off
    } else {
        0
    }),
{
    if off >= 0 && off + BLOCK_SIZE <= tape.len() && off != h {
        lemma_next_header_advances(tape, off);
        lemma_walk_forward(tape, next_header(tape, off), h);
    }
}

/// Octal values are not negative.
pub proof fn lemma_octal_nonneg(s: Seq<u8>)
    ensures
        octal_value(s) >= 0,
    decreases s.len(),
{
    if s.len() > 0 {
        lemma_octal_nonneg(s.drop_last());
    }
}

/// The value of `n` octal digits, each at most 255, is at most
/// `37 * (8^n - 1)`.
pub proof fn lemma_octal_bound(s: Seq<u8>)
    ensures
        0 <= octal_value(s) <= 37 * pow8(s.len()) - 37,
    decreases s.len(),
{
    if s.len() > 0 {
        lemma_octal_bound(s.drop_last());
        assert(pow8(s.len()) == 8 * pow8((s.len() - 1) as nat));
    }
}

/// Eight to the power `n`.
pub open spec fn pow8(n: nat) -> int
    decreases n,
{
    if n == 0 {
        1
    } else {
        8 * pow8((n - 1) as nat)
    }
}

/// The value of octal digits, most significant first; a byte below `'0'`
/// wraps around as a digit.
pub fn octal2usize(octal: &[u8]) -> (r: u64)
    requires
        octal@.len() <= 11,
    ensures
        r == octal_value(octal@),
{
    let mut sum: u64 = 0;
    let mut i: usize = 0;
    proof {
        assert(pow8(11) == 8589934592) by {
            reveal_with_fuel(pow8, 12);
        }
    }
    while i < octal.len()
        invariant
            i <= octal@.len() <= 11,
            sum == octal_value(octal@.take(i as int)),
            pow8(11) == 8589934592,
        decreases octal@.len() - i,
    {
        proof {
            lemma_octal_bound(octal@.take(i as int));
            assert(octal@.take(i + 1).drop_last() =~= octal@.take(i as int));
            lemma_pow8_mono(i as nat, 10);
            assert(pow8(10) == 1073741824) by {
                reveal_with_fuel(pow8, 11);
            }
        }
        let digit = octal[i].wrapping_sub(0x30);
        assert(digit == (octal@[i as int] as int - 0x30) % 256);
        sum = sum * 8 + digit as u64;
        i = i + 1;
    }
    assert(octal@.take(i as int) =~= octal@);
    sum
}

/// Powers of eight grow.
proof fn lemma_pow8_mono(a: nat, b: nat)
    requires
        a <= b,
    ensures
        1 <= pow8(a) <= pow8(b),
    decreases b,
{
    if b > 0 {
        if a < b {
            lemma_pow8_mono(a, (b - 1) as nat);
        } else {
            lemma_pow8_mono((a - 1) as nat, (b - 1) as nat);
        }
    }
}

/// The bytes `tape[start .. start + len]`.
fn copy_range(tape: &[u8], start: usize, len: usize) -> (r: Vec<u8>)
    requires
        start + len <= tape@.len(),
    ensures
        r@ == tape@.subrange(start as int, start + len),
{
    let total = tape.len();
    let mut v: Vec<u8> = Vec::new();
    let mut i: usize = 0;
    while i < len
        invariant
            total == tape@.len(),
            i <= len,
            start + len <= tape@.len(),
            v@ == tape@.subrange(start as int, start + i),
        decreases len - i,
    {
        v.push(tape[start + i]);
        i = i + 1;
    }
    v
}

/// The bytes of `s` before its first NUL.
fn until_nul_exec(s: &Vec<u8>) -> (r: Vec<u8>)
    ensures
        r@ == until_nul(s@),
{
    let mut n: usize = 0;
    while n < s.len() && s[n] != 0
        invariant
            n <= s@.len(),
            forall|k: int| 0 <= k < n ==> s@[k] != 0,
        decreases s@.len() - n,
    {
        n = n + 1;
    }
    proof {
        lemma_until_nul(s@, n as int);
    }
    copy_range(s.as_slice(), 0, n)
}

/// The bytes before the first NUL, when it is at `n` (or `n` is the end).
proof fn lemma_until_nul(s: Seq<u8>, n: int)
    requires
        0 <= n <= s.len(),
        forall|k: int| 0 <= k < n ==> s[k] != 0,
        n < s.len() ==> s[n] == 0,
    ensures
        until_nul(s) == s.subrange(0, n),
    decreases s.len(),
{
    if s.len() == 0 {
    } else if s[0] == 0 {
        assert(n == 0);
    } else {
        lemma_until_nul(s.drop_first(), n - 1);
        assert(seq![s[0]] + s.drop_first().subrange(0, n - 1) =~= s.subrange(0, n));
    }
}

/// Whether `a` and `b` hold the same bytes.
fn bytes_eq(a: &Vec<u8>, b: &[u8]) -> (r: bool)
    ensures
        r == (a@ == b@),
{
    if a.len() != b.len() {
        return false;
    }
    let mut i: usize = 0;
    while i < a.len()
        invariant
            a@.len() == b@.len(),
            i <= a@.len(),
            forall|k: int| 0 <= k < i ==> a@[k] == b@[k],
        decreases a@.len() - i,
    {
        if a[i] != b[i] {
            return false;
        }
        i = i + 1;
    }
    assert(a@ =~= b@);
    true
}

/// The fields of a header that the file system reads.
pub struct Header {
    pub name: Vec<u8>,
    pub mode: Vec<u8>,
    pub uid: Vec<u8>,
    pub gid: Vec<u8>,
    pub size: Vec<u8>,
    pub prefix: Vec<u8>,
}

impl Header {
    /// The header fields of the header at `off` of `tape`.
    pub open spec fn at(self, tape: Seq<u8>, off: int) -> bool {
        &&& self.name@ == tape.subrange(off + NAME_OFF, off + NAME_OFF + NAME_LEN)
        &&& self.mode@ == tape.subrange(off + 100, off + 108)
        &&& self.uid@ == tape.subrange(off + 108, off + 116)
        &&& self.gid@ == tape.subrange(off + 116, off + 124)
        &&& self.size@ == tape.subrange(off + SIZE_OFF, off + SIZE_OFF + SIZE_LEN)
        &&& self.prefix@ == tape.subrange(off + PREFIX_OFF, off + PREFIX_OFF + PREFIX_LEN)
    }

    /// Reads the header at `off` of `tape`.
    pub fn read(tape: &[u8], off: usize) -> (r: Self)
        requires
            off + BLOCK_SIZE <= tape@.len(),
        ensures
            r.at(tape@, off as int),
    {
        let total = tape.len();
        assert(off + 512 <= total);
        Header {
            name: copy_range(tape, off, 100),
            mode: copy_range(tape, off + 100, 8),
            uid: copy_range(tape, off + 108, 8),
            gid: copy_range(tape, off + 116, 8),
            size: copy_range(tape, off + 124, 12),
            prefix: copy_range(tape, off + 345, 155),
        }
    }

    /// Returns the name: the prefix, then the name field, each up to its
    /// first NUL.
    pub fn name(&self) -> (r: Vec<u8>)
        ensures
            r@ == until_nul(self.prefix@) + until_nul(self.name@),
    {
        let mut res = until_nul_exec(&self.prefix);
        let mut suffix = until_nul_exec(&self.name);
        res.append(&mut suffix);
        res
    }

    /// Returns the file size: the first 11 bytes of the size field, in
    /// octal.
    pub fn size(&self) -> (r: u64)
        requires
            self.size@.len() == SIZE_LEN,
        ensures
            r == octal_value(self.size@.subrange(0, 11)),
    {
        let digits = copy_range(self.size.as_slice(), 0, 11);
        octal2usize(digits.as_slice())
    }
}

/// A ustar archive file system.
pub struct UStarFs(Arc<Vec<u8>>);

impl Clone for UStarFs {
    fn clone(&self) -> (r: Self)
        ensures
            r.tape() == self.tape(),
    {
        UStarFs(Arc::clone(&self.0))
    }
}

impl UStarFs {
    /// The bytes of the archive.
    pub closed spec fn tape(&self) -> Seq<u8> {
        (*self.0)@
    }

    /// The file system of the archive `buf`.
    pub fn new(buf: Vec<u8>) -> (r: Self)
        ensures
            r.tape() == buf@,
    {
        UStarFs(Arc::new(buf))
    }

    /// The offset of the first header named `path`; see [`find_from`].
    pub fn find_header_off(tape: &[u8], path: &[u8]) -> (r: Option<u64>)
        ensures
            r.is_some() == find_from(tape@, path@, 0).is_some(),
            r.is_some() ==> r.unwrap() == find_from(tape@, path@, 0).unwrap(),
    {
        let len = tape.len();
        let mut header_off: usize = 0;
        while header_off <= len && len - header_off >= 512
            invariant
                len == tape@.len(),
                find_from(tape@, path@, 0) == find_from(tape@, path@, header_off as int),
            decreases tape@.len() - header_off,
        {
            let header = Header::read(tape, header_off);
            let name = header.name();
            if bytes_eq(&name, path) {
                return Some(header_off as u64);
            }
            let size = header.size();
            proof {
                assert(header.size@.subrange(0, 11) =~= tape@.subrange(
                    header_off + SIZE_OFF,
                    header_off + SIZE_OFF + 11,
                ));
                lemma_next_header_advances(tape@, header_off as int);
                lemma_octal_bound(header.size@.subrange(0, 11));
                assert(pow8(11) == 8589934592) by {
                    reveal_with_fuel(pow8, 12);
                }
                vstd::arithmetic::div_mod::lemma_mod_multiples_basic(size as int, BLOCK_SIZE as int);
                assert(size as int * BLOCK_SIZE >= size) by (nonlinear_arith);
                crate::mem::addr::lemma_next_multiple(
                    size as int,
                    BLOCK_SIZE as int,
                    size as int * BLOCK_SIZE,
                );
            }
            let rem = size % BLOCK_SIZE;
            let padded = if rem == 0 {
                size
            } else {
                size - rem + BLOCK_SIZE
            };
            let step = 512 + padded;
            if step > (len - header_off) as u64 {
                proof {
                    assert(find_from(tape@, path@, next_header(tape@, header_off as int)) is None);
                }
                return None;
            }
            header_off = header_off + step as usize;
        }
        None
    }
}

/// A node of a ustar file system: the header at an offset of the archive.
pub struct UStarNode {
    fs: UStarFs,
    header_off: u64,
}

/// The number of bytes a read at `offset` into a buffer of `buf_len` bytes
/// copies from the file of the header at `off`: `None` when the file does
/// not lie within the archive or `offset` is past its end.
pub open spec fn read_count(tape: Seq<u8>, off: int, offset: int, buf_len: int) -> Option<int> {
    let size = size_at(tape, off);
    if off + BLOCK_SIZE > tape.len() || off + BLOCK_SIZE + size > tape.len() || offset > size {
        None
    } else if buf_len <= size - offset {
        Some(buf_len)
    } else {
        Some(size - offset)
    }
}

impl UStarNode {
    /// The archive of the node.
    pub closed spec fn tape(&self) -> Seq<u8> {
        self.fs.tape()
    }

    /// The offset of the node's header.
    pub closed spec fn offset(&self) -> int {
        self.header_off as int
    }
}

impl FileSystem for UStarFs {
    type Node = UStarNode;

    fn root(&self) -> (r: UStarNode)
        ensures
            r.tape() == self.tape(),
            r.offset() == 0,
    {
        UStarNode { fs: self.clone(), header_off: 0 }
    }

    fn resolve(&self, path: &[u8]) -> (r: Option<UStarNode>)
        ensures
            r.is_some() == find_from(self.tape(), path@, 0).is_some(),
            r.is_some() ==> r.unwrap().tape() == self.tape() && r.unwrap().offset() == find_from(
                self.tape(),
                path@,
                0,
            ).unwrap(),
    {
        let header_off = Self::find_header_off(self.0.as_slice(), path)?;
        Some(UStarNode { fs: self.clone(), header_off })
    }
}

impl INode for UStarNode {
    fn read(&self, offset: u64, buf: &mut Vec<u8>) -> (r: Result<u64, Error>)
        ensures
            read_count(self.tape(), self.offset(), offset as int, old(buf)@.len() as int).is_none()
                ==> r == Err::<u64, Error>(Error::Unknown) && final(buf)@ == old(buf)@,
            read_count(self.tape(), self.offset(), offset as int, old(buf)@.len() as int).is_some()
                ==> {
                let n = read_count(self.tape(), self.offset(), offset as int, old(buf)@.len() as int).unwrap();
                let start = self.offset() + BLOCK_SIZE + offset;
                &&& r == Ok::<u64, Error>(n as u64)
                &&& final(buf)@ == self.tape().subrange(start, start + n) + old(buf)@.skip(n)
            },
    {
        let tape = self.fs.0.as_slice();
        let off = self.header_off;
        if off > tape.len() as u64 || tape.len() as u64 - off < BLOCK_SIZE {
            return Err(Error::Unknown);
        }
        let offu = off as usize;
        let header = Header::read(tape, offu);
        let size = header.size();
        proof {
            assert(header.size@.subrange(0, 11) =~= tape@.subrange(off + SIZE_OFF, off + SIZE_OFF + 11));
        }
        if tape.len() as u64 - off - BLOCK_SIZE < size {
            return Err(Error::Unknown);
        }
        if offset > size {
            return Err(Error::Unknown);
        }
        let available = size - offset;
        let n = if (buf.len() as u64) <= available {
            buf.len() as u64
        } else {
            available
        };
        let start = (off + BLOCK_SIZE + offset) as usize;
        let nu = n as usize;
        let total = tape.len();
        let mut i: usize = 0;
        while i < nu
            invariant
                total == tape@.len(),
                i <= nu,
                nu == n,
                n <= old(buf)@.len(),
                start + n <= tape@.len(),
                buf@.len() == old(buf)@.len(),
                forall|k: int| 0 <= k < buf@.len() ==> #[trigger] buf@[k] == if k < i {
                    tape@[start + k]
                } else {
                    old(buf)@[k]
                },
            decreases nu - i,
        {
            buf.set(i, tape[start + i]);
            i = i + 1;
        }
        assert(buf@ =~= tape@.subrange(start as int, start + n) + old(buf)@.skip(n as int));
        Ok(n)
    }

    fn stat(&self) -> (r: Stat)
        ensures
            self.offset() + BLOCK_SIZE <= self.tape().len() ==> r.size == size_at(self.tape(), self.offset()),
    {
        let tape = self.fs.0.as_slice();
        let off = self.header_off;
        if off > tape.len() as u64 || tape.len() as u64 - off < BLOCK_SIZE {
            return Stat { size: 0 };
        }
        let header = Header::read(tape, off as usize);
        proof {
            assert(header.size@.subrange(0, 11) =~= tape@.subrange(off + SIZE_OFF, off + SIZE_OFF + 11));
        }
        Stat { size: header.size() }
    }
}

} // verus!
