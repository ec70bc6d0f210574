//! In-memory model of the filesystem façade: a flat inode table and the
//! directory entries (hard links) naming the inodes. The syscall layer
//! consumes it through the open-file handles in each process's fd table.

use vstd::prelude::*;

verus! {

/// Open flag: read-only access.
pub const FLAG_RDONLY: u32 = 0;

/// Open flag: write-only access.
pub const FLAG_WRONLY: u32 = 1;

/// Open flag: read-write access.
pub const FLAG_RDWR: u32 = 2;

/// Open flag: create the file, truncating an existing one.
pub const FLAG_CREATE: u32 = 512;

/// Open flag: truncate the file on opening.
pub const FLAG_TRUNC: u32 = 1024;

/// Largest byte size a file of the model may reach.
pub const MAX_FILE: usize = 0x1000_0000;

/// What an inode is: a regular file or a directory.
#[derive(Clone, Copy, PartialEq, Eq, Structural)]
pub enum InodeKind {
    /// A regular file.
    File,
    /// A directory.
    Dir,
}

/// One inode: its kind and its byte contents.
pub struct Inode {
    /// Regular file or directory.
    pub kind: InodeKind,
    /// The file's bytes.
    pub data: Vec<u8>,
}

/// One directory entry: a name hard-linked to an inode.
pub struct DirEnt {
    /// The entry's name.
    pub name: Vec<u8>,
    /// Index of the named inode.
    pub ino: usize,
}

/// A capability on an open file: the inode, the granted access, and the
/// read/write cursor. Handles live in the kernel's open-file table and are
/// referenced by fd slots, so a handle duplicated across a fork keeps one
/// cursor for all its holders.
#[derive(Clone, Copy)]
pub struct FileHandle {
    /// Index of the open inode.
    pub ino: usize,
    /// Reads are allowed through this handle.
    pub readable: bool,
    /// Writes are allowed through this handle.
    pub writable: bool,
    /// Byte position of the next read or write.
    pub offset: usize,
}

/// The in-memory filesystem: inodes and the links naming them. Inodes are
/// never removed, so handles stay valid; a file whose last link is gone
/// merely becomes unreachable by name.
pub struct Fs {
    /// All inodes ever created; the index is the inode number.
    pub inodes: Vec<Inode>,
    /// The directory entries.
    pub links: Vec<DirEnt>,
}

/// Number of links naming inode `ino` among the entries of `links`.
pub open spec fn count_links(links: Seq<DirEnt>, ino: int) -> int
    decreases links.len(),
{
    if links.len() == 0 {
        0
    } else {
        count_links(links.drop_last(), ino) + if links.last().ino == ino {
            1int
        } else {
            0int
        }
    }
}

/// The number of links is never negative and never exceeds the entry count.
pub proof fn lemma_count_links_nonneg(links: Seq<DirEnt>, ino: int)
    ensures
        0 <= count_links(links, ino) <= links.len(),
    decreases links.len(),
{
    if links.len() > 0 {
        lemma_count_links_nonneg(links.drop_last(), ino);
    }
}

impl Fs {
    /// Names are unique and every link names an existing inode, whose size
    /// stays within the model's file-size cap.
    pub open spec fn wf(self) -> bool {
        &&& self.links@.len() <= LINK_LIMIT
        &&& forall|i: int|
            0 <= i < self.links@.len() ==> (#[trigger] self.links@[i]).ino < self.inodes@.len()
        &&& forall|i: int, j: int|
            0 <= i < j < self.links@.len() ==> (#[trigger] self.links@[i]).name@ != (
            #[trigger] self.links@[j]).name@
        &&& forall|i: int|
            0 <= i < self.inodes@.len() ==> (#[trigger] self.inodes@[i]).data@.len() <= MAX_FILE
    }

    /// True if some directory entry carries the name.
    pub open spec fn has_link(self, name: Seq<u8>) -> bool {
        exists|i: int| 0 <= i < self.links@.len() && (#[trigger] self.links@[i]).name@ == name
    }

    /// Index of the directory entry carrying the name.
    pub open spec fn link_at(self, name: Seq<u8>) -> int {
        choose|i: int| 0 <= i < self.links@.len() && (#[trigger] self.links@[i]).name@ == name
    }

    /// The inode number the name resolves to.
    pub open spec fn ino_of(self, name: Seq<u8>) -> usize {
        self.links@[self.link_at(name)].ino
    }

    /// An empty filesystem.
    pub fn new_fs() -> (r: Fs)
        ensures
            r.wf(),
            r.inodes@.len() == 0,
            r.links@.len() == 0,
            forall|name: Seq<u8>| !r.has_link(name),
    {
        let r = Fs { inodes: Vec::new(), links: Vec::new() };
        proof {
            assert forall|name: Seq<u8>| !r.has_link(name) by {}
        }
        r
    }

    /// The directory entry carrying a name is unique.
    pub proof fn lemma_link_unique(self, name: Seq<u8>, i: int)
        requires
            self.wf(),
            0 <= i < self.links@.len(),
            self.links@[i].name@ == name,
        ensures
            self.has_link(name),
            self.link_at(name) == i,
    {
        assert(self.has_link(name));
        let k = self.link_at(name);
        if k < i {
            assert(self.links@[k].name@ != self.links@[i].name@);
        } else if i < k {
            assert(self.links@[i].name@ != self.links@[k].name@);
        }
    }

    /// Index of the directory entry for `name`, or `None` if no entry
    /// carries it.
    pub fn find_link(&self, name: &Vec<u8>) -> (r: Option<usize>)
        requires
            self.wf(),
        ensures
            match r {
                Some(i) => self.has_link(name@) && i == self.link_at(name@) && i
                    < self.links@.len(),
                None => !self.has_link(name@),
            },
    {
        let n = self.links.len();
        let mut i: usize = 0;
        while i < n
            invariant
                i <= n,
                n == self.links@.len(),
                self.wf(),
                forall|j: int| 0 <= j < i ==> (#[trigger] self.links@[j]).name@ != name@,
            decreases n - i,
        {
            if bytes_eq(&self.links[i].name, name) {
                proof {
                    self.lemma_link_unique(name@, i as int);
                }
                return Some(i);
            }
            i += 1;
        }
        None
    }

    /// Count the links naming inode `ino`.
    pub fn nlink(&self, ino: usize) -> (r: usize)
        requires
            self.wf(),
            self.links@.len() <= usize::MAX,
        ensures
            r == count_links(self.links@, ino as int),
    {
        let n = self.links.len();
        let mut c: usize = 0;
        let mut i: usize = 0;
        while i < n
            invariant
                i <= n,
                n == self.links@.len(),
                c <= i,
                c == count_links(self.links@.take(i as int), ino as int),
            decreases n - i,
        {
            proof {
                assert(self.links@.take(i + 1).drop_last() =~= self.links@.take(i as int));
                assert(self.links@.take(i + 1).last() == self.links@[i as int]);
            }
            if self.links[i].ino == ino {
                c += 1;
            }
            i += 1;
        }
        proof {
            assert(self.links@.take(n as int) =~= self.links@);
        }
        c
    }
}

/// Largest number of directory entries the model accepts.
pub const LINK_LIMIT: usize = 0x10000;

/// Bytes of a file after writing `data` at offset `off`: the write extends
/// the file as needed, and a gap left by a write past the end reads as
/// zeroes. An empty write changes nothing.
pub open spec fn file_write(d: Seq<u8>, off: int, data: Seq<u8>) -> Seq<u8> {
    if data.len() == 0 {
        d
    } else {
        Seq::new(
            if off + data.len() > d.len() {
                (off + data.len()) as nat
            } else {
                d.len()
            },
            |i: int|
                if off <= i < off + data.len() {
                    data[i - off]
                } else if i < d.len() {
                    d[i]
                } else {
                    0u8
                },
        )
    }
}

impl Fs {
    /// Write `data` at byte offset `off` of inode `ino`, growing the file as
    /// needed.
    pub fn write_at(&mut self, ino: usize, off: usize, data: &Vec<u8>)
        requires
            old(self).wf(),
            ino < old(self).inodes@.len(),
            off + data@.len() <= MAX_FILE,
        ensures
            final(self).wf(),
            final(self).links@ == old(self).links@,
            final(self).inodes@.len() == old(self).inodes@.len(),
            forall|j: int|
                0 <= j < old(self).inodes@.len() && j != ino as int ==> #[trigger] final(self).inodes@[j] == old(self).inodes@[j],
            final(self).inodes@[ino as int].kind == old(self).inodes@[ino as int].kind,
            final(self).inodes@[ino as int].data@ == file_write(
                old(self).inodes@[ino as int].data@,
                off as int,
                data@,
            ),
    {
        if data.len() == 0 {
            return ;
        }
        let node = self.inodes.remove(ino);
        let kind = node.kind;
        let mut nd = node.data;
        let ghost d0 = nd@;
        while nd.len() < off
            invariant
                nd@.len() >= d0.len(),
                nd@.len() <= (if d0.len() > off {
                    d0.len() as int
                } else {
                    off as int
                }),
                forall|i: int| 0 <= i < d0.len() ==> #[trigger] nd@[i] == d0[i],
                forall|i: int| d0.len() <= i < nd@.len() ==> #[trigger] nd@[i] == 0u8,
            decreases off - nd@.len(),
        {
            nd.push(0);
        }
        let m = data.len();
        let mut i: usize = 0;
        while i < m
            invariant
                i <= m,
                m == data@.len(),
                off + m <= MAX_FILE,
                nd@.len() >= off,
                nd@.len() == (if off + i > d0.len() {
                    off + i
                } else if d0.len() > off {
                    d0.len() as int
                } else {
                    off as int
                }),
                forall|j: int| 0 <= j < off && j < d0.len() ==> #[trigger] nd@[j] == d0[j],
                forall|j: int| d0.len() <= j < off ==> #[trigger] nd@[j] == 0u8,
                forall|j: int| off <= j < off + i ==> #[trigger] nd@[j] == data@[j - off],
                forall|j: int|
                    off + i <= j < nd@.len() && j < d0.len() ==> #[trigger] nd@[j] == d0[j],
            decreases m - i,
        {
            if off + i < nd.len() {
                nd[off + i] = data[i];
            } else {
                nd.push(data[i]);
            }
            i += 1;
        }
        proof {
            assert(nd@ =~= file_write(d0, off as int, data@));
        }
        self.inodes.insert(ino, Inode { kind, data: nd });
        proof {
            assert(self.inodes@ =~= old(self).inodes@.update(
                ino as int,
                (Inode { kind, data: self.inodes@[ino as int].data }),
            ));
        }
    }

    /// Read up to `len` bytes of inode `ino` from byte offset `off`; short
    /// at the end of the file, empty past it.
    pub fn read_at(&self, ino: usize, off: usize, len: usize) -> (v: Vec<u8>)
        requires
            self.wf(),
            ino < self.inodes@.len(),
        ensures
            v@.len() == (if off >= self.inodes@[ino as int].data@.len() {
                0int
            } else if off + len <= self.inodes@[ino as int].data@.len() {
                len as int
            } else {
                self.inodes@[ino as int].data@.len() - off
            }),
            forall|i: int|
                0 <= i < v@.len() ==> #[trigger] v@[i] == self.inodes@[ino as int].data@[off + i],
    {
        let node = &self.inodes[ino];
        let dl = node.data.len();
        let n = if off >= dl {
            0
        } else if len <= dl - off {
            len
        } else {
            dl - off
        };
        let mut v: Vec<u8> = Vec::new();
        let mut i: usize = 0;
        while i < n
            invariant
                i <= n,
                ino < self.inodes@.len(),
                n == 0 || off + n <= self.inodes@[ino as int].data@.len(),
                off + n <= usize::MAX,
                v@.len() == i,
                forall|j: int|
                    0 <= j < i ==> #[trigger] v@[j] == self.inodes@[ino as int].data@[off + j],
            decreases n - i,
        {
            v.push(self.inodes[ino].data[off + i]);
            i += 1;
        }
        v
    }

    /// Empty inode `ino`'s contents, as opening with truncation does.
    pub fn clear_data(&mut self, ino: usize)
        requires
            old(self).wf(),
            ino < old(self).inodes@.len(),
        ensures
            final(self).wf(),
            final(self).links@ == old(self).links@,
            final(self).inodes@.len() == old(self).inodes@.len(),
            forall|j: int|
                0 <= j < old(self).inodes@.len() && j != ino as int ==> #[trigger] final(self).inodes@[j] == old(self).inodes@[j],
            final(self).inodes@[ino as int].kind == old(self).inodes@[ino as int].kind,
            final(self).inodes@[ino as int].data@.len() == 0,
    {
        let node = self.inodes.remove(ino);
        self.inodes.insert(ino, Inode { kind: node.kind, data: Vec::new() });
        proof {
            assert(forall|j: int|
                0 <= j < old(self).inodes@.len() && j != ino as int ==> #[trigger] self.inodes@[j]
                    == old(self).inodes@[j]);
        }
    }

    /// Create a fresh regular file under `name`: a new inode and one link.
    pub fn create_file(&mut self, name: Vec<u8>) -> (ino: usize)
        requires
            old(self).wf(),
            !old(self).has_link(name@),
            old(self).links@.len() < LINK_LIMIT,
        ensures
            final(self).wf(),
            ino == old(self).inodes@.len(),
            final(self).inodes@.len() == old(self).inodes@.len() + 1,
            forall|j: int|
                0 <= j < old(self).inodes@.len() ==> #[trigger] final(self).inodes@[j] == old(self).inodes@[j],
            final(self).inodes@[ino as int].kind == InodeKind::File,
            final(self).inodes@[ino as int].data@.len() == 0,
            final(self).links@.len() == old(self).links@.len() + 1,
            forall|j: int|
                0 <= j < old(self).links@.len() ==> #[trigger] final(self).links@[j] == old(self).links@[j],
            final(self).links@[old(self).links@.len() as int].name@ == name@,
            final(self).links@[old(self).links@.len() as int].ino == ino,
    {
        let ino = self.inodes.len();
        self.inodes.push(Inode { kind: InodeKind::File, data: Vec::new() });
        self.links.push(DirEnt { name, ino });
        proof {
            let pre = *old(self);
            assert forall|i: int, j: int|
                0 <= i < j < self.links@.len() implies (#[trigger] self.links@[i]).name@ != (
            #[trigger] self.links@[j]).name@ by {
                if j < pre.links@.len() {
                    assert(pre.links@[i].name@ != pre.links@[j].name@);
                } else {
                    assert(self.links@[j].name@ == name@);
                    if self.links@[i].name@ == name@ {
                        assert(pre.has_link(name@));
                    }
                }
            }
        }
        ino
    }

    /// Add one hard link: `name` comes to name inode `ino` too.
    pub fn add_link(&mut self, name: Vec<u8>, ino: usize)
        requires
            old(self).wf(),
            !old(self).has_link(name@),
            ino < old(self).inodes@.len(),
            old(self).links@.len() < LINK_LIMIT,
        ensures
            final(self).wf(),
            final(self).inodes@ == old(self).inodes@,
            final(self).links@.len() == old(self).links@.len() + 1,
            forall|j: int|
                0 <= j < old(self).links@.len() ==> #[trigger] final(self).links@[j] == old(self).links@[j],
            final(self).links@[old(self).links@.len() as int].name@ == name@,
            final(self).links@[old(self).links@.len() as int].ino == ino,
    {
        self.links.push(DirEnt { name, ino });
        proof {
            let pre = *old(self);
            assert forall|i: int, j: int|
                0 <= i < j < self.links@.len() implies (#[trigger] self.links@[i]).name@ != (
            #[trigger] self.links@[j]).name@ by {
                if j < pre.links@.len() {
                    assert(pre.links@[i].name@ != pre.links@[j].name@);
                } else {
                    if self.links@[i].name@ == name@ {
                        assert(pre.has_link(name@));
                    }
                }
            }
        }
    }

    /// Remove the directory entry at index `i`: one hard link goes away.
    pub fn remove_link(&mut self, i: usize)
        requires
            old(self).wf(),
            i < old(self).links@.len(),
        ensures
            final(self).wf(),
            final(self).inodes@ == old(self).inodes@,
            final(self).links@ == old(self).links@.remove(i as int),
    {
        self.links.remove(i);
        proof {
            let pre = *old(self);
            let ii = i as int;
            assert forall|a: int, b: int|
                0 <= a < b < self.links@.len() implies (#[trigger] self.links@[a]).name@ != (
            #[trigger] self.links@[b]).name@ by {
                let a0 = if a < ii {
                    a
                } else {
                    a + 1
                };
                let b0 = if b < ii {
                    b
                } else {
                    b + 1
                };
                assert(self.links@[a] == pre.links@[a0] && self.links@[b] == pre.links@[b0]);
                assert(pre.links@[a0].name@ != pre.links@[b0].name@);
            }
        }
    }
}

/// Byte-vector equality, reflected into the views.
pub fn bytes_eq(a: &Vec<u8>, b: &Vec<u8>) -> (r: bool)
    ensures
        r == (a@ == b@),
{
    if a.len() != b.len() {
        return false;
    }
    let n = a.len();
    let mut i: usize = 0;
    while i < n
        invariant
            i <= n,
            n == a@.len() == b@.len(),
            forall|j: int| 0 <= j < i ==> a@[j] == b@[j],
        decreases n - i,
    {
        if a[i] != b[i] {
            return false;
        }
        i += 1;
    }
    proof {
        assert(a@ =~= b@);
    }
    true
}

} // verus!
