//! File and filesystem-related syscalls: fd-table management, reads and
//! writes through page-spanning user buffers, hard links, and the
//! fixed-layout status record copied byte-for-byte into user memory.

use vstd::prelude::*;

use crate::aspace::valid_cstr;
use crate::aspace::AddressSpace;
use crate::aspace::MAX_VA;
use crate::fs::count_links;
use crate::fs::file_write;
use crate::fs::FileHandle;
use crate::fs::InodeKind;
use crate::fs::FLAG_CREATE;
use crate::fs::FLAG_TRUNC;
use crate::fs::LINK_LIMIT;
use crate::fs::MAX_FILE;
use crate::kernel::fresh_pcb;
use crate::kernel::kernel_same_except_cur;
use crate::kernel::lemma_wf_update_cur;
use crate::kernel::lemma_wf_update_files;
use crate::kernel::pcb_same_except_aspace;
use crate::kernel::pcb_same_except_fd;
use crate::kernel::Kernel;
use crate::kernel::Pcb;
use crate::sysproc::u32_le_byte;
use crate::sysproc::u64_le_byte;

verus! {

/// Mode value of a regular file in the status record.
pub const MODE_FILE: u32 = 0o100000;

/// Mode value of a directory in the status record.
pub const MODE_DIR: u32 = 0o040000;

/// The fd slot exists and is occupied.
pub open spec fn fd_ok(p: Pcb, fd: int) -> bool {
    0 <= fd < p.fd_table@.len() && p.fd_table@[fd] is Some
}

/// Index into the kernel's open-file table held by the occupied fd slot.
pub open spec fn fd_slot(p: Pcb, fd: int) -> int {
    p.fd_table@[fd]->0 as int
}

/// The shared handle the current task's fd refers to.
pub open spec fn handle_of(k: Kernel, fd: int) -> FileHandle {
    k.files@[fd_slot(k.cur_task(), fd)]
}

/// The bytes the current task sees at `[va, va + len)`.
pub open spec fn user_bytes(a: AddressSpace, va: int, len: int) -> Seq<u8> {
    Seq::new(len as nat, |i: int| a.byte(va + i))
}

/// `write` succeeds: the fd is occupied and writable, the user buffer lies
/// in mapped pages of the user window, and the write stays within the
/// model's file-size cap.
pub open spec fn write_allowed(k: Kernel, fd: int, buf: int, len: int) -> bool {
    &&& fd_ok(k.cur_task(), fd)
    &&& handle_of(k, fd).writable
    &&& buf + len <= MAX_VA
    &&& k.cur_aspace().range_mapped(buf, len)
    &&& handle_of(k, fd).offset + len <= MAX_FILE
}

/// `read` succeeds: the fd is occupied and readable and the user buffer lies
/// in mapped pages of the user window.
pub open spec fn read_allowed(k: Kernel, fd: int, buf: int, len: int) -> bool {
    &&& fd_ok(k.cur_task(), fd)
    &&& handle_of(k, fd).readable
    &&& buf + len <= MAX_VA
    &&& k.cur_aspace().range_mapped(buf, len)
}

/// How many bytes a `read` of `len` bytes through `fd` returns: what is left
/// of the file past the handle's cursor, at most `len`.
pub open spec fn read_count(k: Kernel, fd: int, len: int) -> int {
    let h = handle_of(k, fd);
    let dl = k.fs.inodes@[h.ino as int].data@.len() as int;
    if h.offset >= dl {
        0
    } else if h.offset + len <= dl {
        len
    } else {
        dl - h.offset
    }
}

/// Write `len` bytes from the user buffer `buf` to the file behind `fd` at
/// the shared handle's cursor, advancing that cursor for every process
/// holding the handle; the byte count on success, `-1` with no state change
/// on a bad or unwritable fd, an unmapped buffer, or a write past the
/// file-size cap. The caller's PCB — user memory included — is untouched.
pub fn sys_write(k: &mut Kernel, fd: usize, buf: usize, len: usize) -> (r: isize)
    requires
        old(k).wf(),
        old(k).running_ok(),
    ensures
        final(k).wf(),
        final(k).running_ok(),
        (r == -1) <==> !write_allowed(*old(k), fd as int, buf as int, len as int),
        r == -1 ==> *final(k) == *old(k),
        r != -1 ==> r == len && ({
            let fi = fd_slot(old(k).cur_task(), fd as int);
            let h = handle_of(*old(k), fd as int);
            &&& final(k).tasks@ == old(k).tasks@
            &&& final(k).current == old(k).current
            &&& final(k).started == old(k).started
            &&& final(k).halted == old(k).halted
            &&& final(k).now_ms == old(k).now_ms
            &&& final(k).fs.links@ == old(k).fs.links@
            &&& final(k).fs.inodes@.len() == old(k).fs.inodes@.len()
            &&& (forall|j: int|
                0 <= j < old(k).fs.inodes@.len() && j != h.ino as int ==> #[trigger] final(k).fs.inodes@[j] == old(k).fs.inodes@[j])
            &&& final(k).fs.inodes@[h.ino as int].data@ == file_write(
                old(k).fs.inodes@[h.ino as int].data@,
                h.offset as int,
                user_bytes(old(k).cur_aspace(), buf as int, len as int),
            )
            &&& final(k).fs.inodes@[h.ino as int].kind == old(k).fs.inodes@[h.ino as int].kind
            &&& final(k).files@ == old(k).files@.update(
                fi,
                (FileHandle {
                    ino: h.ino,
                    readable: h.readable,
                    writable: h.writable,
                    offset: (h.offset + len) as usize,
                }),
            )
        }),
{
    let cur = k.current;
    if fd >= k.tasks[cur].fd_table.len() {
        return -1;
    }
    let fid = match k.tasks[cur].fd_table[fd] {
        Some(i) => i,
        None => {
            return -1;
        },
    };
    proof {
        assert(fid < k.files@.len());
    }
    let h = k.files[fid];
    if !h.writable {
        return -1;
    }
    if buf > MAX_VA || len > MAX_VA - buf {
        return -1;
    }
    let data = {
        let a = &k.tasks[cur].aspace;
        proof {
            assert(a.wf());
        }
        match a.read_bytes(buf, len) {
            Some(d) => d,
            None => {
                return -1;
            },
        }
    };
    proof {
        assert(handle_of(*old(k), fd as int).offset <= MAX_FILE);
    }
    if len > MAX_FILE - h.offset {
        return -1;
    }
    proof {
        assert(h.ino < k.fs.inodes@.len());
        assert(data@ =~= user_bytes(old(k).cur_aspace(), buf as int, len as int));
    }
    k.fs.write_at(h.ino, h.offset, &data);
    k.files[fid] = FileHandle {
        ino: h.ino,
        readable: h.readable,
        writable: h.writable,
        offset: h.offset + len,
    };
    proof {
        lemma_wf_update_files(*old(k), *k);
    }
    len as isize
}

/// Read up to `len` bytes from the file behind `fd` at the shared handle's
/// cursor into the user buffer `buf`, advancing that cursor for every
/// process holding the handle; the byte count on success (short or zero at
/// the end of the file), `-1` with no state change on a bad or unreadable fd
/// or an unmapped buffer. Of the caller's PCB only the buffer bytes change.
pub fn sys_read(k: &mut Kernel, fd: usize, buf: usize, len: usize) -> (r: isize)
    requires
        old(k).wf(),
        old(k).running_ok(),
    ensures
        final(k).wf(),
        final(k).running_ok(),
        (r == -1) <==> !read_allowed(*old(k), fd as int, buf as int, len as int),
        r == -1 ==> *final(k) == *old(k),
        r != -1 ==> r == read_count(*old(k), fd as int, len as int) && ({
            let fi = fd_slot(old(k).cur_task(), fd as int);
            let h = handle_of(*old(k), fd as int);
            &&& final(k).fs == old(k).fs
            &&& kernel_same_except_cur(*old(k), *final(k))
            &&& pcb_same_except_aspace(old(k).cur_task(), final(k).cur_task())
            &&& final(k).files@ == old(k).files@.update(
                fi,
                (FileHandle {
                    ino: h.ino,
                    readable: h.readable,
                    writable: h.writable,
                    offset: (h.offset + r) as usize,
                }),
            )
            &&& (forall|i: int|
                0 <= i < r ==> #[trigger] final(k).cur_aspace().byte(buf as int + i) == old(k).fs.inodes@[h.ino as int].data@[h.offset + i])
            &&& (forall|va2: int|
                0 <= va2 && (va2 < buf as int || va2 >= buf as int + r) && old(k).cur_aspace().is_mapped(va2 / crate::aspace::PAGE_SIZE as int) ==> #[trigger] final(k).cur_aspace().byte(va2) == old(k).cur_aspace().byte(va2))
            &&& final(k).cur_aspace().table@ == old(k).cur_aspace().table@
            &&& final(k).cur_aspace().regions@ == old(k).cur_aspace().regions@
            &&& final(k).cur_aspace().heap_base == old(k).cur_aspace().heap_base
            &&& final(k).cur_aspace().brk == old(k).cur_aspace().brk
        }),
{
    let cur = k.current;
    if fd >= k.tasks[cur].fd_table.len() {
        return -1;
    }
    let fid = match k.tasks[cur].fd_table[fd] {
        Some(i) => i,
        None => {
            return -1;
        },
    };
    proof {
        assert(fid < k.files@.len());
    }
    let h = k.files[fid];
    if !h.readable {
        return -1;
    }
    if buf > MAX_VA || len > MAX_VA - buf {
        return -1;
    }
    {
        let a = &k.tasks[cur].aspace;
        proof {
            assert(a.wf());
        }
        if !a.check_range_mapped(buf, len) {
            return -1;
        }
    }
    proof {
        assert(h.ino < k.fs.inodes@.len());
    }
    let data = k.fs.read_at(h.ino, h.offset, len);
    let n = data.len();
    proof {
        assert(n == read_count(*old(k), fd as int, len as int));
        assert(buf + n <= MAX_VA);
    }
    let ok = k.copy_to_current(buf, &data);
    proof {
        assert(ok) by {
            assert forall|i: int|
                0 <= i < n implies #[trigger] old(k).cur_aspace().is_mapped(
                (buf as int + i) / crate::aspace::PAGE_SIZE as int,
            ) by {
                assert(old(k).cur_aspace().range_mapped(buf as int, len as int));
            }
        }
    }
    let ghost mid = *k;
    k.files[fid] = FileHandle {
        ino: h.ino,
        readable: h.readable,
        writable: h.writable,
        offset: h.offset + n,
    };
    proof {
        assert(h.offset + n <= MAX_FILE);
        lemma_wf_update_files(mid, *k);
    }
    n as isize
}

/// First free fd slot at or after `i`: the first `None`, or the table's
/// length when every slot is occupied.
pub open spec fn first_free_fd(t: Seq<Option<usize>>, i: int) -> int
    decreases t.len() - i,
{
    if i < 0 || i >= t.len() {
        t.len() as int
    } else if t[i] is None {
        i
    } else {
        first_free_fd(t, i + 1)
    }
}

/// `open` succeeds: the path reads as a string from user memory, the flags
/// hold only defined bits, the name resolves or `CREATE` is given, and a fd
/// slot and (when creating) a directory entry are available.
pub open spec fn open_allowed(k: Kernel, path: int, flags: u32) -> bool {
    exists|s: Seq<u8>|
        #[trigger] valid_cstr(k.cur_aspace(), path, s) && flags & 0x603u32 == flags && (k.fs.has_link(
            s,
        ) || flags & FLAG_CREATE != 0) && (k.fs.has_link(s) || k.fs.links@.len() < LINK_LIMIT) && (
        first_free_fd(k.cur_task().fd_table@, 0) < crate::kernel::FD_LIMIT)
}

/// Open the file named by the user string at `path` under `flags`: a fresh
/// handle with its own cursor enters the open-file table, and the lowest
/// free fd slot comes to refer to it. `-1` with no state change when the
/// path cannot be read, the flags hold undefined bits, the name cannot be
/// resolved under the flags, or no slot is free. `CREATE` makes the file
/// (truncating an existing one), `TRUNC` empties it.
pub fn sys_open(k: &mut Kernel, path: usize, flags: u32) -> (r: isize)
    requires
        old(k).wf(),
        old(k).running_ok(),
    ensures
        final(k).wf(),
        final(k).running_ok(),
        (r == -1) <==> !open_allowed(*old(k), path as int, flags),
        r == -1 ==> *final(k) == *old(k),
        r != -1 ==> r == first_free_fd(old(k).cur_task().fd_table@, 0)
            && kernel_same_except_cur(*old(k), *final(k)) && pcb_same_except_fd(
            old(k).cur_task(),
            final(k).cur_task(),
        ) && ({
            let ff = first_free_fd(old(k).cur_task().fd_table@, 0);
            let fid = old(k).files@.len() as int;
            let h = final(k).files@[fid];
            &&& final(k).cur_task().fd_table@ == (if ff < old(k).cur_task().fd_table@.len() {
                old(k).cur_task().fd_table@.update(ff, Some((fid as usize)))
            } else {
                old(k).cur_task().fd_table@.push(Some((fid as usize)))
            })
            &&& final(k).files@.len() == old(k).files@.len() + 1
            &&& (forall|f2: int|
                0 <= f2 < old(k).files@.len() ==> #[trigger] final(k).files@[f2] == old(k).files@[f2])
            &&& h.offset == 0
            &&& h.readable == (flags & 1 == 0)
            &&& h.writable == (flags & 1 == 1 || flags & 2 == 2)
            &&& h.ino < final(k).fs.inodes@.len()
            &&& exists|s: Seq<u8>|
                #[trigger] valid_cstr(old(k).cur_aspace(), path as int, s) && ((old(k).fs.has_link(
                    s,
                ) && h.ino == old(k).fs.ino_of(s) && final(k).fs.links@ == old(k).fs.links@
                    && final(k).fs.inodes@.len() == old(k).fs.inodes@.len() && (flags & FLAG_CREATE
                    == 0 && flags & FLAG_TRUNC == 0 ==> final(k).fs == old(k).fs) && ((flags
                    & FLAG_CREATE != 0 || flags & FLAG_TRUNC != 0) ==> final(k).fs.inodes@[h.ino as int].data@.len() == 0)) || (!old(k).fs.has_link(s) && h.ino
                    == old(k).fs.inodes@.len() && final(k).fs.inodes@.len() == old(k).fs.inodes@.len() + 1 && final(k).fs.inodes@[h.ino as int].kind == InodeKind::File
                    && final(k).fs.inodes@[h.ino as int].data@.len() == 0 && final(k).fs.links@.len()
                    == old(k).fs.links@.len() + 1 && final(k).fs.links@[old(k).fs.links@.len() as int].name@
                    == s && final(k).fs.links@[old(k).fs.links@.len() as int].ino == h.ino))
        }),
{
    let s = {
        let a = &k.tasks[k.current].aspace;
        proof {
            assert(a.wf());
        }
        match a.read_cstr(path) {
            Some(s) => s,
            None => {
                proof {
                    assert forall|s2: Seq<u8>|
                        !(#[trigger] valid_cstr(old(k).cur_aspace(), path as int, s2)) by {
                        if valid_cstr(old(k).cur_aspace(), path as int, s2) {
                            let j = choose|j: int|
                                #[trigger] old(k).cur_aspace().cstr_stuck_at(path as int, j);
                            crate::aspace::lemma_cstr_not_stuck(
                                old(k).cur_aspace(),
                                path as int,
                                s2,
                                j,
                            );
                        }
                    }
                }
                return -1;
            },
        }
    };
    proof {
        assert(valid_cstr(old(k).cur_aspace(), path as int, s@));
        assert forall|s2: Seq<u8>|
            valid_cstr(old(k).cur_aspace(), path as int, s2) implies s2 == s@ by {
            crate::aspace::lemma_cstr_unique(old(k).cur_aspace(), path as int, s2, s@);
        }
    }
    if flags & 0x603u32 != flags {
        return -1;
    }
    // Find the lowest free fd slot.
    let nfd = k.tasks[k.current].fd_table.len();
    let mut ff: usize = nfd;
    let mut i: usize = 0;
    let ghost t0 = k.cur_task().fd_table@;
    while i < nfd
        invariant
            i <= nfd,
            *k == *old(k),
            k.wf(),
            k.running_ok(),
            t0 == k.cur_task().fd_table@,
            nfd == t0.len(),
            ff == nfd ==> first_free_fd(t0, 0) == first_free_fd(t0, i as int),
            ff < nfd ==> ff as int == first_free_fd(t0, 0),
            ff <= nfd,
        decreases nfd - i,
    {
        if ff == nfd {
            let occupied = match k.tasks[k.current].fd_table[i] {
                Some(_) => true,
                None => false,
            };
            if !occupied {
                proof {
                    assert(first_free_fd(t0, i as int) == i as int);
                }
                ff = i;
            } else {
                proof {
                    assert(first_free_fd(t0, i as int) == first_free_fd(t0, i as int + 1));
                }
            }
        }
        i += 1;
    }
    proof {
        if ff == nfd {
            assert(first_free_fd(t0, nfd as int) == nfd as int);
        }
        assert(ff as int == first_free_fd(t0, 0));
        assert(nfd <= crate::kernel::FD_LIMIT);
    }
    if ff >= crate::kernel::FD_LIMIT {
        return -1;
    }
    let readable = flags & 1 == 0;
    let writable = flags & 1 == 1 || flags & 2 == 2;
    let ino: usize;
    match k.fs.find_link(&s) {
        Some(i) => {
            ino = k.fs.links[i].ino;
            if flags & FLAG_CREATE != 0 || flags & FLAG_TRUNC != 0 {
                k.fs.clear_data(ino);
            }
        },
        None => {
            if flags & FLAG_CREATE == 0 {
                proof {
                    assert(!old(k).fs.has_link(s@));
                }
                return -1;
            }
            if k.fs.links.len() >= LINK_LIMIT {
                return -1;
            }
            ino = k.fs.create_file(s);
        },
    }
    let fid = k.files.len();
    k.files.push(FileHandle { ino, readable, writable, offset: 0 });
    let ghost mid = *k;
    proof {
        lemma_wf_update_files(*old(k), mid);
    }
    let cur = k.current;
    let mut p = k.swap_task(cur, fresh_pcb(0));
    if ff < p.fd_table.len() {
        p.fd_table[ff] = Some(fid);
    } else {
        p.fd_table.push(Some(fid));
    }
    let _ = k.swap_task(cur, p);
    proof {
        lemma_wf_update_cur(mid, *k);
        assert(open_allowed(*old(k), path as int, flags));
    }
    ff as isize
}

/// Release the fd slot: the slot becomes free for reuse; the shared handle
/// itself survives for any other process still holding it. `-1` when the
/// slot does not exist or is already free.
pub fn sys_close(k: &mut Kernel, fd: usize) -> (r: isize)
    requires
        old(k).wf(),
        old(k).running_ok(),
    ensures
        final(k).wf(),
        final(k).running_ok(),
        (r == 0) <==> fd_ok(old(k).cur_task(), fd as int),
        r == 0 || r == -1,
        r == -1 ==> *final(k) == *old(k),
        r == 0 ==> kernel_same_except_cur(*old(k), *final(k)) && final(k).files == old(k).files
            && final(k).fs == old(k).fs && pcb_same_except_fd(
            old(k).cur_task(),
            final(k).cur_task(),
        ) && final(k).cur_task().fd_table@ == old(k).cur_task().fd_table@.update(fd as int, None),
{
    let cur = k.current;
    if fd >= k.tasks[cur].fd_table.len() {
        return -1;
    }
    let occupied = match k.tasks[cur].fd_table[fd] {
        Some(_) => true,
        None => false,
    };
    if !occupied {
        return -1;
    }
    let mut p = k.swap_task(cur, fresh_pcb(0));
    p.fd_table[fd] = None;
    let _ = k.swap_task(cur, p);
    proof {
        lemma_wf_update_cur(*old(k), *k);
    }
    0
}

/// `linkat` succeeds: both names read as strings, they differ, the old one
/// resolves, the new one is free, and a directory entry is available.
pub open spec fn linkat_allowed(k: Kernel, old_va: int, new_va: int) -> bool {
    exists|s1: Seq<u8>, s2: Seq<u8>|
        #[trigger] valid_cstr(k.cur_aspace(), old_va, s1) && #[trigger] valid_cstr(
            k.cur_aspace(),
            new_va,
            s2,
        ) && s1 != s2 && k.fs.has_link(s1) && !k.fs.has_link(s2) && k.fs.links@.len() < LINK_LIMIT
}

/// Add a hard link: the name at `new_name` comes to name the same inode as
/// the name at `old_name`. `-1` with no change when either string cannot be
/// read, the names are equal, the old name resolves to nothing, the new name
/// is already taken, or no directory entry is free.
pub fn sys_linkat(k: &mut Kernel, old_name: usize, new_name: usize) -> (r: isize)
    requires
        old(k).wf(),
        old(k).running_ok(),
    ensures
        final(k).wf(),
        final(k).running_ok(),
        r == 0 || r == -1,
        (r == 0) <==> linkat_allowed(*old(k), old_name as int, new_name as int),
        r == -1 ==> *final(k) == *old(k),
        r == 0 ==> final(k).tasks@ == old(k).tasks@ && final(k).current == old(k).current && final(k).files == old(k).files && final(k).now_ms == old(k).now_ms && final(k).fs.inodes@ == old(k).fs.inodes@ && final(k).fs.links@.len() == old(k).fs.links@.len() + 1 && (forall|j: int|
            0 <= j < old(k).fs.links@.len() ==> #[trigger] final(k).fs.links@[j] == old(k).fs.links@[j]) && ({
            let e = final(k).fs.links@[old(k).fs.links@.len() as int];
            exists|s1: Seq<u8>|
                #[trigger] valid_cstr(old(k).cur_aspace(), old_name as int, s1) && old(k).fs.has_link(s1) && e.ino == old(k).fs.ino_of(s1) && valid_cstr(
                    old(k).cur_aspace(),
                    new_name as int,
                    e.name@,
                )
        }),
{
    let (s1, s2) = {
        let a = &k.tasks[k.current].aspace;
        proof {
            assert(a.wf());
        }
        let s1 = match a.read_cstr(old_name) {
            Some(s) => s,
            None => {
                proof {
                    assert forall|t1: Seq<u8>|
                        !(#[trigger] valid_cstr(old(k).cur_aspace(), old_name as int, t1)) by {
                        if valid_cstr(old(k).cur_aspace(), old_name as int, t1) {
                            let j = choose|j: int|
                                #[trigger] old(k).cur_aspace().cstr_stuck_at(old_name as int, j);
                            crate::aspace::lemma_cstr_not_stuck(
                                old(k).cur_aspace(),
                                old_name as int,
                                t1,
                                j,
                            );
                        }
                    }
                }
                return -1;
            },
        };
        let s2 = match a.read_cstr(new_name) {
            Some(s) => s,
            None => {
                proof {
                    assert forall|t2: Seq<u8>|
                        !(#[trigger] valid_cstr(old(k).cur_aspace(), new_name as int, t2)) by {
                        if valid_cstr(old(k).cur_aspace(), new_name as int, t2) {
                            let j = choose|j: int|
                                #[trigger] old(k).cur_aspace().cstr_stuck_at(new_name as int, j);
                            crate::aspace::lemma_cstr_not_stuck(
                                old(k).cur_aspace(),
                                new_name as int,
                                t2,
                                j,
                            );
                        }
                    }
                }
                return -1;
            },
        };
        (s1, s2)
    };
    proof {
        assert(valid_cstr(old(k).cur_aspace(), old_name as int, s1@));
        assert(valid_cstr(old(k).cur_aspace(), new_name as int, s2@));
        assert forall|t1: Seq<u8>|
            valid_cstr(old(k).cur_aspace(), old_name as int, t1) implies t1 == s1@ by {
            crate::aspace::lemma_cstr_unique(old(k).cur_aspace(), old_name as int, t1, s1@);
        }
        assert forall|t2: Seq<u8>|
            valid_cstr(old(k).cur_aspace(), new_name as int, t2) implies t2 == s2@ by {
            crate::aspace::lemma_cstr_unique(old(k).cur_aspace(), new_name as int, t2, s2@);
        }
    }
    if crate::fs::bytes_eq(&s1, &s2) {
        return -1;
    }
    let ino = match k.fs.find_link(&s1) {
        Some(i) => k.fs.links[i].ino,
        None => {
            return -1;
        },
    };
    match k.fs.find_link(&s2) {
        Some(_) => {
            return -1;
        },
        None => {},
    }
    if k.fs.links.len() >= LINK_LIMIT {
        return -1;
    }
    k.fs.add_link(s2, ino);
    proof {
        assert(linkat_allowed(*old(k), old_name as int, new_name as int));
    }
    0
}

/// `unlinkat` succeeds: the name reads as a string and resolves.
pub open spec fn unlinkat_allowed(k: Kernel, va: int) -> bool {
    exists|s: Seq<u8>| #[trigger] valid_cstr(k.cur_aspace(), va, s) && k.fs.has_link(s)
}

/// Remove the directory entry carrying the name at `name`: one hard link
/// goes away; the inode and any open handles on it survive. `-1` with no
/// change when the string cannot be read or names nothing.
pub fn sys_unlinkat(k: &mut Kernel, name: usize) -> (r: isize)
    requires
        old(k).wf(),
        old(k).running_ok(),
    ensures
        final(k).wf(),
        final(k).running_ok(),
        r == 0 || r == -1,
        (r == 0) <==> unlinkat_allowed(*old(k), name as int),
        r == -1 ==> *final(k) == *old(k),
        r == 0 ==> final(k).tasks@ == old(k).tasks@ && final(k).current == old(k).current && final(k).files == old(k).files && final(k).fs.inodes@ == old(k).fs.inodes@ && final(k).now_ms
            == old(k).now_ms && (exists|s: Seq<u8>|
            #[trigger] valid_cstr(old(k).cur_aspace(), name as int, s) && old(k).fs.has_link(s)
                && final(k).fs.links@ == old(k).fs.links@.remove(old(k).fs.link_at(s))),
{
    let s = {
        let a = &k.tasks[k.current].aspace;
        proof {
            assert(a.wf());
        }
        match a.read_cstr(name) {
            Some(s) => s,
            None => {
                proof {
                    assert forall|t: Seq<u8>|
                        !(#[trigger] valid_cstr(old(k).cur_aspace(), name as int, t)) by {
                        if valid_cstr(old(k).cur_aspace(), name as int, t) {
                            let j = choose|j: int|
                                #[trigger] old(k).cur_aspace().cstr_stuck_at(name as int, j);
                            crate::aspace::lemma_cstr_not_stuck(
                                old(k).cur_aspace(),
                                name as int,
                                t,
                                j,
                            );
                        }
                    }
                }
                return -1;
            },
        }
    };
    proof {
        assert(valid_cstr(old(k).cur_aspace(), name as int, s@));
        assert forall|t: Seq<u8>|
            valid_cstr(old(k).cur_aspace(), name as int, t) implies t == s@ by {
            crate::aspace::lemma_cstr_unique(old(k).cur_aspace(), name as int, t, s@);
        }
    }
    let i = match k.fs.find_link(&s) {
        Some(i) => i,
        None => {
            return -1;
        },
    };
    k.fs.remove_link(i);
    0
}

/// Byte `b` of the fixed-layout status record: device (always 0), mode,
/// link count, inode number, then reserved padding, all little-endian.
pub open spec fn stat_byte(mode: u32, nlink: u32, ino: u64, b: int) -> u8 {
    if b < 8 {
        0u8
    } else if b < 12 {
        u32_le_byte(mode, b - 8)
    } else if b < 16 {
        u32_le_byte(nlink, b - 12)
    } else if b < 24 {
        u64_le_byte(ino, b - 16)
    } else {
        0u8
    }
}

/// Build the 80-byte status record.
fn stat_bytes(mode: u32, nlink: u32, ino: u64) -> (v: Vec<u8>)
    ensures
        v@.len() == 80,
        forall|b: int| 0 <= b < 80 ==> #[trigger] v@[b] == stat_byte(mode, nlink, ino, b),
{
    let mut v: Vec<u8> = Vec::new();
    let mut i: usize = 0;
    while i < 8
        invariant
            i <= 8,
            v@.len() == i,
            forall|b: int| 0 <= b < i ==> #[trigger] v@[b] == 0u8,
        decreases 8 - i,
    {
        v.push(0);
        i += 1;
    }
    crate::sysproc::push_u32_le(&mut v, mode);
    crate::sysproc::push_u32_le(&mut v, nlink);
    crate::sysproc::push_u64_le(&mut v, ino);
    let mut j: usize = 0;
    while j < 56
        invariant
            j <= 56,
            v@.len() == 24 + j,
            forall|b: int| 0 <= b < 24 + j ==> #[trigger] v@[b] == stat_byte(mode, nlink, ino, b),
        decreases 56 - j,
    {
        v.push(0);
        j += 1;
    }
    v
}

/// `fstat` succeeds: the fd is occupied and the 80-byte destination lies in
/// mapped pages of the user window.
pub open spec fn fstat_allowed(k: Kernel, fd: int, st: int) -> bool {
    &&& fd_ok(k.cur_task(), fd)
    &&& st + 80 <= MAX_VA
    &&& k.cur_aspace().range_mapped(st, 80)
}

/// Write the status record of the file behind `fd` — device 0, mode
/// (regular file or directory), hard-link count, inode number, reserved
/// padding — byte-for-byte to user memory at `st`, crossing page boundaries
/// as needed. `-1` with no change on a bad fd or an unmapped destination.
pub fn sys_fstat(k: &mut Kernel, fd: usize, st: usize) -> (r: isize)
    requires
        old(k).wf(),
        old(k).running_ok(),
    ensures
        final(k).wf(),
        final(k).running_ok(),
        r == 0 || r == -1,
        (r == 0) <==> fstat_allowed(*old(k), fd as int, st as int),
        r == -1 ==> *final(k) == *old(k),
        r == 0 ==> kernel_same_except_cur(*old(k), *final(k)) && final(k).files == old(k).files
            && final(k).fs == old(k).fs && pcb_same_except_aspace(
            old(k).cur_task(),
            final(k).cur_task(),
        ) && ({
            let h = handle_of(*old(k), fd as int);
            let kind = old(k).fs.inodes@[h.ino as int].kind;
            let nl = count_links(old(k).fs.links@, h.ino as int);
            &&& (forall|b: int|
                0 <= b < 80 ==> #[trigger] final(k).cur_aspace().byte(st as int + b) == stat_byte(
                    (if kind is File {
                        MODE_FILE
                    } else {
                        MODE_DIR
                    }),
                    nl as u32,
                    h.ino as u64,
                    b,
                ))
            &&& (forall|va2: int|
                0 <= va2 && (va2 < st as int || va2 >= st as int + 80) && old(k).cur_aspace().is_mapped(va2 / crate::aspace::PAGE_SIZE as int) ==> #[trigger] final(k).cur_aspace().byte(va2) == old(k).cur_aspace().byte(va2))
            &&& final(k).cur_aspace().table@ == old(k).cur_aspace().table@
            &&& final(k).cur_aspace().regions@ == old(k).cur_aspace().regions@
            &&& final(k).cur_aspace().heap_base == old(k).cur_aspace().heap_base
            &&& final(k).cur_aspace().brk == old(k).cur_aspace().brk
        }),
{
    let cur = k.current;
    if fd >= k.tasks[cur].fd_table.len() {
        return -1;
    }
    let fid = match k.tasks[cur].fd_table[fd] {
        Some(i) => i,
        None => {
            return -1;
        },
    };
    proof {
        assert(fid < k.files@.len());
    }
    let h = k.files[fid];
    if st > MAX_VA || 80 > MAX_VA - st {
        return -1;
    }
    {
        let a = &k.tasks[cur].aspace;
        proof {
            assert(a.wf());
        }
        if !a.check_range_mapped(st, 80) {
            return -1;
        }
    }
    proof {
        assert(h.ino < k.fs.inodes@.len());
    }
    let kind = k.fs.inodes[h.ino].kind;
    proof {
        crate::fs::lemma_count_links_nonneg(k.fs.links@, h.ino as int);
        assert(k.fs.links@.len() <= LINK_LIMIT);
    }
    let nl = k.fs.nlink(h.ino);
    let mode = if matches!(kind, InodeKind::File) {
        MODE_FILE
    } else {
        MODE_DIR
    };
    let bytes = stat_bytes(mode, nl as u32, h.ino as u64);
    let ok = k.copy_to_current(st, &bytes);
    proof {
        assert(ok);
    }
    0
}

} // verus!
