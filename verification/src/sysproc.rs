//! Process-management syscalls: the dispatch-layer entry points that
//! validate arguments, operate on the current PCB and its address space, and
//! return a signed result — negative means error, `-1` a generic failure,
//! `-2` "would block, retry".

use vstd::prelude::*;

use crate::aspace::in_page_range;
use crate::aspace::mmap_ok;
use crate::aspace::mmap_post;
use crate::aspace::munmap_ok;
use crate::aspace::munmap_post;
use crate::aspace::port_perm;
use crate::aspace::sbrk_ok;
use crate::aspace::sbrk_post;
use crate::aspace::MAX_VA;
use crate::aspace::PAGE_SIZE;
use crate::aspace::PERM_U;
use crate::kernel::exit_mark;
use crate::kernel::kernel_same_except_cur;
use crate::kernel::pcb_same_except_aspace;
use crate::kernel::rr_next;
use crate::kernel::run_mark;
use crate::kernel::with_status;
use crate::kernel::Kernel;
use crate::kernel::TaskStatus;

verus! {

/// The task exits with `exit_code`: it becomes a zombie holding the code and
/// the scheduler switches to the next `Ready` process, halting the kernel
/// when none is left. Control never returns to the exiting task.
pub fn sys_exit(k: &mut Kernel, exit_code: i32) -> (r: isize)
    requires
        old(k).wf(),
        old(k).running_ok(),
    ensures
        final(k).wf(),
        r == 0,
        ({
            let m = exit_mark(old(k).tasks@, old(k).current as int, exit_code);
            match rr_next(m, old(k).current as int) {
                Some(n) => final(k).tasks@ == m.update(
                    n as int,
                    run_mark(m[n as int], old(k).now_ms),
                ) && final(k).current == n && final(k).running_ok(),
                None => final(k).tasks@ == m && final(k).halted,
            }
        }),
        final(k).tasks@.len() == old(k).tasks@.len(),
        final(k).files == old(k).files,
        final(k).fs == old(k).fs,
        final(k).now_ms == old(k).now_ms,
{
    k.exit_current_and_run_next(exit_code);
    0
}

/// The task gives up the core: it becomes `Ready` and the scheduler selects
/// the next `Ready` process in round-robin order, never re-selecting the
/// yielder while another `Ready` process stands earlier in scan order.
pub fn sys_yield(k: &mut Kernel) -> (r: isize)
    requires
        old(k).wf(),
        old(k).running_ok(),
    ensures
        final(k).wf(),
        final(k).running_ok(),
        r == 0,
        ({
            let m = with_status(old(k).tasks@, old(k).current as int, TaskStatus::Ready);
            &&& rr_next(m, old(k).current as int) == Some(final(k).current)
            &&& final(k).tasks@ == m.update(
                final(k).current as int,
                run_mark(m[final(k).current as int], old(k).now_ms),
            )
        }),
        final(k).tasks@.len() == old(k).tasks@.len(),
        final(k).files == old(k).files,
        final(k).fs == old(k).fs,
        final(k).now_ms == old(k).now_ms,
{
    k.suspend_current_and_run_next();
    0
}

/// The current task's pid.
pub fn sys_getpid(k: &Kernel) -> (r: isize)
    requires
        k.wf(),
        k.running_ok(),
    ensures
        r == k.cur_task().pid,
{
    k.tasks[k.current].pid as isize
}

/// Set the current task's priority weight; `prio` below 2 is rejected with
/// `-1` and no change, otherwise the new priority is returned.
pub fn sys_set_priority(k: &mut Kernel, prio: isize) -> (r: isize)
    requires
        old(k).wf(),
        old(k).running_ok(),
    ensures
        final(k).wf(),
        final(k).running_ok(),
        prio < 2 ==> r == -1 && *final(k) == *old(k),
        prio >= 2 ==> r == prio && kernel_same_except_cur(*old(k), *final(k)) && final(k).files
            == old(k).files && final(k).fs == old(k).fs && final(k).cur_task() == (with_priority(
            old(k).cur_task(),
            prio as usize,
        )),
{
    if prio < 2 {
        return -1;
    }
    let cur = k.current;
    let mut p = k.swap_task(cur, crate::kernel::fresh_pcb(0));
    p.priority = prio as usize;
    let _ = k.swap_task(cur, p);
    proof {
        crate::kernel::lemma_wf_update_cur(*old(k), *k);
    }
    prio
}

/// `p` with its priority weight replaced.
pub open spec fn with_priority(p: crate::kernel::Pcb, prio: usize) -> crate::kernel::Pcb {
    (crate::kernel::Pcb { priority: prio, ..p })
}

/// Move the current task's program break by `size` bytes. Returns the
/// previous break; `-1` with no change when shrinking would pass the heap's
/// original base, growth would leave the user window, or growth would
/// collide with an existing mapping.
pub fn sys_sbrk(k: &mut Kernel, size: i32) -> (r: isize)
    requires
        old(k).wf(),
        old(k).running_ok(),
    ensures
        final(k).wf(),
        final(k).running_ok(),
        (r == -1) <==> !sbrk_ok(old(k).cur_aspace(), size as int),
        r == -1 ==> final(k).cur_aspace() == old(k).cur_aspace(),
        r != -1 ==> r as int == old(k).cur_aspace().brk as int && sbrk_post(
            old(k).cur_aspace(),
            final(k).cur_aspace(),
            size as int,
        ),
        kernel_same_except_cur(*old(k), *final(k)),
        final(k).files == old(k).files,
        final(k).fs == old(k).fs,
        pcb_same_except_aspace(old(k).cur_task(), final(k).cur_task()),
{
    match k.change_current_program_brk(size) {
        Some(old_brk) => {
            proof {
                assert(old_brk <= MAX_VA);
            }
            old_brk as isize
        },
        None => -1,
    }
}

/// Map the byte range `[start, start + len)` with the permissions named by
/// `port` (bit 0 readable, bit 1 writable, bit 2 executable) plus user
/// access. Rejected with `-1` and no state change when `port` holds other
/// bits or none, `start` is misaligned, the range leaves the user window, or
/// any page of the range is already mapped — the pre-scan runs before any
/// mutation, so failure has no partial effect.
pub fn sys_mmap(k: &mut Kernel, start: usize, len: usize, port: usize) -> (r: isize)
    requires
        old(k).wf(),
        old(k).running_ok(),
    ensures
        final(k).wf(),
        final(k).running_ok(),
        r == 0 || r == -1,
        (r == 0) <==> mmap_ok(old(k).cur_aspace(), start, len, port),
        r == -1 ==> *final(k) == *old(k),
        r == 0 && len > 0 ==> kernel_same_except_cur(*old(k), *final(k)) && final(k).files == old(k).files && final(k).fs == old(k).fs && pcb_same_except_aspace(old(k).cur_task(), final(k).cur_task()) && mmap_post(
            old(k).cur_aspace(),
            final(k).cur_aspace(),
            start,
            len,
            port,
        ),
        r == 0 && len == 0 ==> *final(k) == *old(k),
{
    if port & 7 != port || port == 0 {
        return -1;
    }
    if start % PAGE_SIZE != 0 {
        return -1;
    }
    if start > MAX_VA || len > MAX_VA - start {
        return -1;
    }
    let s = start / PAGE_SIZE;
    let np = (len + PAGE_SIZE - 1) / PAGE_SIZE;
    proof {
        crate::aspace::lemma_page_span(start as int, len as int);
    }
    let mut i: usize = 0;
    while i < np
        invariant
            i <= np,
            k.wf(),
            k.running_ok(),
            *k == *old(k),
            s == start as int / PAGE_SIZE as int,
            np == (len + PAGE_SIZE as int - 1) / PAGE_SIZE as int,
            s + np <= crate::aspace::MAX_VPN,
            forall|p: int| s <= p < s + i ==> !(#[trigger] k.cur_aspace().is_mapped(p)),
        decreases np - i,
    {
        let a = &k.tasks[k.current].aspace;
        proof {
            assert(a.table_wf());
        }
        match a.translate(s + i) {
            Some(_) => {
                proof {
                    assert(in_page_range(start as int, len as int, s + i as int));
                    assert(old(k).cur_aspace().is_mapped(s + i as int));
                }
                return -1;
            },
            None => {},
        }
        i += 1;
    }
    if len == 0 {
        return 0;
    }
    let perm = ((port & 7) as u8) | PERM_U;
    proof {
        assert(perm == port_perm(port));
        assert forall|p: int|
            in_page_range(start as int, len as int, p) implies !(
        #[trigger] old(k).cur_aspace().is_mapped(p)) by {
            assert(s <= p < s + np);
        }
    }
    k.set_memory_set(start, start + len, perm);
    proof {
        assert(mmap_post(old(k).cur_aspace(), k.cur_aspace(), start, len, port));
    }
    0
}

/// Fork the current task: a new PCB with a deep copy of the caller's
/// address space (new frames, same contents, same regions), the fd table
/// copied as shared capabilities, the parent/child links set, and `Ready`
/// state. The parent receives the child's pid; the child's saved trap frame
/// has its return-value register patched to 0, so the syscall returns 0 to
/// it once it runs.
pub fn sys_fork(k: &mut Kernel) -> (r: isize)
    requires
        old(k).wf(),
        old(k).running_ok(),
        old(k).tasks@.len() < crate::kernel::PID_LIMIT,
    ensures
        final(k).wf(),
        final(k).running_ok(),
        r == old(k).tasks@.len(),
        final(k).tasks@.len() == old(k).tasks@.len() + 1,
        final(k).current == old(k).current,
        final(k).files == old(k).files,
        final(k).fs == old(k).fs,
        final(k).now_ms == old(k).now_ms,
        forall|j: int|
            0 <= j < old(k).tasks@.len() && j != old(k).current as int ==> #[trigger] final(k).tasks@[j] == old(k).tasks@[j],
        final(k).cur_task().children@ == old(k).cur_task().children@.push(r as usize),
        crate::kernel::pcb_same_except_children(old(k).cur_task(), final(k).cur_task()),
        ({
            let c = final(k).tasks@[r as int];
            &&& c.pid == r
            &&& c.status is Ready
            &&& c.alive
            &&& crate::kernel::aspace_views_eq(old(k).cur_aspace(), c.aspace)
            &&& c.trap.a0 == 0
            &&& c.trap.sepc == old(k).cur_task().trap.sepc
            &&& c.trap.sp == old(k).cur_task().trap.sp
            &&& c.fd_table@ == old(k).cur_task().fd_table@
            &&& c.parent == Some(old(k).current)
            &&& c.children@.len() == 0
            &&& c.priority == old(k).cur_task().priority
            &&& c.start_time_ms == 0
        }),
{
    let cur = k.current;
    proof {
        assert(k.tasks@[cur as int].wf(k.files@.len() as int));
    }
    let a2 = crate::kernel::duplicate_aspace(&k.tasks[cur].aspace);
    let fd2 = crate::kernel::copy_fd_table(&k.tasks[cur].fd_table);
    let trap2 = crate::kernel::TrapFrame {
        a0: 0,
        sepc: k.tasks[cur].trap.sepc,
        sp: k.tasks[cur].trap.sp,
    };
    let prio = k.tasks[cur].priority;
    proof {
        a2.lemma_same_structure_wf(old(k).cur_aspace());
    }
    let npid = k.add_child(a2, trap2, fd2, prio);
    npid as isize
}

/// Replace the current task's program image: resolve the path read from
/// user memory, and on success install a fresh address space and reset the
/// trap frame to the program's entry point and initial stack. The fd table
/// and pid are preserved. Returns `-1` with the process unchanged when the
/// path cannot be read or names no file; image bytes are the program
/// loader's concern.
pub fn sys_exec(k: &mut Kernel, path: usize) -> (r: isize)
    requires
        old(k).wf(),
        old(k).running_ok(),
    ensures
        final(k).wf(),
        final(k).running_ok(),
        r == 0 || r == -1,
        (r == 0) <==> (exists|s: Seq<u8>|
            #[trigger] crate::aspace::valid_cstr(old(k).cur_aspace(), path as int, s) && old(k).fs.has_link(s)),
        r == -1 ==> *final(k) == *old(k),
        r == 0 ==> kernel_same_except_cur(*old(k), *final(k)) && final(k).files == old(k).files && final(k).fs == old(k).fs && ({
            let c = final(k).cur_task();
            let o = old(k).cur_task();
            &&& c.pid == o.pid
            &&& c.status == o.status
            &&& c.alive == o.alive
            &&& c.fd_table@ == o.fd_table@
            &&& c.parent == o.parent
            &&& c.children@ == o.children@
            &&& c.priority == o.priority
            &&& c.exit_code == o.exit_code
            &&& c.syscall_times@ == o.syscall_times@
            &&& c.has_run == o.has_run
            &&& c.start_time_ms == o.start_time_ms
            &&& c.trap.a0 == 0
            &&& c.trap.sepc == crate::kernel::ENTRY_POINT
            &&& c.trap.sp == crate::kernel::USER_STACK_TOP
            &&& c.aspace.heap_base == crate::kernel::USER_HEAP_BASE
            &&& c.aspace.brk == crate::kernel::USER_HEAP_BASE
            &&& c.aspace.regions@.len() == 0
            &&& forall|p: int| !c.aspace.is_mapped(p)
        }),
{
    let s = {
        let a = &k.tasks[k.current].aspace;
        proof {
            assert(a.wf());
        }
        match a.read_cstr(path) {
            Some(s) => s,
            None => {
                proof {
                    assert forall|s2: Seq<u8>|
                        !(crate::aspace::valid_cstr(old(k).cur_aspace(), path as int, s2) && old(k).fs.has_link(s2)) by {
                        if crate::aspace::valid_cstr(old(k).cur_aspace(), path as int, s2) {
                            let j = choose|j: int|
                                #[trigger] old(k).cur_aspace().cstr_stuck_at(path as int, j);
                            crate::aspace::lemma_cstr_not_stuck(
                                old(k).cur_aspace(),
                                path as int,
                                s2,
                                j,
                            );
                        }
                    }
                }
                return -1;
            },
        }
    };
    proof {
        assert(crate::aspace::valid_cstr(old(k).cur_aspace(), path as int, s@));
    }
    match k.fs.find_link(&s) {
        Some(_) => {},
        None => {
            proof {
                assert forall|s2: Seq<u8>|
                    !(crate::aspace::valid_cstr(old(k).cur_aspace(), path as int, s2) && old(k).fs.has_link(s2)) by {
                    if crate::aspace::valid_cstr(old(k).cur_aspace(), path as int, s2) {
                        crate::aspace::lemma_cstr_unique(
                            old(k).cur_aspace(),
                            path as int,
                            s2,
                            s@,
                        );
                    }
                }
            }
            return -1;
        },
    }
    let cur = k.current;
    let mut p = k.swap_task(cur, crate::kernel::fresh_pcb(0));
    p.aspace = crate::aspace::AddressSpace::new_space(crate::kernel::USER_HEAP_BASE);
    p.trap = crate::kernel::TrapFrame {
        a0: 0,
        sepc: crate::kernel::ENTRY_POINT,
        sp: crate::kernel::USER_STACK_TOP,
    };
    let _ = k.swap_task(cur, p);
    proof {
        crate::kernel::lemma_wf_update_cur(*old(k), *k);
    }
    0
}

/// Create a new process running a fresh program image in one step —
/// functionally fork plus exec without copying the parent's address space.
/// Returns the new pid, or `-1` with no change when the path cannot be read
/// or names no file.
pub fn sys_spawn(k: &mut Kernel, path: usize) -> (r: isize)
    requires
        old(k).wf(),
        old(k).running_ok(),
        old(k).tasks@.len() < crate::kernel::PID_LIMIT,
    ensures
        final(k).wf(),
        final(k).running_ok(),
        (r == -1) <==> !(exists|s: Seq<u8>|
            #[trigger] crate::aspace::valid_cstr(old(k).cur_aspace(), path as int, s) && old(k).fs.has_link(s)),
        r == -1 ==> *final(k) == *old(k),
        r != -1 ==> r == old(k).tasks@.len() && final(k).tasks@.len() == old(k).tasks@.len() + 1
            && final(k).current == old(k).current && final(k).files == old(k).files && final(k).fs == old(k).fs && final(k).now_ms
            == old(k).now_ms && (forall|j: int|
            0 <= j < old(k).tasks@.len() && j != old(k).current as int ==> #[trigger] final(k).tasks@[j] == old(k).tasks@[j]) && final(k).cur_task().children@ == old(k).cur_task().children@.push(r as usize) && crate::kernel::pcb_same_except_children(
            old(k).cur_task(),
            final(k).cur_task(),
        ) && ({
            let c = final(k).tasks@[r as int];
            &&& c.pid == r
            &&& c.status is Ready
            &&& c.alive
            &&& c.trap.a0 == 0
            &&& c.trap.sepc == crate::kernel::ENTRY_POINT
            &&& c.trap.sp == crate::kernel::USER_STACK_TOP
            &&& c.fd_table@ == old(k).cur_task().fd_table@
            &&& c.parent == Some(old(k).current)
            &&& c.children@.len() == 0
            &&& c.start_time_ms == 0
            &&& c.aspace.heap_base == crate::kernel::USER_HEAP_BASE
            &&& c.aspace.brk == crate::kernel::USER_HEAP_BASE
            &&& forall|p: int| !c.aspace.is_mapped(p)
        }),
{
    let s = {
        let a = &k.tasks[k.current].aspace;
        proof {
            assert(a.wf());
        }
        match a.read_cstr(path) {
            Some(s) => s,
            None => {
                proof {
                    assert forall|s2: Seq<u8>|
                        !(crate::aspace::valid_cstr(old(k).cur_aspace(), path as int, s2) && old(k).fs.has_link(s2)) by {
                        if crate::aspace::valid_cstr(old(k).cur_aspace(), path as int, s2) {
                            let j = choose|j: int|
                                #[trigger] old(k).cur_aspace().cstr_stuck_at(path as int, j);
                            crate::aspace::lemma_cstr_not_stuck(
                                old(k).cur_aspace(),
                                path as int,
                                s2,
                                j,
                            );
                        }
                    }
                }
                return -1;
            },
        }
    };
    proof {
        assert(crate::aspace::valid_cstr(old(k).cur_aspace(), path as int, s@));
    }
    match k.fs.find_link(&s) {
        Some(_) => {},
        None => {
            proof {
                assert forall|s2: Seq<u8>|
                    !(crate::aspace::valid_cstr(old(k).cur_aspace(), path as int, s2) && old(k).fs.has_link(s2)) by {
                    if crate::aspace::valid_cstr(old(k).cur_aspace(), path as int, s2) {
                        crate::aspace::lemma_cstr_unique(
                            old(k).cur_aspace(),
                            path as int,
                            s2,
                            s@,
                        );
                    }
                }
            }
            return -1;
        },
    }
    let cur = k.current;
    proof {
        assert(k.tasks@[cur as int].wf(k.files@.len() as int));
    }
    let fd2 = crate::kernel::copy_fd_table(&k.tasks[cur].fd_table);
    let prio = k.tasks[cur].priority;
    let a2 = crate::aspace::AddressSpace::new_space(crate::kernel::USER_HEAP_BASE);
    let trap2 = crate::kernel::TrapFrame {
        a0: 0,
        sepc: crate::kernel::ENTRY_POINT,
        sp: crate::kernel::USER_STACK_TOP,
    };
    let npid = k.add_child(a2, trap2, fd2, prio);
    npid as isize
}

/// Little-endian byte `i` of a 32-bit value.
pub open spec fn u32_le_byte(x: u32, i: int) -> u8 {
    ((x >> ((8 * i) as u32)) & 0xff) as u8
}

/// The little-endian bytes of an exit code, as written to user memory.
fn i32_le_bytes(code: i32) -> (v: Vec<u8>)
    ensures
        v@.len() == 4,
        forall|b: int| 0 <= b < 4 ==> #[trigger] v@[b] == u32_le_byte(code as u32, b),
{
    let u = #[verifier::truncate] (code as u32);
    let mut v: Vec<u8> = Vec::new();
    v.push(((u >> 0u32) & 0xff) as u8);
    v.push(((u >> 8u32) & 0xff) as u8);
    v.push(((u >> 16u32) & 0xff) as u8);
    v.push(((u >> 24u32) & 0xff) as u8);
    proof {
        assert(v@[0] == u32_le_byte(code as u32, 0));
        assert(v@[1] == u32_le_byte(code as u32, 1));
        assert(v@[2] == u32_le_byte(code as u32, 2));
        assert(v@[3] == u32_le_byte(code as u32, 3));
    }
    v
}

/// Little-endian byte `i` of a 64-bit value.
pub open spec fn u64_le_byte(x: u64, i: int) -> u8 {
    ((x >> ((8 * i) as u64)) & 0xff) as u8
}

/// Append the four little-endian bytes of `x`.
pub fn push_u32_le(v: &mut Vec<u8>, x: u32)
    ensures
        final(v)@.len() == old(v)@.len() + 4,
        forall|b: int| 0 <= b < old(v)@.len() ==> #[trigger] final(v)@[b] == old(v)@[b],
        forall|idx: int|
            old(v)@.len() <= idx < old(v)@.len() + 4 ==> #[trigger] final(v)@[idx] == u32_le_byte(
                x,
                idx - old(v)@.len(),
            ),
{
    let ghost n = v@.len() as int;
    v.push(((x >> 0u32) & 0xff) as u8);
    v.push(((x >> 8u32) & 0xff) as u8);
    v.push(((x >> 16u32) & 0xff) as u8);
    v.push(((x >> 24u32) & 0xff) as u8);
    proof {
        assert(v@[n] == u32_le_byte(x, 0));
        assert(v@[n + 1] == u32_le_byte(x, 1));
        assert(v@[n + 2] == u32_le_byte(x, 2));
        assert(v@[n + 3] == u32_le_byte(x, 3));
    }
}

/// Append the eight little-endian bytes of `x`.
pub fn push_u64_le(v: &mut Vec<u8>, x: u64)
    ensures
        final(v)@.len() == old(v)@.len() + 8,
        forall|b: int| 0 <= b < old(v)@.len() ==> #[trigger] final(v)@[b] == old(v)@[b],
        forall|idx: int|
            old(v)@.len() <= idx < old(v)@.len() + 8 ==> #[trigger] final(v)@[idx] == u64_le_byte(
                x,
                idx - old(v)@.len(),
            ),
{
    let ghost n = v@.len() as int;
    v.push(((x >> 0u64) & 0xff) as u8);
    v.push(((x >> 8u64) & 0xff) as u8);
    v.push(((x >> 16u64) & 0xff) as u8);
    v.push(((x >> 24u64) & 0xff) as u8);
    v.push(((x >> 32u64) & 0xff) as u8);
    v.push(((x >> 40u64) & 0xff) as u8);
    v.push(((x >> 48u64) & 0xff) as u8);
    v.push(((x >> 56u64) & 0xff) as u8);
    proof {
        assert(v@[n] == u64_le_byte(x, 0));
        assert(v@[n + 1] == u64_le_byte(x, 1));
        assert(v@[n + 2] == u64_le_byte(x, 2));
        assert(v@[n + 3] == u64_le_byte(x, 3));
        assert(v@[n + 4] == u64_le_byte(x, 4));
        assert(v@[n + 5] == u64_le_byte(x, 5));
        assert(v@[n + 6] == u64_le_byte(x, 6));
        assert(v@[n + 7] == u64_le_byte(x, 7));
    }
}

/// Seconds and microseconds since the kernel's monotonic epoch: the record
/// `get_time` writes to user memory.
pub struct TimeVal {
    /// Whole seconds.
    pub sec: usize,
    /// Microseconds below one second.
    pub usec: usize,
}

/// What `task_info` reports of the current task: its state, its per-syscall
/// invocation counters, and how long it has been running.
pub struct TaskInfo {
    /// The task's execution state.
    pub status: TaskStatus,
    /// Invocation counts, indexed by syscall number.
    pub syscall_times: Vec<u32>,
    /// Wall-clock milliseconds since the task's first run.
    pub time: usize,
}

/// Byte `b` of the on-the-wire time record: seconds, then microseconds,
/// both 64-bit little-endian.
pub open spec fn time_val_byte(sec: u64, usec: u64, b: int) -> u8 {
    if b < 8 {
        u64_le_byte(sec, b)
    } else {
        u64_le_byte(usec, b - 8)
    }
}

/// Write the current time — seconds and microseconds since the monotonic
/// epoch — to user memory at `ts`, crossing page boundaries as needed. The
/// timezone argument is ignored. `-1` with no change when the 16-byte
/// destination is unmapped or outside the user window.
pub fn sys_get_time(k: &mut Kernel, ts: usize, tz: usize) -> (r: isize)
    requires
        old(k).wf(),
        old(k).running_ok(),
    ensures
        final(k).wf(),
        final(k).running_ok(),
        r == 0 || r == -1,
        (r == 0) <==> (ts + 16 <= MAX_VA && old(k).cur_aspace().range_mapped(ts as int, 16)),
        r == -1 ==> *final(k) == *old(k),
        r == 0 ==> kernel_same_except_cur(*old(k), *final(k)) && final(k).files == old(k).files && final(k).fs == old(k).fs
            && pcb_same_except_aspace(old(k).cur_task(), final(k).cur_task()) && (forall|b: int|
            0 <= b < 16 ==> #[trigger] final(k).cur_aspace().byte(ts as int + b) == time_val_byte(
                (old(k).now_ms / 1000) as u64,
                ((old(k).now_ms % 1000) * 1000) as u64,
                b,
            )) && (forall|va2: int|
            0 <= va2 && (va2 < ts as int || va2 >= ts as int + 16) && old(k).cur_aspace().is_mapped(va2 / PAGE_SIZE as int) ==> #[trigger] final(k).cur_aspace().byte(va2) == old(k).cur_aspace().byte(va2)) && final(k).cur_aspace().table@ == old(k).cur_aspace().table@,
{
    if ts > MAX_VA || 16 > MAX_VA - ts {
        return -1;
    }
    {
        let a = &k.tasks[k.current].aspace;
        proof {
            assert(a.wf());
        }
        if !a.check_range_mapped(ts, 16) {
            return -1;
        }
    }
    let tv = TimeVal { sec: k.now_ms / 1000, usec: (k.now_ms % 1000) * 1000 };
    let mut bytes: Vec<u8> = Vec::new();
    push_u64_le(&mut bytes, tv.sec as u64);
    push_u64_le(&mut bytes, tv.usec as u64);
    proof {
        assert forall|b: int|
            0 <= b < 16 implies #[trigger] bytes@[b] == time_val_byte(
            (old(k).now_ms / 1000) as u64,
            ((old(k).now_ms % 1000) * 1000) as u64,
            b,
        ) by {}
    }
    let ok = k.copy_to_current(ts, &bytes);
    proof {
        assert(ok);
    }
    0
}

/// Byte `b` of the on-the-wire task-information record: the status code,
/// then the 500 32-bit syscall counters, then the 64-bit running time in
/// milliseconds, all little-endian.
pub open spec fn task_info_byte(status: u32, counters: Seq<u32>, time: u64, b: int) -> u8 {
    if b < 4 {
        u32_le_byte(status, b)
    } else if b < 2004 {
        u32_le_byte(counters[(b - 4) / 4], (b - 4) % 4)
    } else {
        u64_le_byte(time, b - 2004)
    }
}

/// Numeric code of a task state in the task-information record.
pub open spec fn status_code(s: TaskStatus) -> u32 {
    match s {
        TaskStatus::Ready => 0u32,
        TaskStatus::Running => 1u32,
        TaskStatus::Zombie => 2u32,
    }
}

/// Build the 2012-byte task-information record.
fn task_info_bytes(status: u32, counters: &Vec<u32>, time: u64) -> (v: Vec<u8>)
    requires
        counters@.len() == crate::kernel::MAX_SYSCALL_NUM,
    ensures
        v@.len() == 2012,
        forall|b: int|
            0 <= b < 2012 ==> #[trigger] v@[b] == task_info_byte(status, counters@, time, b),
{
    let mut v: Vec<u8> = Vec::new();
    push_u32_le(&mut v, status);
    let mut i: usize = 0;
    while i < 500
        invariant
            i <= 500,
            counters@.len() == 500,
            v@.len() == 4 + 4 * i,
            forall|b: int|
                0 <= b < 4 + 4 * i ==> #[trigger] v@[b] == task_info_byte(
                    status,
                    counters@,
                    time,
                    b,
                ),
        decreases 500 - i,
    {
        let ghost before = v@;
        push_u32_le(&mut v, counters[i]);
        proof {
            assert forall|b: int|
                0 <= b < 4 + 4 * (i + 1) implies #[trigger] v@[b] == task_info_byte(
                status,
                counters@,
                time,
                b,
            ) by {
                if b < 4 + 4 * i {
                    assert(v@[b] == before[b]);
                } else {
                    assert(v@[b] == u32_le_byte(counters@[i as int], b - (4 + 4 * i)));
                    vstd::arithmetic::div_mod::lemma_fundamental_div_mod_converse(
                        b - 4,
                        4,
                        i as int,
                        b - 4 - 4 * i,
                    );
                    assert((b - 4) / 4 == i as int && (b - 4) % 4 == b - 4 - 4 * i);
                }
            }
        }
        i += 1;
    }
    push_u64_le(&mut v, time);
    proof {
        assert forall|b: int|
            0 <= b < 2012 implies #[trigger] v@[b] == task_info_byte(status, counters@, time, b) by {
            if b >= 2004 {
                assert(v@[b] == u64_le_byte(time, b - 2004));
            }
        }
    }
    v
}

/// Write the task-information record of the current task — its state
/// (running, by the scheduling invariant), its per-syscall counters, and the
/// wall-clock time since its first run — to user memory at `ti`. `-1` with
/// no change when the destination is unmapped or outside the user window.
pub fn sys_task_info(k: &mut Kernel, ti: usize) -> (r: isize)
    requires
        old(k).wf(),
        old(k).running_ok(),
    ensures
        final(k).wf(),
        final(k).running_ok(),
        r == 0 || r == -1,
        (r == 0) <==> (ti + 2012 <= MAX_VA && old(k).cur_aspace().range_mapped(ti as int, 2012)),
        r == -1 ==> *final(k) == *old(k),
        r == 0 ==> kernel_same_except_cur(*old(k), *final(k)) && final(k).files == old(k).files && final(k).fs == old(k).fs
            && pcb_same_except_aspace(old(k).cur_task(), final(k).cur_task()) && (forall|b: int|
            0 <= b < 2012 ==> #[trigger] final(k).cur_aspace().byte(ti as int + b)
                == task_info_byte(
                status_code(old(k).cur_task().status),
                old(k).cur_task().syscall_times@,
                (old(k).now_ms - old(k).cur_task().start_time_ms) as u64,
                b,
            )) && (forall|va2: int|
            0 <= va2 && (va2 < ti as int || va2 >= ti as int + 2012) && old(k).cur_aspace().is_mapped(va2 / PAGE_SIZE as int) ==> #[trigger] final(k).cur_aspace().byte(va2) == old(k).cur_aspace().byte(va2)),
{
    if ti > MAX_VA || 2012 > MAX_VA - ti {
        return -1;
    }
    {
        let a = &k.tasks[k.current].aspace;
        proof {
            assert(a.wf());
        }
        if !a.check_range_mapped(ti, 2012) {
            return -1;
        }
    }
    let cur = k.current;
    let counters = k.get_syscall();
    let start = k.get_task_running_time();
    let status = match k.tasks[cur].status {
        TaskStatus::Ready => 0u32,
        TaskStatus::Running => 1u32,
        TaskStatus::Zombie => 2u32,
    };
    proof {
        assert(k.cur_task().start_time_ms <= k.now_ms);
    }
    let info = TaskInfo { status: k.tasks[cur].status, syscall_times: counters, time: k.now_ms
        - start };
    let bytes = task_info_bytes(status, &info.syscall_times, info.time as u64);
    let ok = k.copy_to_current(ti, &bytes);
    proof {
        assert(ok);
    }
    0
}

/// The exit-code destination of a `waitpid` is valid: its four bytes lie in
/// mapped pages of the user window.
pub open spec fn wait_dest_ok(k: Kernel, ptr: int) -> bool {
    ptr + 4 <= MAX_VA && k.cur_aspace().range_mapped(ptr, 4)
}

/// Wait for a child. `pid == -1` matches any child. Returns `-1` when the
/// 4-byte exit-code destination is unmapped or when no child matches at
/// all; `-2` when a matching child exists but none has exited yet — the
/// caller retries, nothing blocks; otherwise the first matching zombie
/// child is reaped: it leaves the caller's children list, its address space
/// and PCB resources are freed, its exit code is written to `exit_code_ptr`
/// in the caller's memory, and its pid is returned.
pub fn sys_waitpid(k: &mut Kernel, pid: isize, exit_code_ptr: usize) -> (r: isize)
    requires
        old(k).wf(),
        old(k).running_ok(),
    ensures
        final(k).wf(),
        final(k).running_ok(),
        ({
            let ch = old(k).cur_task().children@;
            let f = crate::kernel::find_zombie(old(k).tasks@, ch, pid as int, 0);
            &&& ((r == -1) <==> (!wait_dest_ok(*old(k), exit_code_ptr as int)
                || !crate::kernel::has_match(ch, pid as int)))
            &&& ((r == -2) <==> (wait_dest_ok(*old(k), exit_code_ptr as int)
                && crate::kernel::has_match(ch, pid as int) && f < 0))
            &&& (r == -1 || r == -2) ==> *final(k) == *old(k)
            &&& (r != -1 && r != -2) ==> {
                let c = ch[f] as int;
                &&& 0 <= f < ch.len()
                &&& r == ch[f]
                &&& final(k).tasks@.len() == old(k).tasks@.len()
                &&& final(k).current == old(k).current
                &&& final(k).started == old(k).started
                &&& final(k).halted == old(k).halted
                &&& final(k).files == old(k).files
                &&& final(k).fs == old(k).fs
                &&& final(k).now_ms == old(k).now_ms
                &&& final(k).cur_task().children@ == ch.remove(f)
                &&& !final(k).tasks@[c].alive
                &&& final(k).tasks@[c].status is Zombie
                &&& final(k).tasks@[c].pid == old(k).tasks@[c].pid
                &&& final(k).tasks@[c].exit_code == old(k).tasks@[c].exit_code
                &&& (forall|j: int|
                    0 <= j < old(k).tasks@.len() && j != old(k).current as int && j != c
                        ==> #[trigger] final(k).tasks@[j] == old(k).tasks@[j])
                &&& (forall|b: int|
                    0 <= b < 4 ==> #[trigger] final(k).cur_aspace().byte(exit_code_ptr as int + b)
                        == u32_le_byte(old(k).tasks@[c].exit_code as u32, b))
                &&& (forall|va: int|
                    0 <= va && (va < exit_code_ptr as int || va >= exit_code_ptr as int + 4) && old(k).cur_aspace().is_mapped(va / PAGE_SIZE as int) ==> #[trigger] final(k).cur_aspace().byte(va) == old(k).cur_aspace().byte(va))
                &&& final(k).cur_aspace().table@ == old(k).cur_aspace().table@
                &&& final(k).cur_aspace().regions@ == old(k).cur_aspace().regions@
                &&& final(k).cur_aspace().heap_base == old(k).cur_aspace().heap_base
                &&& final(k).cur_aspace().brk == old(k).cur_aspace().brk
                &&& final(k).cur_task().fd_table@ == old(k).cur_task().fd_table@
                &&& final(k).cur_task().status == old(k).cur_task().status
                &&& final(k).cur_task().pid == old(k).cur_task().pid
                &&& final(k).cur_task().alive == old(k).cur_task().alive
                &&& final(k).cur_task().trap == old(k).cur_task().trap
                &&& final(k).cur_task().parent == old(k).cur_task().parent
                &&& final(k).cur_task().priority == old(k).cur_task().priority
                &&& final(k).cur_task().exit_code == old(k).cur_task().exit_code
                &&& final(k).cur_task().syscall_times@ == old(k).cur_task().syscall_times@
                &&& final(k).cur_task().has_run == old(k).cur_task().has_run
                &&& final(k).cur_task().start_time_ms == old(k).cur_task().start_time_ms
            }
        }),
{
    if exit_code_ptr > MAX_VA || 4 > MAX_VA - exit_code_ptr {
        return -1;
    }
    {
        let a = &k.tasks[k.current].aspace;
        proof {
            assert(a.wf());
        }
        if !a.check_range_mapped(exit_code_ptr, 4) {
            return -1;
        }
    }
    let cur = k.current;
    let nch = k.tasks[cur].children.len();
    // First pass: does any child match the request at all?
    let mut j: usize = 0;
    let mut any = false;
    while j < nch
        invariant
            j <= nch,
            *k == *old(k),
            k.wf(),
            k.running_ok(),
            cur == k.current,
            nch == k.cur_task().children@.len(),
            !any ==> forall|t: int|
                0 <= t < j ==> !(pid as int == -1 || (#[trigger] k.cur_task().children@[t]) as int
                    == pid as int),
            any ==> crate::kernel::has_match(k.cur_task().children@, pid as int),
        decreases nch - j,
    {
        let c = k.tasks[cur].children[j];
        if pid == -1 || c as isize == pid {
            any = true;
        }
        j += 1;
    }
    if !any {
        return -1;
    }
    // Second pass: the first matching child that is already a zombie.
    let ghost tasks0 = k.tasks@;
    let ghost ch0 = k.cur_task().children@;
    let mut i: usize = 0;
    let mut found: bool = false;
    let mut idx: usize = 0;
    while i < nch
        invariant
            i <= nch,
            *k == *old(k),
            k.wf(),
            k.running_ok(),
            cur == k.current,
            tasks0 == k.tasks@,
            ch0 == k.cur_task().children@,
            nch == ch0.len(),
            !found ==> crate::kernel::find_zombie(tasks0, ch0, pid as int, 0)
                == crate::kernel::find_zombie(tasks0, ch0, pid as int, i as int),
            found ==> idx == crate::kernel::find_zombie(tasks0, ch0, pid as int, 0) && idx < nch,
        decreases nch - i,
    {
        if !found {
            let c = k.tasks[cur].children[i];
            proof {
                assert(0 <= c < k.tasks@.len());
            }
            let is_z = matches!(k.tasks[c].status, TaskStatus::Zombie);
            if (pid == -1 || c as isize == pid) && is_z {
                proof {
                    assert(crate::kernel::find_zombie(tasks0, ch0, pid as int, i as int)
                        == i as int);
                }
                found = true;
                idx = i;
            } else {
                proof {
                    assert(crate::kernel::find_zombie(tasks0, ch0, pid as int, i as int)
                        == crate::kernel::find_zombie(tasks0, ch0, pid as int, i as int + 1));
                }
            }
        }
        i += 1;
    }
    if !found {
        proof {
            assert(crate::kernel::find_zombie(tasks0, ch0, pid as int, nch as int) == -1);
        }
        return -2;
    }
    let ghost f = idx as int;
    // Reap: unlink the child, free its resources, deliver the exit code.
    let child = k.tasks[cur].children[idx];
    proof {
        crate::kernel::lemma_find_zombie_hit(tasks0, ch0, pid as int, f);
        assert(0 <= child < k.tasks@.len());
        assert(child != cur);
        assert(tasks0[child as int].status is Zombie);
    }
    let code = k.tasks[child].exit_code;
    let mut p = k.swap_task(cur, crate::kernel::fresh_pcb(0));
    p.children.remove(idx);
    let _ = k.swap_task(cur, p);
    let mut cp = k.swap_task(child, crate::kernel::fresh_pcb(0));
    cp.alive = false;
    cp.aspace = crate::aspace::AddressSpace::new_space(crate::kernel::USER_HEAP_BASE);
    cp.fd_table = Vec::new();
    let _ = k.swap_task(child, cp);
    let bytes = i32_le_bytes(code);
    let mut q = k.swap_task(cur, crate::kernel::fresh_pcb(0));
    proof {
        assert(q.aspace == old(k).cur_aspace());
    }
    let ok = q.aspace.write_bytes(exit_code_ptr, &bytes);
    let _ = k.swap_task(cur, q);
    proof {
        assert(ok);
        let pre = *old(k);
        let c = cur as int;
        let chl = child as int;
        assert(forall|j: int|
            0 <= j < pre.tasks@.len() && j != c && j != chl ==> #[trigger] k.tasks@[j]
                == pre.tasks@[j]);
        assert(k.cur_task().children@ == ch0.remove(f));
        // The reaped child is in no children list any more: it was only in
        // the caller's, by the parent-pointer consistency of `wf`.
        assert forall|i2: int, j2: int|
            0 <= i2 < k.tasks@.len() && 0 <= j2 < (#[trigger] k.tasks@[i2]).children@.len()
            implies 0 <= #[trigger] k.tasks@[i2].children@[j2] < k.tasks@.len()
            && k.tasks@[k.tasks@[i2].children@[j2] as int].alive
            && k.tasks@[k.tasks@[i2].children@[j2] as int].parent == Some(i2 as usize)
            && k.tasks@[i2].children@[j2] != i2 as usize by {
            let e = k.tasks@[i2].children@[j2];
            if i2 == c {
                let j0 = if j2 < f {
                    j2
                } else {
                    j2 + 1
                };
                assert(e == pre.tasks@[c].children@[j0]);
                assert(e != child) by {
                    if e == child {
                        assert(pre.tasks@[c].children@[j0] == pre.tasks@[c].children@[f]);
                        assert(j0 != f);
                        if j0 < f {
                            assert(pre.tasks@[c].children@[j0] != pre.tasks@[c].children@[f]);
                        } else {
                            assert(pre.tasks@[c].children@[f] != pre.tasks@[c].children@[j0]);
                        }
                    }
                }
                assert(0 <= e < pre.tasks@.len() && pre.tasks@[e as int].alive
                    && pre.tasks@[e as int].parent == Some(cur) && e != cur);
                assert(k.tasks@[e as int].alive && k.tasks@[e as int].parent == Some(cur)) by {
                    if e as int != c && e as int != chl {
                        assert(k.tasks@[e as int] == pre.tasks@[e as int]);
                    }
                }
            } else {
                assert(k.tasks@[i2].children@ == pre.tasks@[i2].children@) by {
                    if i2 != chl {
                        assert(k.tasks@[i2] == pre.tasks@[i2]);
                    } else {
                        assert(k.tasks@[chl].children@ == pre.tasks@[chl].children@);
                    }
                }
                assert(e == pre.tasks@[i2].children@[j2]);
                assert(0 <= e < pre.tasks@.len() && pre.tasks@[e as int].alive
                    && pre.tasks@[e as int].parent == Some(i2 as usize) && e != i2 as usize);
                assert(e != child) by {
                    if e == child {
                        assert(pre.tasks@[chl].parent == Some(i2 as usize));
                        assert(pre.tasks@[chl].parent == Some(cur));
                        assert(i2 == c);
                    }
                }
                assert(k.tasks@[e as int].alive && k.tasks@[e as int].parent == Some(i2 as usize))
                    by {
                    if e as int != c && e as int != chl {
                        assert(k.tasks@[e as int] == pre.tasks@[e as int]);
                    } else if e as int == c {
                        assert(k.tasks@[c].alive == pre.tasks@[c].alive && k.tasks@[c].parent
                            == pre.tasks@[c].parent);
                    }
                }
            }
        }
        assert forall|i2: int, a: int, b: int|
            0 <= i2 < k.tasks@.len() && 0 <= a < b < (#[trigger] k.tasks@[i2]).children@.len()
            implies (#[trigger] k.tasks@[i2].children@[a]) != (
        #[trigger] k.tasks@[i2].children@[b]) by {
            if i2 == c {
                let a0 = if a < f {
                    a
                } else {
                    a + 1
                };
                let b0 = if b < f {
                    b
                } else {
                    b + 1
                };
                assert(k.tasks@[c].children@[a] == pre.tasks@[c].children@[a0]);
                assert(k.tasks@[c].children@[b] == pre.tasks@[c].children@[b0]);
                assert(pre.tasks@[c].children@[a0] != pre.tasks@[c].children@[b0]);
            } else {
                assert(k.tasks@[i2].children@ == pre.tasks@[i2].children@) by {
                    if i2 != chl {
                        assert(k.tasks@[i2] == pre.tasks@[i2]);
                    }
                }
                assert(pre.tasks@[i2].children@[a] != pre.tasks@[i2].children@[b]);
            }
        }
        assert forall|i2: int| 0 <= i2 < k.tasks@.len() implies (#[trigger] k.tasks@[i2]).pid == i2
            && k.tasks@[i2].wf(k.files@.len() as int) by {
            if i2 != c && i2 != chl {
                assert(k.tasks@[i2] == pre.tasks@[i2]);
            }
        }
        assert forall|i2: int|
            0 <= i2 < k.tasks@.len() && !(#[trigger] k.tasks@[i2]).alive implies
        k.tasks@[i2].status is Zombie by {
            if i2 != c && i2 != chl {
                assert(k.tasks@[i2] == pre.tasks@[i2]);
            }
        }
        assert forall|i2: int|
            0 <= i2 < k.tasks@.len() implies (#[trigger] k.tasks@[i2]).start_time_ms
            <= k.now_ms by {
            if i2 != c && i2 != chl {
                assert(k.tasks@[i2] == pre.tasks@[i2]);
            }
        }
        assert forall|i2: int| 0 <= i2 < k.tasks@.len() implies ((
        #[trigger] k.tasks@[i2]).status is Running <==> (k.running_ok() && i2
            == k.current as int)) by {
            if i2 != c && i2 != chl {
                assert(k.tasks@[i2] == pre.tasks@[i2]);
            }
        }
        assert(k.wf());
        assert(crate::kernel::has_match(ch0, pid as int)) by {
            assert(pid as int == -1 || ch0[f] as int == pid as int);
        }
    }
    child as isize
}

/// Unmap the byte range `[start, start + len)`. Rejected with `-1` and no
/// state change when `start` is misaligned, the range leaves the user
/// window, or any page of the range is not currently mapped. A fully mapped
/// range is unmapped whole, heap pages included. Failure leaves every
/// previously mapped page mapped: the pre-scan is the correctness boundary.
pub fn sys_munmap(k: &mut Kernel, start: usize, len: usize) -> (r: isize)
    requires
        old(k).wf(),
        old(k).running_ok(),
    ensures
        final(k).wf(),
        final(k).running_ok(),
        r == 0 || r == -1,
        (r == 0) <==> (start % PAGE_SIZE == 0 && (len == 0 || munmap_ok(
            old(k).cur_aspace(),
            start,
            len,
        ))),
        r == -1 ==> *final(k) == *old(k),
        r == 0 && len > 0 ==> kernel_same_except_cur(*old(k), *final(k)) && final(k).files == old(k).files && final(k).fs == old(k).fs && pcb_same_except_aspace(old(k).cur_task(), final(k).cur_task()) && munmap_post(
            old(k).cur_aspace(),
            final(k).cur_aspace(),
            start,
            len,
        ),
        r == 0 && len == 0 ==> *final(k) == *old(k),
{
    if start % PAGE_SIZE != 0 {
        return -1;
    }
    if len == 0 {
        return 0;
    }
    if start > MAX_VA || len > MAX_VA - start {
        return -1;
    }
    let s = start / PAGE_SIZE;
    let np = (len + PAGE_SIZE - 1) / PAGE_SIZE;
    proof {
        crate::aspace::lemma_page_span(start as int, len as int);
    }
    let mut i: usize = 0;
    while i < np
        invariant
            i <= np,
            k.wf(),
            k.running_ok(),
            *k == *old(k),
            s == start as int / PAGE_SIZE as int,
            np == (len + PAGE_SIZE as int - 1) / PAGE_SIZE as int,
            s + np <= crate::aspace::MAX_VPN,
            forall|p: int| s <= p < s + i ==> #[trigger] k.cur_aspace().is_mapped(p),
        decreases np - i,
    {
        let a = &k.tasks[k.current].aspace;
        proof {
            assert(a.table_wf());
        }
        match a.translate(s + i) {
            Some(_) => {},
            None => {
                proof {
                    assert(in_page_range(start as int, len as int, s + i as int));
                    assert(!old(k).cur_aspace().is_mapped(s + i as int));
                }
                return -1;
            },
        }
        i += 1;
    }
    proof {
        assert forall|p: int|
            in_page_range(start as int, len as int, p) implies #[trigger] old(
        k).cur_aspace().is_mapped(p) by {
            assert(s <= p < s + np);
        }
        assert(munmap_ok(old(k).cur_aspace(), start, len));
    }
    k.set_unmap(start, len);
    0
}

} // verus!
