//! Process control blocks and the kernel singleton: the global table of
//! PCBs, the round-robin scheduler, and the bookkeeping every syscall reads.
//! The table is one owned structure handed explicitly to each entry point,
//! the single well-defined access point to all shared state.

use vstd::prelude::*;

use crate::aspace::framed_insert_post;
use crate::aspace::in_page_range;
use crate::aspace::munmap_ok;
use crate::aspace::munmap_post;
use crate::aspace::sbrk_ok;
use crate::aspace::sbrk_post;
use crate::aspace::AddressSpace;
use crate::aspace::PageEntry;
use crate::aspace::Region;
use crate::aspace::MAX_VA;
use crate::aspace::PAGE_SIZE;
use crate::fs::FileHandle;
use crate::fs::Fs;
use crate::fs::MAX_FILE;

verus! {

/// Number of distinct syscalls whose invocations are counted per process.
pub const MAX_SYSCALL_NUM: usize = 500;

/// Largest number of process slots the table may hold.
pub const PID_LIMIT: usize = 0x10000;

/// Largest number of fd slots one process may hold.
pub const FD_LIMIT: usize = 1024;

/// Lowest address of every process's heap.
pub const USER_HEAP_BASE: usize = 0x3000_0000;

/// Entry point a fresh program image starts at.
pub const ENTRY_POINT: usize = 0x1_0000;

/// Initial user stack pointer of a fresh program image.
pub const USER_STACK_TOP: usize = 0x3fff_f000;

/// Upper bound on the model's clock, in milliseconds.
pub const MAX_TIME_MS: usize = 0x1000_0000;

/// Execution state of a process. Waiting is expressed by staying `Ready`
/// until a condition is satisfied; there is no blocked state.
#[derive(Clone, Copy, PartialEq, Eq, Structural)]
pub enum TaskStatus {
    /// Runnable, waiting to be selected.
    Ready,
    /// The single process the core is executing.
    Running,
    /// Exited, holding only its exit code until reaped.
    Zombie,
}

/// Saved user-mode register state of a suspended trap: only what the model
/// reads — the return-value register, the program counter, the stack pointer.
#[derive(Clone, Copy)]
pub struct TrapFrame {
    /// Return-value register, patched to 0 for a forked child.
    pub a0: usize,
    /// Saved user program counter.
    pub sepc: usize,
    /// Saved user stack pointer.
    pub sp: usize,
}

/// One process control block.
pub struct Pcb {
    /// Process id; equal to the slot index, never reused.
    pub pid: usize,
    /// Execution state.
    pub status: TaskStatus,
    /// False once the process has been reaped and its resources freed.
    pub alive: bool,
    /// The process's virtual address space, exclusively owned.
    pub aspace: AddressSpace,
    /// The saved trap frame.
    pub trap: TrapFrame,
    /// Open-file slots; the index is the fd number, the value an index into
    /// the kernel's open-file table. Slots are reused by overwrite with
    /// `None`, never removed, so fd numbers stay stable. Fork copies the
    /// indices, so parent and child share the same handles and cursors.
    pub fd_table: Vec<Option<usize>>,
    /// The parent's pid: a non-owning link.
    pub parent: Option<usize>,
    /// Pids of the children this process owns.
    pub children: Vec<usize>,
    /// Exit code, meaningful once `Zombie`.
    pub exit_code: i32,
    /// Scheduling priority weight.
    pub priority: usize,
    /// Per-syscall invocation counters.
    pub syscall_times: Vec<u32>,
    /// True once the process has been scheduled at least once.
    pub has_run: bool,
    /// Wall-clock time of the first run, in ms; meaningful once `has_run`.
    pub start_time_ms: usize,
}

impl Pcb {
    /// Well-formedness of one PCB against an open-file table of `nfiles`
    /// handles.
    pub open spec fn wf(self, nfiles: int) -> bool {
        &&& self.aspace.wf()
        &&& self.syscall_times@.len() == MAX_SYSCALL_NUM
        &&& self.fd_table@.len() <= FD_LIMIT
        &&& forall|f: int|
            0 <= f < self.fd_table@.len() && self.fd_table@[f] is Some ==> (
            #[trigger] self.fd_table@[f])->0 < nfiles
    }
}

/// `tasks` with task `i`'s status replaced.
pub open spec fn with_status(tasks: Seq<Pcb>, i: int, st: TaskStatus) -> Seq<Pcb> {
    tasks.update(i, Pcb { status: st, ..tasks[i] })
}

/// `tasks` with task `i` marked a zombie carrying `code`.
pub open spec fn exit_mark(tasks: Seq<Pcb>, i: int, code: i32) -> Seq<Pcb> {
    tasks.update(i, Pcb { status: TaskStatus::Zombie, exit_code: code, ..tasks[i] })
}

/// `p` marked running; its first selection ever stamps the first-run time.
pub open spec fn run_mark(p: Pcb, now: usize) -> Pcb {
    Pcb {
        status: TaskStatus::Running,
        has_run: true,
        start_time_ms: if p.has_run {
            p.start_time_ms
        } else {
            now
        },
        ..p
    }
}

/// Round-robin scan: the first live `Ready` task at distance `d, d+1, ...`
/// from `cur`, wrapping modulo the table size; `None` if a full turn finds
/// nothing.
pub open spec fn scan_from(tasks: Seq<Pcb>, cur: int, d: int) -> Option<usize>
    decreases tasks.len() + 1 - d,
{
    if d < 1 || d > tasks.len() {
        None
    } else {
        let i = (cur + d) % (tasks.len() as int);
        if tasks[i].alive && tasks[i].status is Ready {
            Some(i as usize)
        } else {
            scan_from(tasks, cur, d + 1)
        }
    }
}

/// The next task pure round-robin picks after `cur`: the first `Ready`
/// process strictly after `cur` in wrapping scan order.
pub open spec fn rr_next(tasks: Seq<Pcb>, cur: int) -> Option<usize> {
    scan_from(tasks, cur, 1)
}

/// The kernel: the one process-wide object owning the PCB table, the
/// filesystem and the clock, constructed once at startup.
pub struct Kernel {
    /// All PCBs; the index is the pid.
    pub tasks: Vec<Pcb>,
    /// Index of the `Running` task while the kernel runs.
    pub current: usize,
    /// True once the first task was started.
    pub started: bool,
    /// True once no runnable work is left: the fatal halt.
    pub halted: bool,
    /// The open-file table: one shared handle per `open`, referenced by fd
    /// slots; a fork's copied slots point at the same entry, so the cursor
    /// is shared. Entries are never removed.
    pub files: Vec<FileHandle>,
    /// The filesystem façade's state.
    pub fs: Fs,
    /// The monotonic wall clock, in milliseconds.
    pub now_ms: usize,
}

impl Kernel {
    /// The kernel is executing user work: started and not halted.
    pub open spec fn running_ok(self) -> bool {
        self.started && !self.halted
    }

    /// The currently running PCB.
    pub open spec fn cur_task(self) -> Pcb {
        self.tasks@[self.current as int]
    }

    /// The current task's address space.
    pub open spec fn cur_aspace(self) -> AddressSpace {
        self.cur_task().aspace
    }

    /// Well-formedness of the whole kernel. Exactly one PCB is `Running`
    /// whenever the kernel runs — the scheduling invariant — and none
    /// otherwise; pids equal slot indices; children links are consistent.
    pub open spec fn wf(self) -> bool {
        &&& self.fs.wf()
        &&& self.tasks@.len() <= PID_LIMIT
        &&& self.now_ms <= MAX_TIME_MS
        &&& forall|i: int|
            0 <= i < self.tasks@.len() ==> (#[trigger] self.tasks@[i]).pid == i
                && self.tasks@[i].wf(self.files@.len() as int)
        &&& forall|f: int|
            0 <= f < self.files@.len() ==> (#[trigger] self.files@[f]).ino
                < self.fs.inodes@.len() && self.files@[f].offset <= MAX_FILE
        &&& forall|i: int|
            0 <= i < self.tasks@.len() && !(#[trigger] self.tasks@[i]).alive
                ==> self.tasks@[i].status is Zombie
        &&& forall|i: int|
            0 <= i < self.tasks@.len() ==> (#[trigger] self.tasks@[i]).start_time_ms <= self.now_ms
        &&& forall|i: int, j: int|
            0 <= i < self.tasks@.len() && 0 <= j < (#[trigger] self.tasks@[i]).children@.len()
                ==> 0 <= #[trigger] self.tasks@[i].children@[j] < self.tasks@.len()
                    && self.tasks@[self.tasks@[i].children@[j] as int].alive
                    && self.tasks@[self.tasks@[i].children@[j] as int].parent == Some(i as usize)
                    && self.tasks@[i].children@[j] != i as usize
        &&& forall|i: int, a: int, b: int|
            0 <= i < self.tasks@.len() && 0 <= a < b < (#[trigger] self.tasks@[i]).children@.len()
                ==> (#[trigger] self.tasks@[i].children@[a]) != (
            #[trigger] self.tasks@[i].children@[b])
        &&& self.running_ok() ==> self.current < self.tasks@.len() && self.cur_task().alive
        &&& forall|i: int|
            0 <= i < self.tasks@.len() ==> ((#[trigger] self.tasks@[i]).status is Running <==> (
            self.running_ok() && i == self.current as int))
    }

    /// The kernel as it boots: `n` fresh `Ready` processes with empty
    /// address spaces and fd tables, an empty filesystem, time zero.
    pub fn new_kernel(n: usize) -> (r: Kernel)
        requires
            0 < n <= PID_LIMIT,
        ensures
            r.wf(),
            !r.started,
            !r.halted,
            r.tasks@.len() == n,
            r.now_ms == 0,
            forall|i: int|
                0 <= i < n ==> (#[trigger] r.tasks@[i]).status is Ready && r.tasks@[i].alive
                    && r.tasks@[i].children@.len() == 0 && r.tasks@[i].fd_table@.len() == 0,
            r.fs.links@.len() == 0,
            r.fs.inodes@.len() == 0,
            r.files@.len() == 0,
    {
        let mut tasks: Vec<Pcb> = Vec::new();
        let mut i: usize = 0;
        while i < n
            invariant
                i <= n,
                n <= PID_LIMIT,
                tasks@.len() == i,
                forall|j: int|
                    0 <= j < i ==> (#[trigger] tasks@[j]).pid == j && tasks@[j].status is Ready
                        && tasks@[j].alive && tasks@[j].children@.len() == 0
                        && tasks@[j].fd_table@.len() == 0 && tasks@[j].parent is None
                        && tasks@[j].aspace.wf() && tasks@[j].start_time_ms == 0
                        && tasks@[j].syscall_times@.len() == MAX_SYSCALL_NUM,
            decreases n - i,
        {
            tasks.push(fresh_pcb(i));
            i += 1;
        }
        let r = Kernel {
            tasks,
            current: 0,
            started: false,
            halted: false,
            files: Vec::new(),
            fs: Fs::new_fs(),
            now_ms: 0,
        };
        r
    }

    /// Advance the wall clock by `ms` milliseconds.
    pub fn tick(&mut self, ms: usize)
        requires
            old(self).wf(),
            old(self).now_ms + ms <= MAX_TIME_MS,
        ensures
            final(self).wf(),
            final(self).now_ms == old(self).now_ms + ms,
            final(self).tasks@ == old(self).tasks@,
            final(self).current == old(self).current,
            final(self).started == old(self).started,
            final(self).halted == old(self).halted,
            final(self).files == old(self).files,
            final(self).files == old(self).files,
            final(self).fs == old(self).fs,
    {
        self.now_ms = self.now_ms + ms;
    }

    /// Replace task `i`, returning the previous PCB. The table's other slots
    /// and the kernel's other fields are untouched.
    pub(crate) fn swap_task(&mut self, i: usize, p: Pcb) -> (r: Pcb)
        requires
            i < old(self).tasks@.len(),
        ensures
            final(self).tasks@ == old(self).tasks@.update(i as int, p),
            r == old(self).tasks@[i as int],
            final(self).current == old(self).current,
            final(self).started == old(self).started,
            final(self).halted == old(self).halted,
            final(self).files == old(self).files,
            final(self).files == old(self).files,
            final(self).fs == old(self).fs,
            final(self).now_ms == old(self).now_ms,
    {
        let r = self.tasks.remove(i);
        self.tasks.insert(i, p);
        proof {
            assert(self.tasks@ =~= old(self).tasks@.update(i as int, p));
        }
        r
    }

    /// Boot: mark process 0 `Running`, record its start time, and hand the
    /// core to it. The hardware context transfer is the trap assembly's
    /// concern; the model keeps the bookkeeping.
    pub fn run_first_task(&mut self)
        requires
            old(self).wf(),
            !old(self).started,
            !old(self).halted,
            old(self).tasks@.len() > 0,
            old(self).tasks@[0].alive,
        ensures
            final(self).wf(),
            final(self).running_ok(),
            final(self).current == 0,
            final(self).tasks@ == old(self).tasks@.update(
                0,
                run_mark(old(self).tasks@[0], old(self).now_ms),
            ),
            final(self).files == old(self).files,
            final(self).fs == old(self).fs,
            final(self).now_ms == old(self).now_ms,
    {
        let t0 = self.now_ms;
        let mut p = self.swap_task(0, fresh_pcb(0));
        p.status = TaskStatus::Running;
        if !p.has_run {
            p.start_time_ms = t0;
        }
        p.has_run = true;
        let _ = self.swap_task(0, p);
        self.current = 0;
        self.started = true;
        proof {
            let pre = *old(self);
            assert(self.tasks@ =~= pre.tasks@.update(0, run_mark(pre.tasks@[0], pre.now_ms)));
            assert forall|i: int, j: int|
                0 <= i < self.tasks@.len() && 0 <= j < (#[trigger] self.tasks@[i]).children@.len()
                implies 0 <= #[trigger] self.tasks@[i].children@[j] < self.tasks@.len()
                && self.tasks@[self.tasks@[i].children@[j] as int].alive
                && self.tasks@[self.tasks@[i].children@[j] as int].parent == Some(i as usize)
                && self.tasks@[i].children@[j] != i as usize by {
                assert(pre.tasks@[i].children@[j] == self.tasks@[i].children@[j]);
                assert(0 <= pre.tasks@[i].children@[j] < pre.tasks@.len());
            }
            assert forall|i: int| 0 <= i < self.tasks@.len() implies ((
            #[trigger] self.tasks@[i]).status is Running <==> (self.running_ok() && i
                == self.current as int)) by {
                if i != 0 {
                    assert(self.tasks@[i] == pre.tasks@[i]);
                    assert(!(pre.tasks@[i].status is Running));
                }
            }
            assert(self.wf());
        }
    }

    /// Mark the `Running` process `Ready`, then select and switch to the
    /// next `Ready` process in round-robin order. Always switches somewhere:
    /// the yielding process itself is `Ready` again.
    pub fn suspend_current_and_run_next(&mut self)
        requires
            old(self).wf(),
            old(self).running_ok(),
        ensures
            final(self).wf(),
            final(self).running_ok(),
            ({
                let m = with_status(old(self).tasks@, old(self).current as int, TaskStatus::Ready);
                &&& rr_next(m, old(self).current as int) == Some(final(self).current)
                &&& final(self).tasks@ == m.update(
                    final(self).current as int,
                    run_mark(m[final(self).current as int], old(self).now_ms),
                )
            }),
            final(self).tasks@.len() == old(self).tasks@.len(),
            final(self).started == old(self).started,
            final(self).files == old(self).files,
            final(self).fs == old(self).fs,
            final(self).now_ms == old(self).now_ms,
    {
        let cur = self.current;
        let mut p = self.swap_task(cur, fresh_pcb(0));
        p.status = TaskStatus::Ready;
        let _ = self.swap_task(cur, p);
        proof {
            assert(self.tasks@ =~= with_status(
                old(self).tasks@,
                old(self).current as int,
                TaskStatus::Ready,
            ));
            let n = self.tasks@.len() as int;
            vstd::arithmetic::div_mod::lemma_mod_multiples_vanish(1, cur as int, n);
            vstd::arithmetic::div_mod::lemma_small_mod(cur as nat, n as nat);
            assert((cur as int + n) % n == cur as int);
            lemma_scan_some(self.tasks@, cur as int, 1, n);
        }
        let next = match self.find_next_task() {
            Some(n) => n,
            None => {
                proof {
                    assert(false);
                }
                0
            },
        };
        let t0 = self.now_ms;
        let ghost m = self.tasks@;
        let mut q = self.swap_task(next, fresh_pcb(0));
        q.status = TaskStatus::Running;
        if !q.has_run {
            q.start_time_ms = t0;
        }
        q.has_run = true;
        let _ = self.swap_task(next, q);
        self.current = next;
        proof {
            let pre = *old(self);
            assert(self.tasks@ =~= m.update(next as int, run_mark(m[next as int], pre.now_ms)));
            lemma_scan_first(m, cur as int, 1, next);
            assert(m[next as int].alive && m[next as int].status is Ready);
            assert forall|i: int, j: int|
                0 <= i < self.tasks@.len() && 0 <= j < (#[trigger] self.tasks@[i]).children@.len()
                implies 0 <= #[trigger] self.tasks@[i].children@[j] < self.tasks@.len()
                && self.tasks@[self.tasks@[i].children@[j] as int].alive
                && self.tasks@[self.tasks@[i].children@[j] as int].parent == Some(i as usize)
                && self.tasks@[i].children@[j] != i as usize by {
                assert(pre.tasks@[i].children@[j] == self.tasks@[i].children@[j]);
                assert(0 <= pre.tasks@[i].children@[j] < pre.tasks@.len());
            }
            assert(self.wf());
        }
    }

    /// Mark the `Running` process a `Zombie` carrying `code`, then switch to
    /// the next `Ready` process; when none is left the kernel halts. The
    /// zombie keeps only its exit code until its parent reaps it; its
    /// children stay linked to it until then.
    pub fn exit_current_and_run_next(&mut self, code: i32)
        requires
            old(self).wf(),
            old(self).running_ok(),
        ensures
            final(self).wf(),
            ({
                let m = exit_mark(old(self).tasks@, old(self).current as int, code);
                match rr_next(m, old(self).current as int) {
                    Some(n) => final(self).tasks@ == m.update(
                        n as int,
                        run_mark(m[n as int], old(self).now_ms),
                    ) && final(self).current == n && final(self).running_ok(),
                    None => final(self).tasks@ == m && final(self).halted,
                }
            }),
            final(self).tasks@.len() == old(self).tasks@.len(),
            final(self).started == old(self).started,
            final(self).files == old(self).files,
            final(self).fs == old(self).fs,
            final(self).now_ms == old(self).now_ms,
    {
        let cur = self.current;
        let mut p = self.swap_task(cur, fresh_pcb(0));
        p.status = TaskStatus::Zombie;
        p.exit_code = code;
        let _ = self.swap_task(cur, p);
        proof {
            assert(self.tasks@ =~= exit_mark(old(self).tasks@, old(self).current as int, code));
        }
        let ghost m = self.tasks@;
        match self.find_next_task() {
            Some(next) => {
                let t0 = self.now_ms;
                let mut q = self.swap_task(next, fresh_pcb(0));
                q.status = TaskStatus::Running;
                if !q.has_run {
                    q.start_time_ms = t0;
                }
                q.has_run = true;
                let _ = self.swap_task(next, q);
                self.current = next;
                proof {
                    let pre = *old(self);
                    assert(self.tasks@ =~= m.update(
                        next as int,
                        run_mark(m[next as int], pre.now_ms),
                    ));
                    lemma_scan_first(m, cur as int, 1, next);
                    assert(m[next as int].alive && m[next as int].status is Ready);
                    assert forall|i: int, j: int|
                        0 <= i < self.tasks@.len() && 0 <= j < (
                    #[trigger] self.tasks@[i]).children@.len() implies 0
                        <= #[trigger] self.tasks@[i].children@[j] < self.tasks@.len()
                        && self.tasks@[self.tasks@[i].children@[j] as int].alive
                        && self.tasks@[self.tasks@[i].children@[j] as int].parent == Some(
                        i as usize,
                    ) && self.tasks@[i].children@[j] != i as usize by {
                        assert(pre.tasks@[i].children@[j] == self.tasks@[i].children@[j]);
                        assert(0 <= pre.tasks@[i].children@[j] < pre.tasks@.len());
                    }
                    assert(self.wf());
                }
            },
            None => {
                self.halted = true;
                proof {
                    let pre = *old(self);
                    assert forall|i: int, j: int|
                        0 <= i < self.tasks@.len() && 0 <= j < (
                    #[trigger] self.tasks@[i]).children@.len() implies 0
                        <= #[trigger] self.tasks@[i].children@[j] < self.tasks@.len()
                        && self.tasks@[self.tasks@[i].children@[j] as int].alive
                        && self.tasks@[self.tasks@[i].children@[j] as int].parent == Some(
                        i as usize,
                    ) && self.tasks@[i].children@[j] != i as usize by {
                        assert(pre.tasks@[i].children@[j] == self.tasks@[i].children@[j]);
                        assert(0 <= pre.tasks@[i].children@[j] < pre.tasks@.len());
                    }
                    assert(self.wf());
                }
            },
        }
    }

    /// Install a framed area in the current task's address space. The
    /// syscall layer has verified, page by page, that the range is free.
    pub fn set_memory_set(&mut self, start: usize, end: usize, perm: u8)
        requires
            old(self).wf(),
            old(self).running_ok(),
            start % PAGE_SIZE == 0,
            start < end <= MAX_VA,
            forall|p: int|
                in_page_range(start as int, end as int - start as int, p) ==> !(#[trigger] old(self).cur_aspace().is_mapped(p)),
        ensures
            final(self).wf(),
            final(self).running_ok(),
            kernel_same_except_cur(*old(self), *final(self)),
            final(self).files == old(self).files,
            final(self).fs == old(self).fs,
            pcb_same_except_aspace(old(self).cur_task(), final(self).cur_task()),
            framed_insert_post(
                old(self).cur_aspace(),
                final(self).cur_aspace(),
                start,
                end,
                perm,
            ),
    {
        let cur = self.current;
        let mut p = self.swap_task(cur, fresh_pcb(0));
        proof {
            assert(p.aspace == old(self).cur_aspace());
        }
        p.aspace.insert_framed_area(start, end, perm);
        let _ = self.swap_task(cur, p);
        proof {
            lemma_wf_update_cur(*old(self), *self);
        }
    }

    /// Remove a mapped range from the current task's address space. The
    /// syscall layer has verified, page by page, that the whole range is
    /// currently mapped; heap pages go like any others.
    pub fn set_unmap(&mut self, start: usize, len: usize)
        requires
            old(self).wf(),
            old(self).running_ok(),
            munmap_ok(old(self).cur_aspace(), start, len),
            len > 0,
        ensures
            final(self).wf(),
            final(self).running_ok(),
            kernel_same_except_cur(*old(self), *final(self)),
            final(self).files == old(self).files,
            final(self).fs == old(self).fs,
            pcb_same_except_aspace(old(self).cur_task(), final(self).cur_task()),
            munmap_post(old(self).cur_aspace(), final(self).cur_aspace(), start, len),
    {
        let cur = self.current;
        let mut p = self.swap_task(cur, fresh_pcb(0));
        proof {
            assert(p.aspace == old(self).cur_aspace());
        }
        p.aspace.unmap_range(start, len);
        let _ = self.swap_task(cur, p);
        proof {
            lemma_wf_update_cur(*old(self), *self);
        }
    }

    /// Move the current task's program break by `size` bytes; the previous
    /// break on success, `None` with no change when the move is refused.
    pub fn change_current_program_brk(&mut self, size: i32) -> (r: Option<usize>)
        requires
            old(self).wf(),
            old(self).running_ok(),
        ensures
            final(self).wf(),
            final(self).running_ok(),
            kernel_same_except_cur(*old(self), *final(self)),
            final(self).files == old(self).files,
            final(self).fs == old(self).fs,
            pcb_same_except_aspace(old(self).cur_task(), final(self).cur_task()),
            (r is Some) <==> sbrk_ok(old(self).cur_aspace(), size as int),
            r is Some ==> r == Some(old(self).cur_aspace().brk) && sbrk_post(
                old(self).cur_aspace(),
                final(self).cur_aspace(),
                size as int,
            ),
            r is None ==> final(self).cur_aspace() == old(self).cur_aspace(),
    {
        let cur = self.current;
        let mut p = self.swap_task(cur, fresh_pcb(0));
        proof {
            assert(p.aspace == old(self).cur_aspace());
        }
        let r = p.aspace.change_program_brk(size);
        let _ = self.swap_task(cur, p);
        proof {
            lemma_wf_update_cur(*old(self), *self);
        }
        r
    }

    /// Copy `data` into the current task's memory at `va`, crossing page
    /// boundaries as needed; `false` with no change if a page is unmapped.
    pub fn copy_to_current(&mut self, va: usize, data: &Vec<u8>) -> (ok: bool)
        requires
            old(self).wf(),
            old(self).running_ok(),
            va + data@.len() <= MAX_VA,
        ensures
            final(self).wf(),
            final(self).running_ok(),
            kernel_same_except_cur(*old(self), *final(self)),
            final(self).files == old(self).files,
            final(self).fs == old(self).fs,
            pcb_same_except_aspace(old(self).cur_task(), final(self).cur_task()),
            ok == old(self).cur_aspace().range_mapped(va as int, data@.len() as int),
            !ok ==> final(self).cur_aspace() == old(self).cur_aspace(),
            ok ==> final(self).cur_aspace().table@ == old(self).cur_aspace().table@ && final(self).cur_aspace().regions@ == old(self).cur_aspace().regions@ && final(self).cur_aspace().heap_base == old(self).cur_aspace().heap_base && final(self).cur_aspace().brk == old(self).cur_aspace().brk,
            ok ==> forall|i: int|
                0 <= i < data@.len() ==> #[trigger] final(self).cur_aspace().byte(va as int + i)
                    == data@[i],
            ok ==> forall|va2: int|
                0 <= va2 && (va2 < va as int || va2 >= va as int + data@.len()) && old(self).cur_aspace().is_mapped(va2 / PAGE_SIZE as int) ==> #[trigger] final(self).cur_aspace().byte(va2) == old(self).cur_aspace().byte(va2),
    {
        let cur = self.current;
        let mut p = self.swap_task(cur, fresh_pcb(0));
        proof {
            assert(p.aspace == old(self).cur_aspace());
        }
        let ok = p.aspace.write_bytes(va, data);
        let _ = self.swap_task(cur, p);
        proof {
            lemma_wf_update_cur(*old(self), *self);
        }
        ok
    }

    /// Copy `len` bytes out of the current task's memory at `va`; `None` if
    /// a page of the range is unmapped.
    pub fn copy_from_current(&self, va: usize, len: usize) -> (r: Option<Vec<u8>>)
        requires
            self.wf(),
            self.running_ok(),
            va + len <= MAX_VA,
        ensures
            match r {
                Some(v) => self.cur_aspace().range_mapped(va as int, len as int) && v@.len() == len
                    && forall|i: int|
                    0 <= i < len ==> #[trigger] v@[i] == self.cur_aspace().byte(va as int + i),
                None => !self.cur_aspace().range_mapped(va as int, len as int),
            },
    {
        let a = &self.tasks[self.current].aspace;
        proof {
            assert(a.wf());
        }
        a.read_bytes(va, len)
    }

    /// Record one invocation of syscall `id` by the current task; the
    /// counter saturates rather than wraps.
    pub fn plus_syscall(&mut self, id: usize)
        requires
            old(self).wf(),
            old(self).running_ok(),
            id < MAX_SYSCALL_NUM,
        ensures
            final(self).wf(),
            final(self).running_ok(),
            kernel_same_except_cur(*old(self), *final(self)),
            final(self).files == old(self).files,
            final(self).fs == old(self).fs,
            final(self).cur_task().syscall_times@ == old(self).cur_task().syscall_times@.update(
                id as int,
                (if old(self).cur_task().syscall_times@[id as int] == u32::MAX {
                    u32::MAX
                } else {
                    (old(self).cur_task().syscall_times@[id as int] + 1) as u32
                }),
            ),
            final(self).cur_task().aspace == old(self).cur_task().aspace,
            final(self).cur_task().fd_table@ == old(self).cur_task().fd_table@,
            final(self).cur_task().status == old(self).cur_task().status,
            final(self).cur_task().start_time_ms == old(self).cur_task().start_time_ms,
            final(self).cur_task().children@ == old(self).cur_task().children@,
            final(self).cur_task().parent == old(self).cur_task().parent,
            final(self).cur_task().pid == old(self).cur_task().pid,
            final(self).cur_task().priority == old(self).cur_task().priority,
            final(self).cur_task().trap == old(self).cur_task().trap,
            final(self).cur_task().exit_code == old(self).cur_task().exit_code,
            final(self).cur_task().alive == old(self).cur_task().alive,
            final(self).cur_task().has_run == old(self).cur_task().has_run,
    {
        let cur = self.current;
        let mut p = self.swap_task(cur, fresh_pcb(0));
        let c = p.syscall_times[id];
        let nc = if c == u32::MAX {
            c
        } else {
            c + 1
        };
        p.syscall_times[id] = nc;
        let _ = self.swap_task(cur, p);
        proof {
            lemma_wf_update_cur(*old(self), *self);
        }
    }

    /// The current task's per-syscall invocation counters, copied out.
    pub fn get_syscall(&self) -> (r: Vec<u32>)
        requires
            self.wf(),
            self.running_ok(),
        ensures
            r@ == self.cur_task().syscall_times@,
    {
        copy_counters(&self.tasks[self.current].syscall_times)
    }

    /// The wall-clock time of the current task's first run.
    pub fn get_task_running_time(&self) -> (r: usize)
        requires
            self.wf(),
            self.running_ok(),
        ensures
            r == self.cur_task().start_time_ms,
    {
        self.tasks[self.current].start_time_ms
    }

    /// Allocate a new PCB owned by the current task: a `Ready` child with
    /// the given address space, trap frame, fd table and priority, fresh
    /// accounting, and the parent/child links set both ways.
    pub(crate) fn add_child(
        &mut self,
        aspace: AddressSpace,
        trap: TrapFrame,
        fd_table: Vec<Option<usize>>,
        priority: usize,
    ) -> (npid: usize)
        requires
            old(self).wf(),
            old(self).running_ok(),
            old(self).tasks@.len() < PID_LIMIT,
            aspace.wf(),
            fd_table@.len() <= FD_LIMIT,
            forall|f: int|
                0 <= f < fd_table@.len() && fd_table@[f] is Some ==> (#[trigger] fd_table@[f])->0
                    < old(self).files@.len(),
        ensures
            final(self).wf(),
            final(self).running_ok(),
            npid == old(self).tasks@.len(),
            final(self).tasks@.len() == old(self).tasks@.len() + 1,
            final(self).current == old(self).current,
            final(self).started == old(self).started,
            final(self).halted == old(self).halted,
            final(self).files == old(self).files,
            final(self).fs == old(self).fs,
            final(self).now_ms == old(self).now_ms,
            forall|j: int|
                0 <= j < old(self).tasks@.len() && j != old(self).current as int
                    ==> #[trigger] final(self).tasks@[j] == old(self).tasks@[j],
            final(self).cur_task().children@ == old(self).cur_task().children@.push(npid),
            pcb_same_except_children(old(self).cur_task(), final(self).cur_task()),
            ({
                let c = final(self).tasks@[npid as int];
                &&& c.pid == npid
                &&& c.status is Ready
                &&& c.alive
                &&& c.aspace == aspace
                &&& c.trap == trap
                &&& c.fd_table@ == fd_table@
                &&& c.parent == Some(old(self).current)
                &&& c.children@.len() == 0
                &&& c.exit_code == 0
                &&& c.priority == priority
                &&& !c.has_run
                &&& c.start_time_ms == 0
                &&& forall|j: int| 0 <= j < MAX_SYSCALL_NUM ==> #[trigger] c.syscall_times@[j] == 0
            }),
    {
        let npid = self.tasks.len();
        let cur = self.current;
        let child = Pcb {
            pid: npid,
            status: TaskStatus::Ready,
            alive: true,
            aspace,
            trap,
            fd_table,
            parent: Some(cur),
            children: Vec::new(),
            exit_code: 0,
            priority,
            syscall_times: zero_counters(),
            has_run: false,
            start_time_ms: 0,
        };
        self.tasks.push(child);
        let mut p = self.swap_task(cur, fresh_pcb(0));
        p.children.push(npid);
        let _ = self.swap_task(cur, p);
        proof {
            let pre = *old(self);
            let c = cur as int;
            let np = npid as int;
            assert(self.tasks@.len() == pre.tasks@.len() + 1);
            assert(forall|j: int|
                0 <= j < pre.tasks@.len() && j != c ==> #[trigger] self.tasks@[j]
                    == pre.tasks@[j]);
            assert(self.tasks@[c].children@ == pre.tasks@[c].children@.push(npid));
            assert forall|i: int| 0 <= i < self.tasks@.len() implies (#[trigger] self.tasks@[i]).pid
                == i && self.tasks@[i].wf(self.files@.len() as int) by {
                if i != c && i != np {
                    assert(self.tasks@[i] == pre.tasks@[i]);
                }
            }
            assert forall|i: int|
                0 <= i < self.tasks@.len() && !(#[trigger] self.tasks@[i]).alive implies
            self.tasks@[i].status is Zombie by {
                if i != c && i != np {
                    assert(self.tasks@[i] == pre.tasks@[i]);
                }
            }
            assert forall|i: int|
                0 <= i < self.tasks@.len() implies (#[trigger] self.tasks@[i]).start_time_ms
                <= self.now_ms by {
                if i != c && i != np {
                    assert(self.tasks@[i] == pre.tasks@[i]);
                }
            }
            assert forall|i: int, j: int|
                0 <= i < self.tasks@.len() && 0 <= j < (#[trigger] self.tasks@[i]).children@.len()
                implies 0 <= #[trigger] self.tasks@[i].children@[j] < self.tasks@.len()
                && self.tasks@[self.tasks@[i].children@[j] as int].alive
                && self.tasks@[self.tasks@[i].children@[j] as int].parent == Some(i as usize)
                && self.tasks@[i].children@[j] != i as usize by {
                if i == np {
                    assert(self.tasks@[np].children@.len() == 0);
                } else {
                    let e = self.tasks@[i].children@[j];
                    if i == c && j == pre.tasks@[c].children@.len() {
                        assert(e == npid);
                        assert(self.tasks@[np].alive && self.tasks@[np].parent == Some(cur));
                    } else {
                        assert(e == pre.tasks@[i].children@[j]);
                        assert(0 <= e < pre.tasks@.len() && pre.tasks@[e as int].alive
                            && pre.tasks@[e as int].parent == Some(i as usize) && e != i as usize);
                        assert(self.tasks@[e as int].alive && self.tasks@[e as int].parent == Some(
                            i as usize,
                        )) by {
                            if e as int != c {
                                assert(self.tasks@[e as int] == pre.tasks@[e as int]);
                            }
                        }
                    }
                }
            }
            assert forall|i: int, a: int, b: int|
                0 <= i < self.tasks@.len() && 0 <= a < b < (
            #[trigger] self.tasks@[i]).children@.len() implies (
            #[trigger] self.tasks@[i].children@[a]) != (#[trigger] self.tasks@[i].children@[b]) by {
                if i == np {
                    assert(self.tasks@[np].children@.len() == 0);
                } else {
                    let n0 = pre.tasks@[i].children@.len() as int;
                    if i == c && b == n0 {
                        assert(self.tasks@[i].children@[a] == pre.tasks@[i].children@[a]);
                        assert(0 <= pre.tasks@[i].children@[a] < pre.tasks@.len());
                        assert(self.tasks@[i].children@[b] == npid);
                    } else {
                        assert(self.tasks@[i].children@[a] == pre.tasks@[i].children@[a]);
                        assert(self.tasks@[i].children@[b] == pre.tasks@[i].children@[b]);
                        assert(pre.tasks@[i].children@[a] != pre.tasks@[i].children@[b]);
                    }
                }
            }
            assert forall|i: int| 0 <= i < self.tasks@.len() implies ((
            #[trigger] self.tasks@[i]).status is Running <==> (self.running_ok() && i
                == self.current as int)) by {
                if i != c && i != np {
                    assert(self.tasks@[i] == pre.tasks@[i]);
                }
            }
            assert(self.wf());
        }
        npid
    }

    /// Round-robin selection: the first live `Ready` task after `current`
    /// in wrapping scan order.
    pub fn find_next_task(&self) -> (r: Option<usize>)
        requires
            0 < self.tasks@.len() <= PID_LIMIT,
            self.current < self.tasks@.len(),
        ensures
            r == rr_next(self.tasks@, self.current as int),
            r is Some ==> r->0 < self.tasks@.len(),
    {
        let n = self.tasks.len();
        let mut d: usize = 1;
        while d <= n
            invariant
                1 <= d <= n + 1,
                n == self.tasks@.len(),
                0 < n <= PID_LIMIT,
                self.current < n,
                scan_from(self.tasks@, self.current as int, 1) == scan_from(
                    self.tasks@,
                    self.current as int,
                    d as int,
                ),
            decreases n + 1 - d,
        {
            let i = (self.current + d) % n;
            let t = &self.tasks[i];
            if t.alive && matches!(t.status, TaskStatus::Ready) {
                return Some(i);
            }
            proof {
                assert(scan_from(self.tasks@, self.current as int, d as int) == scan_from(
                    self.tasks@,
                    self.current as int,
                    d as int + 1,
                ));
            }
            d += 1;
        }
        None
    }
}

/// The kernel fields and the other tasks' slots are unchanged; only the
/// current task's slot may differ.
pub open spec fn kernel_same_except_cur(pre: Kernel, post: Kernel) -> bool {
    &&& post.tasks@.len() == pre.tasks@.len()
    &&& forall|j: int|
        0 <= j < pre.tasks@.len() && j != pre.current as int ==> #[trigger] post.tasks@[j]
            == pre.tasks@[j]
    &&& post.current == pre.current
    &&& post.started == pre.started
    &&& post.halted == pre.halted
    &&& post.now_ms == pre.now_ms
}

/// The two PCBs agree on everything but the children list.
pub open spec fn pcb_same_except_children(a: Pcb, b: Pcb) -> bool {
    &&& b.pid == a.pid
    &&& b.status == a.status
    &&& b.alive == a.alive
    &&& b.trap == a.trap
    &&& b.fd_table@ == a.fd_table@
    &&& b.parent == a.parent
    &&& b.aspace == a.aspace
    &&& b.exit_code == a.exit_code
    &&& b.priority == a.priority
    &&& b.syscall_times@ == a.syscall_times@
    &&& b.has_run == a.has_run
    &&& b.start_time_ms == a.start_time_ms
}

/// Some child in the list matches the requested pid (`-1` matches any).
pub open spec fn has_match(children: Seq<usize>, pid: int) -> bool {
    exists|j: int| 0 <= j < children.len() && (pid == -1 || (#[trigger] children[j]) as int == pid)
}

/// Index of the first matching zombie child at or after position `i`, or
/// `-1` when none is a zombie yet.
pub open spec fn find_zombie(tasks: Seq<Pcb>, children: Seq<usize>, pid: int, i: int) -> int
    decreases children.len() - i,
{
    if i < 0 || i >= children.len() {
        -1
    } else if (pid == -1 || children[i] as int == pid) && tasks[children[i] as int].status
        is Zombie {
        i
    } else {
        find_zombie(tasks, children, pid, i + 1)
    }
}

/// A non-negative scan result names a matching zombie child.
proof fn lemma_find_zombie_hit_from(tasks: Seq<Pcb>, children: Seq<usize>, pid: int, i: int, f: int)
    requires
        0 <= i,
        find_zombie(tasks, children, pid, i) == f,
        0 <= f,
    ensures
        i <= f < children.len(),
        pid == -1 || children[f] as int == pid,
        tasks[children[f] as int].status is Zombie,
    decreases children.len() - i,
{
    if i >= children.len() {
        assert(find_zombie(tasks, children, pid, i) == -1);
    } else if (pid == -1 || children[i] as int == pid) && tasks[children[i] as int].status
        is Zombie {
        assert(f == i);
    } else {
        lemma_find_zombie_hit_from(tasks, children, pid, i + 1, f);
    }
}

/// A non-negative `find_zombie` result from the start of the list names a
/// matching zombie child.
pub proof fn lemma_find_zombie_hit(tasks: Seq<Pcb>, children: Seq<usize>, pid: int, f: int)
    requires
        find_zombie(tasks, children, pid, 0) == f,
        0 <= f,
    ensures
        f < children.len(),
        pid == -1 || children[f] as int == pid,
        tasks[children[f] as int].status is Zombie,
{
    lemma_find_zombie_hit_from(tasks, children, pid, 0, f);
}

/// The two PCBs agree on everything but the fd table.
pub open spec fn pcb_same_except_fd(a: Pcb, b: Pcb) -> bool {
    &&& b.pid == a.pid
    &&& b.status == a.status
    &&& b.alive == a.alive
    &&& b.trap == a.trap
    &&& b.aspace == a.aspace
    &&& b.parent == a.parent
    &&& b.children@ == a.children@
    &&& b.exit_code == a.exit_code
    &&& b.priority == a.priority
    &&& b.syscall_times@ == a.syscall_times@
    &&& b.has_run == a.has_run
    &&& b.start_time_ms == a.start_time_ms
}

/// Changing only the open-file and inode tables — growing them, keeping
/// every handle's bounds — preserves kernel well-formedness.
pub proof fn lemma_wf_update_files(pre: Kernel, post: Kernel)
    requires
        pre.wf(),
        post.tasks@ == pre.tasks@,
        post.current == pre.current,
        post.started == pre.started,
        post.halted == pre.halted,
        post.now_ms == pre.now_ms,
        post.fs.wf(),
        pre.fs.inodes@.len() <= post.fs.inodes@.len(),
        pre.files@.len() <= post.files@.len(),
        forall|f: int|
            0 <= f < post.files@.len() ==> (#[trigger] post.files@[f]).ino
                < post.fs.inodes@.len() && post.files@[f].offset <= MAX_FILE,
    ensures
        post.wf(),
        post.running_ok() == pre.running_ok(),
{
    assert forall|i: int| 0 <= i < post.tasks@.len() implies (#[trigger] post.tasks@[i]).pid == i
        && post.tasks@[i].wf(post.files@.len() as int) by {
        assert(post.tasks@[i] == pre.tasks@[i]);
        lemma_pcb_wf_grow(pre.tasks@[i], pre.files@.len() as int, post.files@.len() as int);
    }
}

/// The two PCBs agree on everything but the address space.
pub open spec fn pcb_same_except_aspace(a: Pcb, b: Pcb) -> bool {
    &&& b.pid == a.pid
    &&& b.status == a.status
    &&& b.alive == a.alive
    &&& b.trap == a.trap
    &&& b.fd_table@ == a.fd_table@
    &&& b.parent == a.parent
    &&& b.children@ == a.children@
    &&& b.exit_code == a.exit_code
    &&& b.priority == a.priority
    &&& b.syscall_times@ == a.syscall_times@
    &&& b.has_run == a.has_run
    &&& b.start_time_ms == a.start_time_ms
}

/// A PCB well formed against `n1` inodes stays well formed when the inode
/// table only grows.
pub proof fn lemma_pcb_wf_grow(p: Pcb, n1: int, n2: int)
    requires
        p.wf(n1),
        n1 <= n2,
    ensures
        p.wf(n2),
{
}

/// Replacing the current task's slot preserves kernel well-formedness as
/// long as the identity, lifecycle and children fields stay put, the new
/// PCB is well formed, and the inode and open-file tables only gained
/// entries that keep the handle bounds.
pub proof fn lemma_wf_update_cur(pre: Kernel, post: Kernel)
    requires
        pre.wf(),
        pre.running_ok(),
        kernel_same_except_cur(pre, post),
        post.fs.wf(),
        pre.fs.inodes@.len() <= post.fs.inodes@.len(),
        pre.files@.len() <= post.files@.len(),
        forall|f: int|
            0 <= f < post.files@.len() ==> (#[trigger] post.files@[f]).ino
                < post.fs.inodes@.len() && post.files@[f].offset <= MAX_FILE,
        post.cur_task().pid == pre.cur_task().pid,
        post.cur_task().status == pre.cur_task().status,
        post.cur_task().alive == pre.cur_task().alive,
        post.cur_task().parent == pre.cur_task().parent,
        post.cur_task().children@ == pre.cur_task().children@,
        post.cur_task().has_run == pre.cur_task().has_run,
        post.cur_task().start_time_ms == pre.cur_task().start_time_ms,
        post.cur_task().wf(post.files@.len() as int),
    ensures
        post.wf(),
        post.running_ok(),
{
    let c = pre.current as int;
    assert forall|i: int| 0 <= i < post.tasks@.len() implies (#[trigger] post.tasks@[i]).pid == i
        && post.tasks@[i].wf(post.files@.len() as int) by {
        if i != c {
            assert(post.tasks@[i] == pre.tasks@[i]);
            lemma_pcb_wf_grow(pre.tasks@[i], pre.files@.len() as int, post.files@.len() as int);
        }
    }
    assert forall|i: int|
        0 <= i < post.tasks@.len() && !(#[trigger] post.tasks@[i]).alive implies
    post.tasks@[i].status is Zombie by {
        if i != c {
            assert(post.tasks@[i] == pre.tasks@[i]);
        }
    }
    assert forall|i: int|
        0 <= i < post.tasks@.len() implies (#[trigger] post.tasks@[i]).start_time_ms
        <= post.now_ms by {
        if i != c {
            assert(post.tasks@[i] == pre.tasks@[i]);
        }
    }
    assert forall|i: int, j: int|
        0 <= i < post.tasks@.len() && 0 <= j < (#[trigger] post.tasks@[i]).children@.len() implies
    0 <= #[trigger] post.tasks@[i].children@[j] < post.tasks@.len()
        && post.tasks@[post.tasks@[i].children@[j] as int].alive
        && post.tasks@[post.tasks@[i].children@[j] as int].parent == Some(i as usize)
        && post.tasks@[i].children@[j] != i as usize by {
        assert(post.tasks@[i].children@[j] == pre.tasks@[i].children@[j]) by {
            if i != c {
                assert(post.tasks@[i] == pre.tasks@[i]);
            }
        }
        let ch = pre.tasks@[i].children@[j] as int;
        assert(0 <= ch < pre.tasks@.len() && pre.tasks@[ch].alive && pre.tasks@[ch].parent == Some(
            i as usize,
        ));
        assert(post.tasks@[ch].alive && post.tasks@[ch].parent == Some(i as usize)) by {
            if ch != c {
                assert(post.tasks@[ch] == pre.tasks@[ch]);
            }
        }
    }
    assert forall|i: int, a: int, b: int|
        0 <= i < post.tasks@.len() && 0 <= a < b < (#[trigger] post.tasks@[i]).children@.len()
        implies (#[trigger] post.tasks@[i].children@[a]) != (
    #[trigger] post.tasks@[i].children@[b]) by {
        if i != c {
            assert(post.tasks@[i] == pre.tasks@[i]);
        }
        assert(pre.tasks@[i].children@[a] != pre.tasks@[i].children@[b]);
    }
    assert forall|i: int| 0 <= i < post.tasks@.len() implies ((
    #[trigger] post.tasks@[i]).status is Running <==> (post.running_ok() && i
        == post.current as int)) by {
        if i != c {
            assert(post.tasks@[i] == pre.tasks@[i]);
        }
    }
}

/// If some live `Ready` task sits at distance `e` of the scan's reach, the
/// scan starting at distance `d <= e` finds one.
pub proof fn lemma_scan_some(tasks: Seq<Pcb>, cur: int, d: int, e: int)
    requires
        0 < tasks.len(),
        0 <= cur < tasks.len(),
        1 <= d <= e <= tasks.len(),
        tasks[(cur + e) % (tasks.len() as int)].alive,
        tasks[(cur + e) % (tasks.len() as int)].status is Ready,
    ensures
        scan_from(tasks, cur, d) is Some,
    decreases e - d,
{
    if d < e {
        let i = (cur + d) % (tasks.len() as int);
        if !(tasks[i].alive && tasks[i].status is Ready) {
            lemma_scan_some(tasks, cur, d + 1, e);
        }
    }
}

/// Task `i` sits at distance `dist` from `cur` in wrapping scan order, and
/// no live `Ready` task sits at any distance in `[d, dist)`.
pub open spec fn first_ready_at(tasks: Seq<Pcb>, cur: int, d: int, dist: int, i: usize) -> bool {
    &&& d <= dist <= tasks.len()
    &&& i as int == (cur + dist) % (tasks.len() as int)
    &&& forall|e: int|
        d <= e < dist ==> !((#[trigger] tasks[(cur + e) % (tasks.len() as int)]).alive && tasks[(
        cur + e) % (tasks.len() as int)].status is Ready)
}

/// What a successful scan means: the selected task is live and `Ready`, it
/// sits at some distance `dist` in `[d, tasks.len()]`, and no live `Ready`
/// task sits at a smaller distance at or beyond `d` — the scan picks the
/// first one in round-robin order.
pub proof fn lemma_scan_first(tasks: Seq<Pcb>, cur: int, d: int, i: usize)
    requires
        0 < tasks.len() <= usize::MAX,
        0 <= cur < tasks.len(),
        1 <= d <= tasks.len() + 1,
        scan_from(tasks, cur, d) == Some(i),
    ensures
        i < tasks.len(),
        tasks[i as int].alive,
        tasks[i as int].status is Ready,
        exists|dist: int| #[trigger] first_ready_at(tasks, cur, d, dist, i),
    decreases tasks.len() + 1 - d,
{
    let n = tasks.len() as int;
    if d > tasks.len() {
        assert(scan_from(tasks, cur, d) is None);
    }
    let j = (cur + d) % n;
    vstd::arithmetic::div_mod::lemma_mod_bound(cur + d, n);
    if tasks[j].alive && tasks[j].status is Ready {
        assert(scan_from(tasks, cur, d) == Some(j as usize));
        assert(i as int == j);
        assert(first_ready_at(tasks, cur, d, d, i));
    } else {
        lemma_scan_first(tasks, cur, d + 1, i);
        let dist = choose|dist: int| #[trigger] first_ready_at(tasks, cur, d + 1, dist, i);
        assert(first_ready_at(tasks, cur, d, dist, i)) by {
            assert forall|e: int|
                d <= e < dist implies !((#[trigger] tasks[(cur + e) % n]).alive && tasks[(cur + e)
                % n].status is Ready) by {
                if e > d {
                    assert(!(tasks[(cur + e) % n].alive && tasks[(cur + e) % n].status is Ready));
                }
            }
        }
    }
}

/// A fresh, never-run PCB with pid `pid`.
pub(crate) fn fresh_pcb(pid: usize) -> (r: Pcb)
    ensures
        r.pid == pid,
        r.status is Ready,
        r.alive,
        r.children@.len() == 0,
        r.fd_table@.len() == 0,
        r.parent is None,
        r.aspace.wf(),
        r.aspace.heap_base == USER_HEAP_BASE,
        r.aspace.brk == USER_HEAP_BASE,
        forall|p: int| !r.aspace.is_mapped(p),
        r.syscall_times@.len() == MAX_SYSCALL_NUM,
        !r.has_run,
        r.start_time_ms == 0,
        r.priority == 16,
        r.trap.a0 == 0 && r.trap.sepc == ENTRY_POINT && r.trap.sp == USER_STACK_TOP,
{
    Pcb {
        pid,
        status: TaskStatus::Ready,
        alive: true,
        aspace: AddressSpace::new_space(USER_HEAP_BASE),
        trap: TrapFrame { a0: 0, sepc: ENTRY_POINT, sp: USER_STACK_TOP },
        fd_table: Vec::new(),
        parent: None,
        children: Vec::new(),
        exit_code: 0,
        priority: 16,
        syscall_times: zero_counters(),
        has_run: false,
        start_time_ms: 0,
    }
}

/// A zeroed syscall-counter table.
pub(crate) fn zero_counters() -> (r: Vec<u32>)
    ensures
        r@.len() == MAX_SYSCALL_NUM,
        forall|j: int| 0 <= j < MAX_SYSCALL_NUM ==> #[trigger] r@[j] == 0,
{
    let mut v: Vec<u32> = Vec::new();
    let mut i: usize = 0;
    while i < MAX_SYSCALL_NUM
        invariant
            i <= MAX_SYSCALL_NUM,
            v@.len() == i,
            forall|j: int| 0 <= j < i ==> #[trigger] v@[j] == 0,
        decreases MAX_SYSCALL_NUM - i,
    {
        v.push(0);
        i += 1;
    }
    v
}

/// The two address spaces hold the same table, regions, memory and heap.
pub open spec fn aspace_views_eq(a: AddressSpace, b: AddressSpace) -> bool {
    &&& b.table@ == a.table@
    &&& b.regions@ == a.regions@
    &&& b.mem@ == a.mem@
    &&& b.heap_base == a.heap_base
    &&& b.brk == a.brk
}

/// Deep-copy an address space: fresh frames with the same contents, the
/// same page table, regions and heap bounds.
pub(crate) fn duplicate_aspace(a: &AddressSpace) -> (r: AddressSpace)
    ensures
        aspace_views_eq(*a, r),
{
    AddressSpace {
        table: copy_entries(&a.table),
        regions: copy_regions(&a.regions),
        mem: copy_bytes(&a.mem),
        heap_base: a.heap_base,
        brk: a.brk,
    }
}

/// Copy a vector of page-table entries.
pub(crate) fn copy_entries(v: &Vec<PageEntry>) -> (r: Vec<PageEntry>)
    ensures
        r@ == v@,
{
    let n = v.len();
    let mut r: Vec<PageEntry> = Vec::new();
    let mut i: usize = 0;
    while i < n
        invariant
            i <= n,
            n == v@.len(),
            r@ == v@.take(i as int),
        decreases n - i,
    {
        r.push(v[i]);
        proof {
            assert(r@ =~= v@.take(i + 1));
        }
        i += 1;
    }
    proof {
        assert(v@.take(n as int) =~= v@);
    }
    r
}

/// Copy a vector of region records.
pub(crate) fn copy_regions(v: &Vec<Region>) -> (r: Vec<Region>)
    ensures
        r@ == v@,
{
    let n = v.len();
    let mut r: Vec<Region> = Vec::new();
    let mut i: usize = 0;
    while i < n
        invariant
            i <= n,
            n == v@.len(),
            r@ == v@.take(i as int),
        decreases n - i,
    {
        r.push(v[i]);
        proof {
            assert(r@ =~= v@.take(i + 1));
        }
        i += 1;
    }
    proof {
        assert(v@.take(n as int) =~= v@);
    }
    r
}

/// Copy a byte vector.
pub(crate) fn copy_bytes(v: &Vec<u8>) -> (r: Vec<u8>)
    ensures
        r@ == v@,
{
    let n = v.len();
    let mut r: Vec<u8> = Vec::new();
    let mut i: usize = 0;
    while i < n
        invariant
            i <= n,
            n == v@.len(),
            r@ == v@.take(i as int),
        decreases n - i,
    {
        r.push(v[i]);
        proof {
            assert(r@ =~= v@.take(i + 1));
        }
        i += 1;
    }
    proof {
        assert(v@.take(n as int) =~= v@);
    }
    r
}

/// Copy an fd table; the slots are indices into the kernel's open-file
/// table, so the copies share the same handles and cursors.
pub(crate) fn copy_fd_table(v: &Vec<Option<usize>>) -> (r: Vec<Option<usize>>)
    ensures
        r@ == v@,
{
    let n = v.len();
    let mut r: Vec<Option<usize>> = Vec::new();
    let mut i: usize = 0;
    while i < n
        invariant
            i <= n,
            n == v@.len(),
            r@ == v@.take(i as int),
        decreases n - i,
    {
        r.push(v[i]);
        proof {
            assert(r@ =~= v@.take(i + 1));
        }
        i += 1;
    }
    proof {
        assert(v@.take(n as int) =~= v@);
    }
    r
}

/// Copy a syscall-counter table.
pub(crate) fn copy_counters(v: &Vec<u32>) -> (r: Vec<u32>)
    ensures
        r@ == v@,
{
    let n = v.len();
    let mut r: Vec<u32> = Vec::new();
    let mut i: usize = 0;
    while i < n
        invariant
            i <= n,
            n == v@.len(),
            r@ == v@.take(i as int),
        decreases n - i,
    {
        r.push(v[i]);
        proof {
            assert(r@ =~= v@.take(i + 1));
        }
        i += 1;
    }
    proof {
        assert(v@.take(n as int) =~= v@);
    }
    r
}

} // verus!
