use oscore::fs::{FLAG_CREATE, FLAG_RDWR, FLAG_WRONLY};
use oscore::kernel::{Kernel, USER_HEAP_BASE};
use oscore::sysfs::{sys_close, sys_fstat, sys_linkat, sys_open, sys_read, sys_unlinkat, sys_write};
use oscore::sysproc::{
    sys_exec, sys_exit, sys_fork, sys_get_time, sys_getpid, sys_mmap, sys_munmap, sys_sbrk,
    sys_set_priority, sys_spawn, sys_task_info, sys_waitpid, sys_yield,
};

fn boot(n: usize) -> Kernel {
    let mut k = Kernel::new_kernel(n);
    k.run_first_task();
    k
}

const PAGE: usize = 4096;
const AREA: usize = 0x0100_0000;

fn put_cstr(k: &mut Kernel, va: usize, s: &str) {
    // A fresh mmap page is zero-filled, so the terminator is already there.
    assert_eq!(sys_mmap(k, va, PAGE, 3), 0);
    let bytes: Vec<u8> = s.as_bytes().to_vec();
    assert!(k.copy_to_current(va, &bytes));
}

#[test]
fn mmap_overlap_fails_without_effect() {
    let mut k = boot(1);
    assert_eq!(sys_mmap(&mut k, AREA, 2 * PAGE, 3), 0);
    // Any overlapping sub-range is rejected ...
    assert_eq!(sys_mmap(&mut k, AREA + PAGE, PAGE, 3), -1);
    assert_eq!(sys_mmap(&mut k, AREA, PAGE, 1), -1);
    // ... and the original mapping is untouched: both pages still unmap fine.
    assert_eq!(sys_munmap(&mut k, AREA, 2 * PAGE), 0);
}

#[test]
fn mmap_munmap_mmap_round_trip() {
    let mut k = boot(1);
    assert_eq!(sys_mmap(&mut k, AREA, 3 * PAGE, 7), 0);
    assert_eq!(sys_munmap(&mut k, AREA, 3 * PAGE), 0);
    assert_eq!(sys_mmap(&mut k, AREA, 3 * PAGE, 7), 0);
}

#[test]
fn mmap_rejects_bad_arguments() {
    let mut k = boot(1);
    assert_eq!(sys_mmap(&mut k, AREA, PAGE, 0), -1);
    assert_eq!(sys_mmap(&mut k, AREA, PAGE, 8), -1);
    assert_eq!(sys_mmap(&mut k, AREA, PAGE, 0x17), -1);
    assert_eq!(sys_mmap(&mut k, AREA + 1, PAGE, 3), -1);
}

#[test]
fn munmap_partial_range_fails_without_effect() {
    let mut k = boot(1);
    assert_eq!(sys_mmap(&mut k, AREA, PAGE, 3), 0);
    // One page of the requested range is unmapped: rejected whole.
    assert_eq!(sys_munmap(&mut k, AREA, 2 * PAGE), -1);
    // The mapped page is still mapped: writing through it succeeds.
    let data = vec![0xabu8; 8];
    assert!(k.copy_to_current(AREA, &data));
    assert_eq!(sys_munmap(&mut k, AREA, PAGE), 0);
}

#[test]
fn munmap_misaligned_fails() {
    let mut k = boot(1);
    assert_eq!(sys_mmap(&mut k, AREA, PAGE, 3), 0);
    assert_eq!(sys_munmap(&mut k, AREA + 1, PAGE - 1), -1);
}

#[test]
fn mmap_pages_read_as_zero() {
    let mut k = boot(1);
    assert_eq!(sys_mmap(&mut k, AREA, PAGE, 3), 0);
    let v = k.copy_from_current(AREA, 16).unwrap();
    assert_eq!(v, vec![0u8; 16]);
}

#[test]
fn fork_then_waitpid_reaps_exit_code() {
    let mut k = boot(1);
    assert_eq!(sys_mmap(&mut k, AREA, PAGE, 3), 0);
    let child = sys_fork(&mut k);
    assert_eq!(child, 1);
    // Before the child exits: a matching child exists but none is a zombie.
    assert_eq!(sys_waitpid(&mut k, -1, AREA), -2);
    // Let the child run; it exits with code 7.
    assert_eq!(sys_yield(&mut k), 0);
    assert_eq!(sys_getpid(&k), 1);
    sys_exit(&mut k, 7);
    // Back in the parent: the zombie child is reaped.
    assert_eq!(sys_getpid(&k), 0);
    assert_eq!(sys_waitpid(&mut k, -1, AREA), 1);
    let v = k.copy_from_current(AREA, 4).unwrap();
    assert_eq!(v, vec![7u8, 0, 0, 0]);
    // The child is gone: nothing matches any more.
    assert_eq!(sys_waitpid(&mut k, -1, AREA), -1);
}

#[test]
fn fork_deep_copies_memory() {
    let mut k = boot(1);
    assert_eq!(sys_mmap(&mut k, AREA, PAGE, 3), 0);
    let data = vec![1u8, 2, 3];
    assert!(k.copy_to_current(AREA, &data));
    assert_eq!(sys_fork(&mut k), 1);
    // The parent overwrites its page; the child's frames are its own copy.
    let other = vec![9u8, 9, 9];
    assert!(k.copy_to_current(AREA, &other));
    assert_eq!(sys_yield(&mut k), 0);
    assert_eq!(sys_getpid(&k), 1);
    assert_eq!(k.copy_from_current(AREA, 3).unwrap(), data);
}

#[test]
fn waitpid_matches_requested_pid() {
    let mut k = boot(1);
    assert_eq!(sys_mmap(&mut k, AREA, PAGE, 3), 0);
    assert_eq!(sys_fork(&mut k), 1);
    assert_eq!(sys_fork(&mut k), 2);
    // No child with pid 9 exists at all.
    assert_eq!(sys_waitpid(&mut k, 9, AREA), -1);
    // Child 2 exists but has not exited.
    assert_eq!(sys_waitpid(&mut k, 2, AREA), -2);
    // Run child 1, then child 2; only child 2 exits.
    assert_eq!(sys_yield(&mut k), 0);
    assert_eq!(sys_getpid(&k), 1);
    assert_eq!(sys_yield(&mut k), 0);
    assert_eq!(sys_getpid(&k), 2);
    sys_exit(&mut k, 42);
    // The scan from pid 2 wraps straight to the parent.
    assert_eq!(sys_getpid(&k), 0);
    assert_eq!(sys_waitpid(&mut k, 1, AREA), -2);
    assert_eq!(sys_waitpid(&mut k, 2, AREA), 2);
    assert_eq!(k.copy_from_current(AREA, 4).unwrap(), vec![42u8, 0, 0, 0]);
}

#[test]
fn mmap_of_nothing_is_a_no_op() {
    let mut k = boot(1);
    assert_eq!(sys_mmap(&mut k, AREA, 0, 3), 0);
    assert_eq!(sys_munmap(&mut k, AREA, 0), 0);
    // Nothing was mapped.
    assert!(k.copy_from_current(AREA, 1).is_none());
}

#[test]
fn sbrk_growth_refuses_collision() {
    let mut k = boot(1);
    // Map the page the heap would grow into.
    assert_eq!(sys_mmap(&mut k, USER_HEAP_BASE, PAGE, 3), 0);
    assert_eq!(sys_sbrk(&mut k, 1), -1);
    assert_eq!(sys_munmap(&mut k, USER_HEAP_BASE, PAGE), 0);
    assert_eq!(sys_sbrk(&mut k, 1), USER_HEAP_BASE as isize);
}

#[test]
fn sbrk_shrink_leaves_framed_areas_alone() {
    let mut k = boot(1);
    assert_eq!(sys_sbrk(&mut k, 2 * 4096), USER_HEAP_BASE as isize);
    // Punch a hole in the heap and remap it as a framed area.
    assert_eq!(sys_munmap(&mut k, USER_HEAP_BASE, PAGE), 0);
    assert_eq!(sys_mmap(&mut k, USER_HEAP_BASE, PAGE, 3), 0);
    let data = vec![9u8];
    assert!(k.copy_to_current(USER_HEAP_BASE, &data));
    // Shrinking the break releases the heap's own page but not the region.
    assert_eq!(sys_sbrk(&mut k, -2 * 4096), (USER_HEAP_BASE + 2 * 4096) as isize);
    assert_eq!(k.copy_from_current(USER_HEAP_BASE, 1).unwrap(), data);
    assert!(k.copy_from_current(USER_HEAP_BASE + PAGE, 1).is_none());
}

#[test]
fn waitpid_without_children_fails() {
    let mut k = boot(1);
    assert_eq!(sys_mmap(&mut k, AREA, PAGE, 3), 0);
    assert_eq!(sys_waitpid(&mut k, -1, AREA), -1);
    assert_eq!(sys_waitpid(&mut k, 5, AREA), -1);
}

#[test]
fn fork_child_trap_frame_returns_zero() {
    let mut k = boot(1);
    let child = sys_fork(&mut k);
    assert_eq!(child, 1);
    assert_eq!(k.tasks[1].trap.a0, 0);
}

#[test]
fn sbrk_round_trip_restores_heap() {
    let mut k = boot(1);
    let base = USER_HEAP_BASE as isize;
    assert_eq!(sys_sbrk(&mut k, 4096), base);
    assert_eq!(sys_sbrk(&mut k, -4096), base + 4096);
    // The heap is back at its original extent.
    assert_eq!(sys_sbrk(&mut k, 0), base);
    // Shrinking past the heap's original base fails.
    assert_eq!(sys_sbrk(&mut k, -4096), -1);
}

#[test]
fn sbrk_heap_pages_usable() {
    let mut k = boot(1);
    assert_eq!(sys_sbrk(&mut k, 4096), USER_HEAP_BASE as isize);
    let data = vec![5u8, 6, 7];
    assert!(k.copy_to_current(USER_HEAP_BASE, &data));
    let v = k.copy_from_current(USER_HEAP_BASE, 3).unwrap();
    assert_eq!(v, data);
}

#[test]
fn munmap_releases_heap_pages_too() {
    let mut k = boot(1);
    assert_eq!(sys_sbrk(&mut k, 4096), USER_HEAP_BASE as isize);
    // A fully mapped range is unmapped whole, heap pages included.
    assert_eq!(sys_munmap(&mut k, USER_HEAP_BASE, PAGE), 0);
    assert!(k.copy_from_current(USER_HEAP_BASE, 1).is_none());
    // Shrinking the break past the hole still works and skips the hole.
    assert_eq!(sys_sbrk(&mut k, -4096), (USER_HEAP_BASE + 4096) as isize);
    assert_eq!(sys_sbrk(&mut k, 0), USER_HEAP_BASE as isize);
}

#[test]
fn munmap_misaligned_fails_even_for_empty_range() {
    let mut k = boot(1);
    assert_eq!(sys_munmap(&mut k, AREA + 1, 0), -1);
    assert_eq!(sys_munmap(&mut k, AREA, 0), 0);
}

#[test]
fn fork_shares_file_cursors() {
    let mut k = boot(1);
    put_cstr(&mut k, AREA, "shared");
    let fd = sys_open(&mut k, AREA, FLAG_CREATE | FLAG_RDWR);
    assert_eq!(fd, 0);
    let buf = AREA + PAGE;
    assert_eq!(sys_mmap(&mut k, buf, PAGE, 3), 0);
    let msg = b"abcd".to_vec();
    assert!(k.copy_to_current(buf, &msg));
    assert_eq!(sys_write(&mut k, fd as usize, buf, 4), 4);
    assert_eq!(sys_close(&mut k, fd as usize), 0);
    let fd = sys_open(&mut k, AREA, FLAG_RDWR);
    assert_eq!(fd, 0);
    // The parent reads two bytes, then forks: the child inherits the handle
    // and its cursor, so its read continues where the parent stopped.
    assert_eq!(sys_read(&mut k, fd as usize, buf, 2), 2);
    assert_eq!(sys_fork(&mut k), 1);
    assert_eq!(sys_yield(&mut k), 0);
    assert_eq!(sys_getpid(&k), 1);
    assert_eq!(sys_read(&mut k, fd as usize, buf, 4), 2);
    assert_eq!(k.copy_from_current(buf, 2).unwrap(), b"cd".to_vec());
    // And the child's read moved the shared cursor for the parent as well.
    assert_eq!(sys_yield(&mut k), 0);
    assert_eq!(sys_getpid(&k), 0);
    assert_eq!(sys_read(&mut k, fd as usize, buf, 4), 0);
}

#[test]
fn open_rejects_undefined_flag_bits() {
    let mut k = boot(1);
    put_cstr(&mut k, AREA, "f");
    assert_eq!(sys_open(&mut k, AREA, FLAG_CREATE | FLAG_RDWR | 0x100), -1);
    assert_eq!(sys_open(&mut k, AREA, FLAG_CREATE | FLAG_RDWR), 0);
}

#[test]
fn first_run_at_boot_instant_is_not_restamped() {
    let mut k = boot(2);
    // Task 0 first ran at time 0. Later selections must not re-stamp it.
    k.tick(50);
    assert_eq!(sys_yield(&mut k), 0);
    assert_eq!(sys_getpid(&k), 1);
    assert_eq!(sys_yield(&mut k), 0);
    assert_eq!(sys_getpid(&k), 0);
    k.tick(25);
    assert_eq!(sys_mmap(&mut k, AREA, PAGE, 3), 0);
    assert_eq!(sys_task_info(&mut k, AREA), 0);
    let v = k.copy_from_current(AREA, 2012).unwrap();
    let time = u64::from_le_bytes(v[2004..2012].try_into().unwrap());
    assert_eq!(time, 75);
}

#[test]
fn yield_selects_next_ready_round_robin() {
    let mut k = boot(3);
    assert_eq!(sys_getpid(&k), 0);
    // A yields: B (pid 1) is selected, not C, although C is Ready too.
    assert_eq!(sys_yield(&mut k), 0);
    assert_eq!(sys_getpid(&k), 1);
    assert_eq!(sys_yield(&mut k), 0);
    assert_eq!(sys_getpid(&k), 2);
    assert_eq!(sys_yield(&mut k), 0);
    assert_eq!(sys_getpid(&k), 0);
}

#[test]
fn exit_of_last_task_halts_kernel() {
    let mut k = boot(1);
    sys_exit(&mut k, 0);
    assert!(k.halted);
}

#[test]
fn open_invalid_path_allocates_no_slot() {
    let mut k = boot(1);
    put_cstr(&mut k, AREA, "missing");
    // Unknown path without CREATE: -1, and no fd slot is taken.
    assert_eq!(sys_open(&mut k, AREA, 0), -1);
    put_cstr(&mut k, AREA + PAGE, "real");
    // The next open of a valid path gets the fd the failure did not consume.
    assert_eq!(sys_open(&mut k, AREA + PAGE, FLAG_CREATE | FLAG_RDWR), 0);
}

#[test]
fn fstat_fresh_file_mode_and_nlink() {
    let mut k = boot(1);
    put_cstr(&mut k, AREA, "f");
    let fd = sys_open(&mut k, AREA, FLAG_CREATE | FLAG_RDWR);
    assert_eq!(fd, 0);
    assert_eq!(sys_mmap(&mut k, AREA + PAGE, PAGE, 3), 0);
    let st = AREA + PAGE;
    assert_eq!(sys_fstat(&mut k, fd as usize, st), 0);
    let rec = k.copy_from_current(st, 80).unwrap();
    // dev == 0
    assert_eq!(&rec[0..8], &[0u8; 8]);
    // mode == FILE (0o100000 little-endian)
    assert_eq!(&rec[8..12], &[0x00, 0x80, 0x00, 0x00]);
    // nlink == 1 before any linkat
    assert_eq!(&rec[12..16], &[1, 0, 0, 0]);
}

#[test]
fn linkat_and_unlinkat_change_nlink() {
    let mut k = boot(1);
    put_cstr(&mut k, AREA, "orig");
    let fd = sys_open(&mut k, AREA, FLAG_CREATE | FLAG_RDWR);
    assert_eq!(fd, 0);
    put_cstr(&mut k, AREA + PAGE, "alias");
    // Equal names are rejected.
    assert_eq!(sys_linkat(&mut k, AREA, AREA), -1);
    assert_eq!(sys_linkat(&mut k, AREA, AREA + PAGE), 0);
    assert_eq!(sys_mmap(&mut k, AREA + 2 * PAGE, PAGE, 3), 0);
    let st = AREA + 2 * PAGE;
    assert_eq!(sys_fstat(&mut k, fd as usize, st), 0);
    let rec = k.copy_from_current(st, 80).unwrap();
    assert_eq!(&rec[12..16], &[2, 0, 0, 0]);
    assert_eq!(sys_unlinkat(&mut k, AREA), 0);
    assert_eq!(sys_fstat(&mut k, fd as usize, st), 0);
    let rec = k.copy_from_current(st, 80).unwrap();
    assert_eq!(&rec[12..16], &[1, 0, 0, 0]);
    // The removed name no longer resolves.
    assert_eq!(sys_unlinkat(&mut k, AREA), -1);
}

#[test]
fn write_then_read_through_fds() {
    let mut k = boot(1);
    put_cstr(&mut k, AREA, "data");
    let fd = sys_open(&mut k, AREA, FLAG_CREATE | FLAG_RDWR);
    assert_eq!(fd, 0);
    let buf = AREA + PAGE;
    assert_eq!(sys_mmap(&mut k, buf, PAGE, 3), 0);
    let msg = b"hello, kernel".to_vec();
    assert!(k.copy_to_current(buf, &msg));
    assert_eq!(sys_write(&mut k, fd as usize, buf, msg.len()), msg.len() as isize);
    assert_eq!(sys_close(&mut k, fd as usize), 0);
    // Reopen: the slot number is reused, the cursor starts at 0.
    let fd2 = sys_open(&mut k, AREA, FLAG_RDWR);
    assert_eq!(fd2, 0);
    let out = AREA + 2 * PAGE;
    assert_eq!(sys_mmap(&mut k, out, PAGE, 3), 0);
    assert_eq!(sys_read(&mut k, fd2 as usize, out, 64), msg.len() as isize);
    let got = k.copy_from_current(out, msg.len()).unwrap();
    assert_eq!(got, msg);
    // The cursor advanced: the file is exhausted.
    assert_eq!(sys_read(&mut k, fd2 as usize, out, 64), 0);
}

#[test]
fn write_requires_writable_fd() {
    let mut k = boot(1);
    put_cstr(&mut k, AREA, "ro");
    let fd = sys_open(&mut k, AREA, FLAG_CREATE | FLAG_RDWR);
    assert_eq!(fd, 0);
    assert_eq!(sys_close(&mut k, fd as usize), 0);
    let fd = sys_open(&mut k, AREA, 0);
    assert_eq!(fd, 0);
    let buf = AREA + PAGE;
    assert_eq!(sys_mmap(&mut k, buf, PAGE, 3), 0);
    assert_eq!(sys_write(&mut k, fd as usize, buf, 4), -1);
    // A write-only handle refuses reads the same way.
    let fd2 = sys_open(&mut k, AREA, FLAG_WRONLY);
    assert_eq!(fd2, 1);
    assert_eq!(sys_read(&mut k, fd2 as usize, buf, 4), -1);
}

#[test]
fn close_rejects_bad_fd() {
    let mut k = boot(1);
    assert_eq!(sys_close(&mut k, 0), -1);
    assert_eq!(sys_close(&mut k, 99), -1);
}

#[test]
fn set_priority_rejects_below_two() {
    let mut k = boot(1);
    assert_eq!(sys_set_priority(&mut k, 1), -1);
    assert_eq!(sys_set_priority(&mut k, 0), -1);
    assert_eq!(sys_set_priority(&mut k, -3), -1);
    assert_eq!(sys_set_priority(&mut k, 2), 2);
    assert_eq!(sys_set_priority(&mut k, 100), 100);
    assert_eq!(k.tasks[0].priority, 100);
}

#[test]
fn exec_replaces_image_or_fails() {
    let mut k = boot(1);
    put_cstr(&mut k, AREA, "prog");
    // Unknown program: the process continues unchanged.
    assert_eq!(sys_exec(&mut k, AREA), -1);
    assert_eq!(sys_getpid(&k), 0);
    // Make the program exist, then exec succeeds and wipes the address space.
    let fd = sys_open(&mut k, AREA, FLAG_CREATE | FLAG_RDWR);
    assert_eq!(fd, 0);
    assert_eq!(sys_exec(&mut k, AREA), 0);
    assert_eq!(sys_getpid(&k), 0);
    // The old mappings are gone.
    assert!(k.copy_from_current(AREA, 1).is_none());
    // The fd table survived exec.
    assert_eq!(sys_close(&mut k, fd as usize), 0);
}

#[test]
fn spawn_creates_ready_child() {
    let mut k = boot(1);
    put_cstr(&mut k, AREA, "prog");
    assert_eq!(sys_spawn(&mut k, AREA), -1);
    let fd = sys_open(&mut k, AREA, FLAG_CREATE | FLAG_RDWR);
    assert_eq!(fd, 0);
    let pid = sys_spawn(&mut k, AREA);
    assert_eq!(pid, 1);
    // The spawned child is a real child: waitpid sees it running.
    assert_eq!(sys_mmap(&mut k, AREA + PAGE, PAGE, 3), 0);
    assert_eq!(sys_waitpid(&mut k, pid, AREA + PAGE), -2);
}

#[test]
fn get_time_writes_seconds_and_micros() {
    let mut k = boot(1);
    k.tick(1234);
    assert_eq!(sys_mmap(&mut k, AREA, PAGE, 3), 0);
    assert_eq!(sys_get_time(&mut k, AREA, 0), 0);
    let v = k.copy_from_current(AREA, 16).unwrap();
    let sec = u64::from_le_bytes(v[0..8].try_into().unwrap());
    let usec = u64::from_le_bytes(v[8..16].try_into().unwrap());
    assert_eq!(sec, 1);
    assert_eq!(usec, 234_000);
    // An unmapped destination is rejected.
    assert_eq!(sys_get_time(&mut k, AREA + PAGE, 0), -1);
}

#[test]
fn task_info_reports_counters_and_time() {
    let mut k = boot(1);
    k.tick(50);
    // The dispatcher records each syscall; model two invocations of number 64.
    k.plus_syscall(64);
    k.plus_syscall(64);
    k.tick(25);
    assert_eq!(sys_mmap(&mut k, AREA, PAGE, 3), 0);
    assert_eq!(sys_task_info(&mut k, AREA), 0);
    let v = k.copy_from_current(AREA, 2012).unwrap();
    let status = u32::from_le_bytes(v[0..4].try_into().unwrap());
    assert_eq!(status, 1);
    let c64 = u32::from_le_bytes(v[4 + 4 * 64..8 + 4 * 64].try_into().unwrap());
    assert_eq!(c64, 2);
    let time = u64::from_le_bytes(v[2004..2012].try_into().unwrap());
    // Started at the boot instant (time 0), 75 ms have passed since.
    assert_eq!(time, 75);
}
