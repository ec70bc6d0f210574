//! The library's cross-cutting guarantees, stated once over the spec-level
//! views that the syscall contracts use, and proved from them.

use vstd::prelude::*;

use crate::aspace::brk_page_top;
use crate::aspace::in_page_range;
use crate::aspace::mmap_ok;
use crate::aspace::mmap_post;
use crate::aspace::munmap_ok;
use crate::aspace::munmap_post;
use crate::aspace::sbrk_ok;
use crate::aspace::sbrk_post;
use crate::aspace::AddressSpace;
use crate::aspace::PAGE_SIZE;
use crate::kernel::first_ready_at;
use crate::kernel::lemma_scan_first;
use crate::kernel::rr_next;
use crate::kernel::Kernel;
use crate::kernel::Pcb;

verus! {

/// At any observation point while the kernel runs, exactly one PCB is in
/// `Running` state: the current one, and no other.
pub proof fn lemma_exactly_one_running(k: Kernel)
    requires
        k.wf(),
        k.running_ok(),
    ensures
        k.current < k.tasks@.len(),
        k.cur_task().status is Running,
        forall|i: int|
            0 <= i < k.tasks@.len() && i != k.current as int ==> !((
            #[trigger] k.tasks@[i]).status is Running),
{
}

/// `mmap` over a range, `munmap` of the same range, then `mmap` with
/// identical arguments: the unmap is accepted, and so is the second map —
/// the round trip restores a state in which the same call succeeds again.
pub proof fn lemma_mmap_round_trip(
    a0: AddressSpace,
    a1: AddressSpace,
    a2: AddressSpace,
    start: usize,
    len: usize,
    port: usize,
)
    requires
        a0.wf(),
        len > 0,
        mmap_ok(a0, start, len, port),
        mmap_post(a0, a1, start, len, port),
        munmap_post(a1, a2, start, len),
    ensures
        munmap_ok(a1, start, len),
        mmap_ok(a2, start, len, port),
{
    assert forall|p: int|
        in_page_range(start as int, len as int, p) implies #[trigger] a1.is_mapped(p) by {}
    assert forall|p: int|
        in_page_range(start as int, len as int, p) implies !(#[trigger] a2.is_mapped(p)) by {}
}

/// A successful growth of the program break by `d` is undone by a shrink by
/// `d`: the shrink is accepted, both calls return the break that preceded
/// them, and the heap — its bounds and its page span — is back at its
/// original extent.
pub proof fn lemma_sbrk_round_trip(a0: AddressSpace, a1: AddressSpace, a2: AddressSpace, d: int)
    requires
        a0.wf(),
        0 <= d,
        sbrk_ok(a0, d),
        sbrk_post(a0, a1, d),
        sbrk_post(a1, a2, -d),
    ensures
        sbrk_ok(a1, -d),
        a2.brk == a0.brk,
        a2.heap_base == a0.heap_base,
        forall|p: int| #[trigger] a2.is_mapped(p) == a0.is_mapped(p),
{
    let t0 = a0.heap_top_vpn();
    let t1 = a1.heap_top_vpn();
    let t2 = a2.heap_top_vpn();
    assert(a1.brk as int == a0.brk as int + d);
    assert(t1 >= t0) by {
        vstd::arithmetic::div_mod::lemma_div_is_ordered(
            a0.brk as int + PAGE_SIZE as int - 1,
            a1.brk as int + PAGE_SIZE as int - 1,
            PAGE_SIZE as int,
        );
    }
    assert(brk_page_top(a1.brk as int + (-d)) == t0);
    assert(sbrk_ok(a1, -d)) by {
        assert forall|p: int| t1 <= p < brk_page_top(a1.brk as int + (-d)) implies !(
        #[trigger] a1.is_mapped(p)) by {}
    }
    assert(t2 == t0);
    assert forall|p: int| #[trigger] a2.is_mapped(p) == a0.is_mapped(p) by {
        if crate::aspace::between(t0, t1, p) {
            assert(t0 < t1 && t0 <= p < t1);
            assert(a1.is_mapped(p) && a1.entry(p).perm == crate::aspace::PERM_RWU);
            assert(crate::aspace::between(t1, t2, p));
            assert(a2.is_mapped(p) == (a1.is_mapped(p) && crate::aspace::covered(
                a1.regions@,
                p,
            )));
            assert(!a0.is_mapped(p));
            assert(!crate::aspace::covered(a0.regions@, p)) by {
                if crate::aspace::covered(a0.regions@, p) {
                    let i = choose|i: int|
                        0 <= i < a0.regions@.len() && (#[trigger] a0.regions@[i]).start <= p
                            < a0.regions@[i].end;
                    a0.lemma_region_page(i, p);
                }
            }
            assert(a1.regions@ == a0.regions@);
            assert(!a2.is_mapped(p));
        } else {
            assert(a1.is_mapped(p) == a0.is_mapped(p));
            assert(!crate::aspace::between(t1, t2, p));
            assert(a2.is_mapped(p) == a1.is_mapped(p));
        }
    }
}

/// Round robin: the process the scheduler selects after `cur` is live,
/// `Ready`, and the first such process in wrapping scan order — no live
/// `Ready` process sits at a strictly smaller distance from `cur`.
pub proof fn lemma_round_robin_first(tasks: Seq<Pcb>, cur: int, i: usize)
    requires
        0 < tasks.len() <= usize::MAX,
        0 <= cur < tasks.len(),
        rr_next(tasks, cur) == Some(i),
    ensures
        i < tasks.len(),
        tasks[i as int].alive,
        tasks[i as int].status is Ready,
        exists|dist: int| #[trigger] first_ready_at(tasks, cur, 1, dist, i),
{
    lemma_scan_first(tasks, cur, 1, i);
}

} // verus!
