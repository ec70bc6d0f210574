//! Per-process virtual memory: a page table over an index-addressed frame
//! arena, plus the ordered, non-overlapping set of mapped region records.

use vstd::prelude::*;

verus! {

/// Size in bytes of one page and of one physical frame.
pub const PAGE_SIZE: usize = 4096;

/// One past the highest user virtual address the model accepts.
pub const MAX_VA: usize = 0x4000_0000;

/// One past the highest virtual page number (`MAX_VA / PAGE_SIZE`).
pub const MAX_VPN: usize = 0x4_0000;

/// Permission bit: page is readable.
pub const PERM_R: u8 = 1;

/// Permission bit: page is writable.
pub const PERM_W: u8 = 2;

/// Permission bit: page is executable.
pub const PERM_X: u8 = 4;

/// Permission bit: page is accessible from user mode.
pub const PERM_U: u8 = 8;

/// Permissions of heap pages: readable, writable, user-accessible.
pub const PERM_RWU: u8 = 1 | 2 | 8;

/// One page-table entry: a virtual page backed by one frame of the arena.
#[derive(Clone, Copy)]
pub struct PageEntry {
    /// Virtual page number.
    pub vpn: usize,
    /// Index of the backing frame in the arena.
    pub ppn: usize,
    /// Permission bits of this page.
    pub perm: u8,
}

/// A mapped region record: virtual pages `[start, end)` sharing one
/// permission set, each backed by an allocated frame.
#[derive(Clone, Copy)]
pub struct Region {
    /// First virtual page number of the region.
    pub start: usize,
    /// One past the last virtual page number of the region.
    pub end: usize,
    /// Permission bits of every page of the region.
    pub perm: u8,
}

/// A process's virtual address space: page table, region records, the frame
/// arena backing the mapped pages, and the heap bounds.
pub struct AddressSpace {
    /// Page table: one entry per mapped virtual page.
    pub table: Vec<PageEntry>,
    /// Region records for the framed areas installed by `insert_framed_area`.
    pub regions: Vec<Region>,
    /// Frame arena: frame `p` owns bytes `[p * PAGE_SIZE, (p + 1) * PAGE_SIZE)`.
    pub mem: Vec<u8>,
    /// Lowest heap address; the heap's original base, fixed at creation.
    pub heap_base: usize,
    /// Current program break: one past the last heap byte.
    pub brk: usize,
}

/// Every virtual address splits uniquely into a page number and an offset.
pub proof fn lemma_page_addr(p: int, off: int)
    requires
        0 <= p,
        0 <= off < PAGE_SIZE,
    ensures
        (p * PAGE_SIZE as int + off) / PAGE_SIZE as int == p,
        (p * PAGE_SIZE as int + off) % PAGE_SIZE as int == off,
{
    vstd::arithmetic::div_mod::lemma_fundamental_div_mod_converse(
        p * PAGE_SIZE as int + off,
        PAGE_SIZE as int,
        p,
        off,
    );
}

/// A frame's bytes lie strictly inside an arena of `frames` frames.
pub proof fn lemma_frame_bound(ppn: int, frames: int)
    requires
        0 <= ppn < frames,
    ensures
        ppn * PAGE_SIZE as int + PAGE_SIZE as int <= frames * PAGE_SIZE as int,
{
    assert(ppn * PAGE_SIZE as int + PAGE_SIZE as int <= frames * PAGE_SIZE as int)
        by (nonlinear_arith)
        requires
            0 <= ppn < frames,
    ;
}

/// True if some region of `rs` contains the virtual page `vpn`.
pub open spec fn covered(rs: Seq<Region>, vpn: int) -> bool {
    exists|i: int| 0 <= i < rs.len() && (#[trigger] rs[i]).start <= vpn < rs[i].end
}

/// Two regions occupy disjoint page ranges.
pub open spec fn rg_disjoint(a: Region, b: Region) -> bool {
    a.end <= b.start || b.end <= a.start
}

/// True if `p` is one of the pages holding the byte range `[start, start + len)`
/// of a page-aligned `start`.
pub open spec fn in_page_range(start: int, len: int, p: int) -> bool {
    start / PAGE_SIZE as int <= p < start / PAGE_SIZE as int + (len + PAGE_SIZE as int - 1)
        / PAGE_SIZE as int
}

/// One past the last page occupied when the program break sits at `brk`.
pub open spec fn brk_page_top(brk: int) -> int {
    (brk + PAGE_SIZE as int - 1) / PAGE_SIZE as int
}

/// Page permissions derived from the `mmap` port bits, plus user access.
pub open spec fn port_perm(port: usize) -> u8 {
    (port & 7) as u8 | PERM_U
}

/// The arguments `mmap` accepts: only the three permission bits, at least
/// one of them, a page-aligned start, a range within the user window, and
/// no page of the range already mapped.
pub open spec fn mmap_ok(a: AddressSpace, start: usize, len: usize, port: usize) -> bool {
    &&& port & 7 == port
    &&& port != 0
    &&& start % PAGE_SIZE == 0
    &&& start + len <= MAX_VA
    &&& forall|p: int| in_page_range(start as int, len as int, p) ==> !(#[trigger] a.is_mapped(p))
}

/// How a successful `mmap` changes an address space: the range's pages are
/// mapped fresh and zero-filled, everything else — mappings, bytes, heap —
/// is untouched, and one new region record is appended.
pub open spec fn mmap_post(
    pre: AddressSpace,
    post: AddressSpace,
    start: usize,
    len: usize,
    port: usize,
) -> bool {
    &&& forall|p: int|
        in_page_range(start as int, len as int, p) ==> #[trigger] post.is_mapped(p)
            && post.entry(p).perm == port_perm(port)
    &&& forall|p: int|
        !in_page_range(start as int, len as int, p) ==> #[trigger] post.is_mapped(p)
            == pre.is_mapped(p)
    &&& forall|p: int|
        !in_page_range(start as int, len as int, p) && pre.is_mapped(p)
            ==> #[trigger] post.entry(p) == pre.entry(p)
    &&& forall|va: int|
        0 <= va && pre.is_mapped(va / PAGE_SIZE as int) ==> #[trigger] post.byte(va) == pre.byte(
            va,
        )
    &&& forall|va: int|
        0 <= va && !pre.is_mapped(va / PAGE_SIZE as int) && in_page_range(
            start as int,
            len as int,
            va / PAGE_SIZE as int,
        ) ==> #[trigger] post.byte(va) == 0
    &&& post.regions@ == (if len > 0 {
        pre.regions@.push(
            Region {
                start: (start / PAGE_SIZE) as usize,
                end: (start as int / PAGE_SIZE as int + (len + PAGE_SIZE as int - 1)
                    / PAGE_SIZE as int) as usize,
                perm: port_perm(port),
            },
        )
    } else {
        pre.regions@
    })
    &&& post.heap_base == pre.heap_base
    &&& post.brk == pre.brk
}

/// How `insert_framed_area` changes an address space: the pages of
/// `[start, end)` are mapped fresh with `perm` and zero-filled, everything
/// else is untouched, and one region record is appended.
pub open spec fn framed_insert_post(
    pre: AddressSpace,
    post: AddressSpace,
    start: usize,
    end: usize,
    perm: u8,
) -> bool {
    &&& forall|p: int|
        in_page_range(start as int, end as int - start as int, p) ==> #[trigger] post.is_mapped(p)
            && post.entry(p).perm == perm
    &&& forall|p: int|
        !in_page_range(start as int, end as int - start as int, p) ==> #[trigger] post.is_mapped(
            p,
        ) == pre.is_mapped(p)
    &&& forall|p: int|
        !in_page_range(start as int, end as int - start as int, p) && pre.is_mapped(p)
            ==> #[trigger] post.entry(p) == pre.entry(p)
    &&& forall|va: int|
        0 <= va && pre.is_mapped(va / PAGE_SIZE as int) ==> #[trigger] post.byte(va) == pre.byte(
            va,
        )
    &&& forall|va: int|
        0 <= va && !pre.is_mapped(va / PAGE_SIZE as int) && in_page_range(
            start as int,
            end as int - start as int,
            va / PAGE_SIZE as int,
        ) ==> #[trigger] post.byte(va) == 0
    &&& post.regions@ == pre.regions@.push(
        (Region {
            start: (start as int / PAGE_SIZE as int) as usize,
            end: (start as int / PAGE_SIZE as int + (end as int - start as int + PAGE_SIZE as int
                - 1) / PAGE_SIZE as int) as usize,
            perm,
        }),
    )
    &&& post.heap_base == pre.heap_base
    &&& post.brk == pre.brk
}

/// The arguments `munmap` accepts: a page-aligned start, a range within the
/// user window, and every page of it currently mapped — heap pages included.
pub open spec fn munmap_ok(a: AddressSpace, start: usize, len: usize) -> bool {
    &&& start % PAGE_SIZE == 0
    &&& start + len <= MAX_VA
    &&& forall|p: int| in_page_range(start as int, len as int, p) ==> #[trigger] a.is_mapped(p)
}

/// How a successful `munmap` changes an address space: the range's pages are
/// unmapped and leave every region record, all other mappings and their
/// bytes are untouched, and the heap bounds do not move.
pub open spec fn munmap_post(
    pre: AddressSpace,
    post: AddressSpace,
    start: usize,
    len: usize,
) -> bool {
    &&& forall|p: int|
        in_page_range(start as int, len as int, p) ==> !(#[trigger] post.is_mapped(p))
    &&& forall|p: int|
        !in_page_range(start as int, len as int, p) ==> #[trigger] post.is_mapped(p)
            == pre.is_mapped(p)
    &&& forall|p: int|
        !in_page_range(start as int, len as int, p) && pre.is_mapped(p)
            ==> #[trigger] post.entry(p) == pre.entry(p)
    &&& forall|va: int|
        0 <= va && !in_page_range(start as int, len as int, va / PAGE_SIZE as int)
            && pre.is_mapped(va / PAGE_SIZE as int) ==> #[trigger] post.byte(va) == pre.byte(va)
    &&& forall|p: int|
        #[trigger] covered(post.regions@, p) == (covered(pre.regions@, p) && !in_page_range(
            start as int,
            len as int,
            p,
        ))
    &&& post.heap_base == pre.heap_base
    &&& post.brk == pre.brk
}

/// The arguments the program-break change accepts: the new break stays
/// between the heap's original base and the user window's end, and on growth
/// the pages the heap would newly occupy are free.
pub open spec fn sbrk_ok(a: AddressSpace, delta: int) -> bool {
    &&& a.heap_base as int <= a.brk as int + delta <= MAX_VA as int
    &&& forall|p: int|
        a.heap_top_vpn() <= p < brk_page_top(a.brk as int + delta) ==> !(#[trigger] a.is_mapped(
            p,
        ))
}

/// True if `p` lies between `a` and `b`, whichever order they come in.
pub open spec fn between(a: int, b: int, p: int) -> bool {
    if a <= b {
        a <= p < b
    } else {
        b <= p < a
    }
}

/// How a successful program-break change by `delta` moves an address space:
/// the break moves and nothing outside the moved page span changes. On
/// growth the new pages appear read-write-user; on shrink the span's heap
/// pages — the mapped pages no region record covers — vanish, while pages a
/// framed area put there (after a heap page was unmapped and remapped) stay.
pub open spec fn sbrk_post(pre: AddressSpace, post: AddressSpace, delta: int) -> bool {
    let t0 = pre.heap_top_vpn();
    let t1 = post.heap_top_vpn();
    &&& post.brk as int == pre.brk as int + delta
    &&& post.heap_base == pre.heap_base
    &&& post.regions@ == pre.regions@
    &&& forall|p: int|
        !between(t0, t1, p) ==> #[trigger] post.is_mapped(p) == pre.is_mapped(p)
    &&& forall|p: int|
        !between(t0, t1, p) && pre.is_mapped(p) ==> #[trigger] post.entry(p) == pre.entry(p)
    &&& t1 >= t0 ==> forall|p: int|
        between(t0, t1, p) ==> #[trigger] post.is_mapped(p) && post.entry(p).perm == PERM_RWU
    &&& t1 < t0 ==> forall|p: int|
        between(t0, t1, p) ==> #[trigger] post.is_mapped(p) == (pre.is_mapped(p) && covered(
            pre.regions@,
            p,
        ))
    &&& t1 < t0 ==> forall|p: int|
        between(t0, t1, p) && post.is_mapped(p) ==> #[trigger] post.entry(p) == pre.entry(p)
    &&& forall|va: int|
        0 <= va && pre.is_mapped(va / PAGE_SIZE as int) && post.is_mapped(va / PAGE_SIZE as int)
            ==> #[trigger] post.byte(va) == pre.byte(va)
}

/// `s` is the null-terminated byte sequence found at `va`: its bytes sit in
/// mapped pages, none of them is zero, and a zero byte follows.
pub open spec fn valid_cstr(a: AddressSpace, va: int, s: Seq<u8>) -> bool {
    &&& forall|j: int| 0 <= j < s.len() ==> #[trigger] a.is_mapped((va + j) / PAGE_SIZE as int)
    &&& forall|j: int| 0 <= j < s.len() ==> (#[trigger] s[j]) == a.byte(va + j) && s[j] != 0
    &&& a.is_mapped((va + s.len()) / PAGE_SIZE as int)
    &&& a.byte(va + s.len()) == 0
}

/// At most one null-terminated byte sequence sits at a given address.
pub proof fn lemma_cstr_unique(a: AddressSpace, va: int, s1: Seq<u8>, s2: Seq<u8>)
    requires
        valid_cstr(a, va, s1),
        valid_cstr(a, va, s2),
    ensures
        s1 == s2,
{
    if s1.len() < s2.len() {
        assert(s2[s1.len() as int] == a.byte(va + s1.len()));
        assert(a.byte(va + s1.len()) == 0);
        assert(false);
    } else if s2.len() < s1.len() {
        assert(s1[s2.len() as int] == a.byte(va + s2.len()));
        assert(a.byte(va + s2.len()) == 0);
        assert(false);
    } else {
        assert forall|j: int| 0 <= j < s1.len() implies s1[j] == s2[j] by {
            assert(s1[j] == a.byte(va + j));
            assert(s2[j] == a.byte(va + j));
        }
        assert(s1 =~= s2);
    }
}

/// A walk that gets stuck on an unmapped page rules out any terminated
/// sequence at the same address.
pub proof fn lemma_cstr_not_stuck(a: AddressSpace, va: int, s: Seq<u8>, j: int)
    requires
        valid_cstr(a, va, s),
    ensures
        !a.cstr_stuck_at(va, j),
{
    if a.cstr_stuck_at(va, j) {
        if j < s.len() {
            assert(a.is_mapped((va + j) / PAGE_SIZE as int));
        } else if j == s.len() {
            assert(a.is_mapped((va + j) / PAGE_SIZE as int));
        } else {
            assert(a.byte(va + s.len()) != 0);
        }
    }
}

/// Appending a region extends coverage by exactly that region's pages.
pub proof fn lemma_covered_push(rs: Seq<Region>, r: Region, p: int)
    ensures
        covered(rs.push(r), p) == (covered(rs, p) || (r.start <= p < r.end)),
{
    if covered(rs, p) {
        let i = choose|i: int| 0 <= i < rs.len() && (#[trigger] rs[i]).start <= p < rs[i].end;
        assert(rs.push(r)[i] == rs[i]);
    }
    if r.start <= p < r.end {
        assert(rs.push(r)[rs.len() as int] == r);
    }
    if covered(rs.push(r), p) {
        let i = choose|i: int|
            0 <= i < rs.push(r).len() && (#[trigger] rs.push(r)[i]).start <= p < rs.push(r)[i].end;
        if i < rs.len() {
            assert(rs[i] == rs.push(r)[i]);
        }
    }
}

/// For a page-aligned `start`, the pages of `[start, start + len)` stay
/// below `MAX_VPN` whenever the byte range stays inside the user window,
/// and the span is non-empty for a non-empty range.
pub proof fn lemma_page_span(start: int, len: int)
    requires
        0 <= start,
        0 <= len,
        start % PAGE_SIZE as int == 0,
        start + len <= MAX_VA as int,
    ensures
        start / PAGE_SIZE as int + (len + PAGE_SIZE as int - 1) / PAGE_SIZE as int
            <= MAX_VPN as int,
        len > 0 ==> (len + PAGE_SIZE as int - 1) / PAGE_SIZE as int >= 1,
        (len + PAGE_SIZE as int - 1) / PAGE_SIZE as int >= 0,
{
    let ps = PAGE_SIZE as int;
    let s = start / ps;
    vstd::arithmetic::div_mod::lemma_fundamental_div_mod(start, ps);
    assert(start == ps * s);
    vstd::arithmetic::div_mod::lemma_hoist_over_denominator(len + ps - 1, s, PAGE_SIZE as nat);
    assert(s * ps == ps * s) by (nonlinear_arith);
    assert((len + ps - 1) / ps + s == (start + len + ps - 1) / ps);
    vstd::arithmetic::div_mod::lemma_div_is_ordered(start + len + ps - 1, MAX_VA as int + ps - 1, ps);
    assert((MAX_VA as int + ps - 1) / ps == MAX_VPN as int);
    if len > 0 {
        vstd::arithmetic::div_mod::lemma_div_is_ordered(ps, len + ps - 1, ps);
        assert(ps / ps == 1) by {
            vstd::arithmetic::div_mod::lemma_div_by_self(ps);
        }
    }
    vstd::arithmetic::div_mod::lemma_div_pos_is_pos(len + ps - 1, ps);
}

/// True if `g` lies inside some region of `rs`, with the same permissions.
pub open spec fn piece_of(rs: Seq<Region>, g: Region) -> bool {
    exists|j: int|
        0 <= j < rs.len() && (#[trigger] rs[j]).start <= g.start && g.end <= rs[j].end && g.perm
            == rs[j].perm
}

/// Remove the page range `[s, e)` from a set of disjoint region records,
/// keeping untouched regions whole and keeping the parts of straddling
/// regions that lie outside the range.
fn carve_regions(rs: &Vec<Region>, s: usize, e: usize) -> (out: Vec<Region>)
    requires
        s <= e,
        forall|i: int|
            0 <= i < rs@.len() ==> (#[trigger] rs@[i]).start < rs@[i].end && rs@[i].end <= MAX_VPN,
        forall|i: int, j: int|
            0 <= i < j < rs@.len() ==> rg_disjoint(#[trigger] rs@[i], #[trigger] rs@[j]),
    ensures
        forall|a: int|
            0 <= a < out@.len() ==> (#[trigger] out@[a]).start < out@[a].end && out@[a].end
                <= MAX_VPN && (out@[a].end <= s || e <= out@[a].start),
        forall|a: int, b: int|
            0 <= a < b < out@.len() ==> rg_disjoint(#[trigger] out@[a], #[trigger] out@[b]),
        forall|a: int| 0 <= a < out@.len() ==> piece_of(rs@, #[trigger] out@[a]),
        forall|p: int|
            #[trigger] covered(out@, p) == (covered(rs@, p) && !(s <= p < e)),
{
    let n = rs.len();
    let mut out: Vec<Region> = Vec::new();
    let mut i: usize = 0;
    while i < n
        invariant
            i <= n,
            n == rs@.len(),
            s <= e,
            forall|k: int|
                0 <= k < rs@.len() ==> (#[trigger] rs@[k]).start < rs@[k].end && rs@[k].end
                    <= MAX_VPN,
            forall|k: int, j: int|
                0 <= k < j < rs@.len() ==> rg_disjoint(#[trigger] rs@[k], #[trigger] rs@[j]),
            forall|a: int|
                0 <= a < out@.len() ==> (#[trigger] out@[a]).start < out@[a].end && out@[a].end
                    <= MAX_VPN && (out@[a].end <= s || e <= out@[a].start),
            forall|a: int| 0 <= a < out@.len() ==> piece_of(rs@.take(i as int), #[trigger] out@[a]),
            forall|a: int, b: int|
                0 <= a < b < out@.len() ==> rg_disjoint(#[trigger] out@[a], #[trigger] out@[b]),
            forall|p: int|
                #[trigger] covered(out@, p) == (covered(rs@.take(i as int), p) && !(s <= p < e)),
        decreases n - i,
    {
        let ghost pre_out = out@;
        let r = rs[i];
        if r.end <= s || e <= r.start {
            out.push(r);
        } else {
            if r.start < s {
                out.push(Region { start: r.start, end: s, perm: r.perm });
            }
            if e < r.end {
                out.push(Region { start: e, end: r.end, perm: r.perm });
            }
        }
        proof {
            let ii = i as int;
            assert(rs@.take(ii + 1) =~= rs@.take(ii).push(rs@[ii]));
            // Every new piece sits inside `rs[i]`, outside `[s, e)`.
            assert forall|a: int|
                pre_out.len() <= a < out@.len() implies (#[trigger] out@[a]).start < out@[a].end
                && out@[a].end <= MAX_VPN && (out@[a].end <= s || e <= out@[a].start)
                && rs@[ii].start <= out@[a].start && out@[a].end <= rs@[ii].end && out@[a].perm
                == rs@[ii].perm by {}
            assert forall|a: int| 0 <= a < out@.len() implies piece_of(
                rs@.take(ii + 1),
                #[trigger] out@[a],
            ) by {
                if a < pre_out.len() {
                    assert(piece_of(rs@.take(ii), pre_out[a]));
                    let j = choose|j: int|
                        0 <= j < rs@.take(ii).len() && (#[trigger] rs@.take(ii)[j]).start
                            <= pre_out[a].start && pre_out[a].end <= rs@.take(ii)[j].end
                            && pre_out[a].perm == rs@.take(ii)[j].perm;
                    assert(rs@.take(ii + 1)[j] == rs@.take(ii)[j]);
                } else {
                    assert(rs@.take(ii + 1)[ii] == rs@[ii]);
                    assert(rs@.take(ii + 1)[ii].start <= out@[a].start && out@[a].end <= rs@.take(
                        ii + 1,
                    )[ii].end && out@[a].perm == rs@.take(ii + 1)[ii].perm);
                }
            }
            assert forall|a: int| 0 <= a < out@.len() implies exists|j: int|
                0 <= j < ii + 1 && (#[trigger] rs@[j]).start <= (#[trigger] out@[a]).start
                    && out@[a].end <= rs@[j].end && out@[a].perm == rs@[j].perm by {
                if a < pre_out.len() {
                    assert(out@[a] == pre_out[a]);
                } else {
                    assert(rs@[ii].start <= out@[a].start && out@[a].end <= rs@[ii].end
                        && out@[a].perm == rs@[ii].perm);
                }
            }
            // New pieces keep out of every earlier piece's source region, and
            // two pieces of one source region sit on opposite sides of `[s, e)`.
            assert forall|a: int, b: int| 0 <= a < b < out@.len() implies rg_disjoint(
                #[trigger] out@[a],
                #[trigger] out@[b],
            ) by {
                if b < pre_out.len() {
                    assert(rg_disjoint(pre_out[a], pre_out[b]));
                } else if a < pre_out.len() {
                    assert(piece_of(rs@.take(ii), pre_out[a]));
                    let j = choose|j: int|
                        0 <= j < rs@.take(ii).len() && (#[trigger] rs@.take(ii)[j]).start
                            <= pre_out[a].start && pre_out[a].end <= rs@.take(ii)[j].end
                            && pre_out[a].perm == rs@.take(ii)[j].perm;
                    assert(rs@.take(ii)[j] == rs@[j]);
                    assert(rg_disjoint(rs@[j], rs@[ii]));
                    assert(rs@[ii].start <= out@[b].start && out@[b].end <= rs@[ii].end);
                } else {
                    assert(b == pre_out.len() + 1 && a == pre_out.len() as int);
                    assert(out@[a].end <= s && e <= out@[b].start);
                }
            }
            // Coverage after this step is coverage over `rs[..i+1]` minus the range.
            assert forall|p: int| #[trigger] covered(out@, p) == (covered(rs@.take(ii + 1), p) && !(
            s <= p < e)) by {
                lemma_covered_push(rs@.take(ii), rs@[ii], p);
                assert(covered(rs@.take(ii + 1), p) == (covered(rs@.take(ii), p) || (rs@[ii].start
                    <= p < rs@[ii].end)));
                assert(covered(pre_out, p) == (covered(rs@.take(ii), p) && !(s <= p < e)));
                if covered(out@, p) {
                    let a = choose|a: int|
                        0 <= a < out@.len() && (#[trigger] out@[a]).start <= p < out@[a].end;
                    if a < pre_out.len() {
                        assert(covered(pre_out, p));
                    } else {
                        assert(rs@[ii].start <= p < rs@[ii].end && !(s <= p < e));
                    }
                }
                if covered(rs@.take(ii + 1), p) && !(s <= p < e) {
                    if covered(rs@.take(ii), p) {
                        let a = choose|a: int|
                            0 <= a < pre_out.len() && (#[trigger] pre_out[a]).start <= p
                                < pre_out[a].end;
                        assert(out@[a] == pre_out[a]);
                        assert(covered(out@, p));
                    } else {
                        assert(rs@[ii].start <= p < rs@[ii].end);
                        if rs@[ii].end <= s || e <= rs@[ii].start {
                            assert(out@[pre_out.len() as int] == rs@[ii]);
                            assert(covered(out@, p));
                        } else if p < s {
                            assert(rs@[ii].start < s);
                            assert(out@[pre_out.len() as int].start <= p
                                < out@[pre_out.len() as int].end);
                            assert(covered(out@, p));
                        } else {
                            assert(p >= e);
                            assert(e < rs@[ii].end);
                            let last = out@.len() - 1;
                            assert(out@[last].start == e && out@[last].end == rs@[ii].end);
                            assert(covered(out@, p));
                        }
                    }
                }
            }
        }
        i += 1;
    }
    proof {
        assert(rs@.take(n as int) =~= rs@);
    }
    out
}

impl AddressSpace {
    /// Number of frames in the arena.
    pub open spec fn frames(self) -> int {
        self.mem@.len() as int / PAGE_SIZE as int
    }

    /// True if the page table maps the virtual page `vpn`.
    pub open spec fn is_mapped(self, vpn: int) -> bool {
        exists|i: int| 0 <= i < self.table@.len() && (#[trigger] self.table@[i]).vpn == vpn
    }

    /// Index in the page table of the entry for `vpn`.
    pub open spec fn entry_index(self, vpn: int) -> int {
        choose|i: int| 0 <= i < self.table@.len() && (#[trigger] self.table@[i]).vpn == vpn
    }

    /// The page-table entry for the mapped page `vpn`.
    pub open spec fn entry(self, vpn: int) -> PageEntry {
        self.table@[self.entry_index(vpn)]
    }

    /// The byte that the mapped virtual address `va` translates to.
    pub open spec fn byte(self, va: int) -> u8 {
        self.mem@[self.entry(va / PAGE_SIZE as int).ppn as int * PAGE_SIZE as int
            + va % PAGE_SIZE as int]
    }

    /// First virtual page of the heap.
    pub open spec fn heap_start_vpn(self) -> int {
        self.heap_base as int / PAGE_SIZE as int
    }

    /// One past the last virtual page the heap currently occupies.
    pub open spec fn heap_top_vpn(self) -> int {
        (self.brk as int + PAGE_SIZE as int - 1) / PAGE_SIZE as int
    }

    /// The page table maps each virtual page at most once, backs distinct
    /// pages by distinct frames, and stays within the arena and address bounds.
    pub open spec fn table_wf(self) -> bool {
        &&& forall|i: int, j: int|
            0 <= i < j < self.table@.len()
                ==> (#[trigger] self.table@[i]).vpn != (#[trigger] self.table@[j]).vpn
        &&& forall|i: int, j: int|
            0 <= i < j < self.table@.len()
                ==> (#[trigger] self.table@[i]).ppn != (#[trigger] self.table@[j]).ppn
        &&& forall|i: int|
            0 <= i < self.table@.len()
                ==> (#[trigger] self.table@[i]).ppn < self.frames()
                    && self.table@[i].vpn < MAX_VPN
    }

    /// Regions are non-empty, in bounds, pairwise disjoint, and every page of
    /// a region is mapped with the region's permissions.
    pub open spec fn regions_wf(self) -> bool {
        &&& forall|i: int|
            0 <= i < self.regions@.len()
                ==> (#[trigger] self.regions@[i]).start < self.regions@[i].end
                    && self.regions@[i].end <= MAX_VPN
        &&& forall|i: int, j: int|
            0 <= i < j < self.regions@.len()
                ==> (#[trigger] self.regions@[i]).end <= (#[trigger] self.regions@[j]).start
                    || self.regions@[j].end <= self.regions@[i].start
        &&& forall|i: int, p: int|
            0 <= i < self.regions@.len() && (#[trigger] self.regions@[i]).start <= p
                < self.regions@[i].end ==> #[trigger] self.is_mapped(p)
        &&& forall|i: int, p: int|
            0 <= i < self.regions@.len() && (#[trigger] self.regions@[i]).start <= p
                < self.regions@[i].end ==> (#[trigger] self.entry(p)).perm
                == self.regions@[i].perm
    }

    /// The heap base is page-aligned and the break never sits below it or
    /// past the user window. The heap's pages are not pinned here: `munmap`
    /// may release any mapped page, heap pages included, so the span
    /// `[heap_base, brk)` may hold holes; the program-break change releases
    /// only the mapped pages of its span that no region record covers.
    pub open spec fn heap_wf(self) -> bool {
        &&& self.heap_base % PAGE_SIZE == 0
        &&& self.heap_base <= self.brk <= MAX_VA
    }

    /// Well-formedness of the whole address space.
    pub open spec fn wf(self) -> bool {
        &&& self.mem@.len() as int % PAGE_SIZE as int == 0
        &&& self.table_wf()
        &&& self.regions_wf()
        &&& self.heap_wf()
    }

    /// The entry for a mapped page is the unique table entry carrying its
    /// virtual page number.
    pub proof fn lemma_entry_unique(self, vpn: int, i: int)
        requires
            self.table_wf(),
            0 <= i < self.table@.len(),
            self.table@[i].vpn == vpn,
        ensures
            self.is_mapped(vpn),
            self.entry_index(vpn) == i,
            self.entry(vpn) == self.table@[i],
    {
        assert(self.is_mapped(vpn));
        let k = self.entry_index(vpn);
        assert(0 <= k < self.table@.len() && self.table@[k].vpn == vpn);
        if k < i {
            assert(self.table@[k].vpn != self.table@[i].vpn);
        } else if i < k {
            assert(self.table@[i].vpn != self.table@[k].vpn);
        }
    }

    /// Every page of a recorded region is mapped with the region's permissions.
    pub proof fn lemma_region_page(self, i: int, p: int)
        requires
            self.regions_wf(),
            0 <= i < self.regions@.len(),
            self.regions@[i].start <= p < self.regions@[i].end,
        ensures
            self.is_mapped(p),
            self.entry(p).perm == self.regions@[i].perm,
    {
        assert(0 <= i < self.regions@.len() && self.regions@[i].start <= p
            < self.regions@[i].end);
    }

    /// A space differing from a well-formed one only in its program break
    /// keeps a well-formed table and regions, with the same mappings.
    pub proof fn lemma_wf_except_heap(self, other: AddressSpace)
        requires
            other.table_wf(),
            other.regions_wf(),
            self.table@ == other.table@,
            self.regions@ == other.regions@,
            self.mem@ == other.mem@,
        ensures
            self.table_wf(),
            self.regions_wf(),
            forall|p: int| #[trigger] self.is_mapped(p) == other.is_mapped(p),
            forall|p: int| other.is_mapped(p) ==> #[trigger] self.entry(p) == other.entry(p),
            forall|va: int|
                0 <= va && other.is_mapped(va / PAGE_SIZE as int) ==> #[trigger] self.byte(va)
                    == other.byte(va),
    {
        self.lemma_same_table_mappings(other);
        assert forall|i: int, p: int|
            0 <= i < self.regions@.len() && (#[trigger] self.regions@[i]).start <= p
                < self.regions@[i].end implies #[trigger] self.is_mapped(p) by {
            other.lemma_region_page(i, p);
        }
        assert forall|i: int, p: int|
            0 <= i < self.regions@.len() && (#[trigger] self.regions@[i]).start <= p
                < self.regions@[i].end implies (#[trigger] self.entry(p)).perm
            == self.regions@[i].perm by {
            other.lemma_region_page(i, p);
        }
    }

    /// Two spaces sharing one page table and arena have the same mappings,
    /// entries and bytes.
    pub proof fn lemma_same_table_mappings(self, other: AddressSpace)
        requires
            self.table@ == other.table@,
            self.mem@ == other.mem@,
            other.table_wf(),
        ensures
            self.table_wf(),
            forall|p: int| #[trigger] self.is_mapped(p) == other.is_mapped(p),
            forall|p: int| other.is_mapped(p) ==> #[trigger] self.entry(p) == other.entry(p),
            forall|va: int|
                0 <= va && other.is_mapped(va / PAGE_SIZE as int) ==> #[trigger] self.byte(va)
                    == other.byte(va),
    {
        assert forall|p: int| #[trigger] self.is_mapped(p) == other.is_mapped(p) by {
            if other.is_mapped(p) {
                let i = other.entry_index(p);
                assert(self.table@[i].vpn == p);
            }
            if self.is_mapped(p) {
                let i = self.entry_index(p);
                assert(other.table@[i].vpn == p);
            }
        }
        assert forall|p: int| other.is_mapped(p) implies #[trigger] self.entry(p) == other.entry(
            p,
        ) by {
            let i = other.entry_index(p);
            other.lemma_entry_unique(p, i);
            self.lemma_entry_unique(p, i);
        }
    }

    /// A space with the same page table, regions, heap bounds and arena size
    /// as a well-formed one is well formed, with the same mappings.
    pub proof fn lemma_same_structure_wf(self, pre: AddressSpace)
        requires
            pre.wf(),
            self.table@ == pre.table@,
            self.regions@ == pre.regions@,
            self.heap_base == pre.heap_base,
            self.brk == pre.brk,
            self.mem@.len() == pre.mem@.len(),
        ensures
            self.wf(),
            forall|p: int| #[trigger] self.is_mapped(p) == pre.is_mapped(p),
            forall|p: int| pre.is_mapped(p) ==> #[trigger] self.entry(p) == pre.entry(p),
    {
        assert forall|p: int| #[trigger] self.is_mapped(p) == pre.is_mapped(p) by {
            if pre.is_mapped(p) {
                let i = pre.entry_index(p);
                assert(self.table@[i].vpn == p);
            }
            if self.is_mapped(p) {
                let i = self.entry_index(p);
                assert(pre.table@[i].vpn == p);
            }
        }
        assert forall|p: int| pre.is_mapped(p) implies #[trigger] self.entry(p) == pre.entry(p) by {
            let i = pre.entry_index(p);
            pre.lemma_entry_unique(p, i);
            self.lemma_entry_unique(p, i);
        }
        assert forall|i: int, p: int|
            0 <= i < self.regions@.len() && (#[trigger] self.regions@[i]).start <= p
                < self.regions@[i].end implies #[trigger] self.is_mapped(p) by {
            pre.lemma_region_page(i, p);
        }
        assert forall|i: int, p: int|
            0 <= i < self.regions@.len() && (#[trigger] self.regions@[i]).start <= p
                < self.regions@[i].end implies (#[trigger] self.entry(p)).perm
            == self.regions@[i].perm by {
            pre.lemma_region_page(i, p);
        }
    }

    /// A fresh, empty address space whose heap starts (and ends) at `heap_base`.
    pub fn new_space(heap_base: usize) -> (r: AddressSpace)
        requires
            heap_base % PAGE_SIZE == 0,
            heap_base <= MAX_VA,
        ensures
            r.wf(),
            r.table@.len() == 0,
            r.regions@.len() == 0,
            r.mem@.len() == 0,
            r.heap_base == heap_base,
            r.brk == heap_base,
            forall|p: int| !r.is_mapped(p),
    {
        let r = AddressSpace {
            table: Vec::new(),
            regions: Vec::new(),
            mem: Vec::new(),
            heap_base,
            brk: heap_base,
        };
        assert(forall|p: int| !r.is_mapped(p));
        assert(r.heap_top_vpn() == r.heap_start_vpn());
        r
    }

    /// The arena's length is exactly its frame count times the page size.
    pub proof fn lemma_arena(self)
        requires
            self.mem@.len() as int % PAGE_SIZE as int == 0,
        ensures
            self.frames() * PAGE_SIZE as int == self.mem@.len() as int,
    {
        vstd::arithmetic::div_mod::lemma_fundamental_div_mod(
            self.mem@.len() as int,
            PAGE_SIZE as int,
        );
    }

    /// Read-only page-table lookup: the entry for `vpn`, or `None` if the
    /// page is unmapped.
    pub fn translate(&self, vpn: usize) -> (r: Option<PageEntry>)
        requires
            self.table_wf(),
        ensures
            match r {
                Some(e) => self.is_mapped(vpn as int) && e == self.entry(vpn as int),
                None => !self.is_mapped(vpn as int),
            },
    {
        let n = self.table.len();
        let mut i: usize = 0;
        while i < n
            invariant
                n == self.table@.len(),
                i <= n,
                self.table_wf(),
                forall|j: int| 0 <= j < i ==> (#[trigger] self.table@[j]).vpn != vpn,
            decreases n - i,
        {
            if self.table[i].vpn == vpn {
                proof {
                    self.lemma_entry_unique(vpn as int, i as int);
                }
                return Some(self.table[i]);
            }
            i += 1;
        }
        None
    }

    /// Index of the page-table entry for the mapped page `vpn`.
    fn find_vpn(&self, vpn: usize) -> (i: usize)
        requires
            self.table_wf(),
            self.is_mapped(vpn as int),
        ensures
            i < self.table@.len(),
            self.table@[i as int].vpn == vpn,
            i as int == self.entry_index(vpn as int),
    {
        let n = self.table.len();
        let mut i: usize = 0;
        while i < n
            invariant
                n == self.table@.len(),
                i <= n,
                self.table_wf(),
                self.is_mapped(vpn as int),
                forall|j: int| 0 <= j < i ==> (#[trigger] self.table@[j]).vpn != vpn,
            decreases n - i,
        {
            if self.table[i].vpn == vpn {
                proof {
                    self.lemma_entry_unique(vpn as int, i as int);
                }
                return i;
            }
            i += 1;
        }
        proof {
            let k = self.entry_index(vpn as int);
            assert(self.table@[k].vpn == vpn);
            assert(false);
        }
        0
    }

    /// True if every page holding a byte of `[va, va + len)` is mapped.
    pub open spec fn range_mapped(self, va: int, len: int) -> bool {
        forall|k: int| 0 <= k < len ==> #[trigger] self.is_mapped((va + k) / PAGE_SIZE as int)
    }

    /// Walk the byte range `[va, va + len)` and report whether every page
    /// holding one of its bytes is currently mapped. Read-only.
    pub fn check_range_mapped(&self, va: usize, len: usize) -> (r: bool)
        requires
            self.wf(),
            va + len <= MAX_VA,
        ensures
            r == self.range_mapped(va as int, len as int),
    {
        let mut k: usize = 0;
        while k < len
            invariant
                k <= len,
                va + len <= MAX_VA,
                self.wf(),
                forall|j: int| 0 <= j < k ==> #[trigger] self.is_mapped((va + j) / PAGE_SIZE as int),
            decreases len - k,
        {
            match self.translate((va + k) / PAGE_SIZE) {
                Some(_) => {},
                None => {
                    return false;
                },
            }
            k += 1;
        }
        true
    }

    /// Copy `data` into user memory at `va`, crossing page boundaries as
    /// needed. Fails with no change at all if any page of the range is
    /// unmapped: the pre-scan is the correctness boundary.
    pub fn write_bytes(&mut self, va: usize, data: &Vec<u8>) -> (ok: bool)
        requires
            old(self).wf(),
            va + data@.len() <= MAX_VA,
        ensures
            final(self).wf(),
            ok == old(self).range_mapped(va as int, data@.len() as int),
            !ok ==> *final(self) == *old(self),
            ok ==> final(self).table@ == old(self).table@ && final(self).regions@ == old(
                self,
            ).regions@ && final(self).heap_base == old(self).heap_base && final(self).brk == old(
                self,
            ).brk && final(self).mem@.len() == old(self).mem@.len(),
            ok ==> forall|k: int|
                0 <= k < data@.len() ==> #[trigger] final(self).byte(va as int + k) == data@[k],
            ok ==> forall|va2: int|
                0 <= va2 && (va2 < va as int || va2 >= va as int + data@.len()) && old(
                    self,
                ).is_mapped(va2 / PAGE_SIZE as int) ==> #[trigger] final(self).byte(va2) == old(
                    self,
                ).byte(va2),
    {
        if !self.check_range_mapped(va, data.len()) {
            return false;
        }
        let n = data.len();
        let mut k: usize = 0;
        while k < n
            invariant
                k <= n,
                n == data@.len(),
                va + n <= MAX_VA,
                old(self).wf(),
                self.wf(),
                self.table@ == old(self).table@,
                self.regions@ == old(self).regions@,
                self.heap_base == old(self).heap_base,
                self.brk == old(self).brk,
                self.mem@.len() == old(self).mem@.len(),
                old(self).range_mapped(va as int, n as int),
                forall|j: int| 0 <= j < k ==> #[trigger] self.byte(va as int + j) == data@[j],
                forall|va2: int|
                    0 <= va2 && (va2 < va as int || va2 >= va as int + n) && old(self).is_mapped(
                        va2 / PAGE_SIZE as int,
                    ) ==> #[trigger] self.byte(va2) == old(self).byte(va2),
            decreases n - k,
        {
            proof {
                self.lemma_same_structure_wf(*old(self));
                assert(old(self).is_mapped((va + k) as int / PAGE_SIZE as int));
            }
            let ghost mid = *self;
            self.write_byte(va + k, data[k]);
            proof {
                assert forall|j: int| 0 <= j < k + 1 implies #[trigger] self.byte(va as int + j)
                    == data@[j] by {
                    if j < k {
                        assert(mid.is_mapped((va as int + j) / PAGE_SIZE as int)) by {
                            mid.lemma_same_structure_wf(*old(self));
                        }
                        assert(va as int + j != va as int + k);
                    }
                }
                assert forall|va2: int|
                    0 <= va2 && (va2 < va as int || va2 >= va as int + n) && old(self).is_mapped(
                        va2 / PAGE_SIZE as int,
                    ) implies #[trigger] self.byte(va2) == old(self).byte(va2) by {
                    assert(mid.is_mapped(va2 / PAGE_SIZE as int)) by {
                        mid.lemma_same_structure_wf(*old(self));
                    }
                    assert(va2 != va as int + k);
                    assert(mid.byte(va2) == old(self).byte(va2));
                }
            }
            k += 1;
        }
        true
    }

    /// Copy `len` bytes out of user memory at `va`, crossing page boundaries
    /// as needed; `None` with no other effect if any page is unmapped.
    pub fn read_bytes(&self, va: usize, len: usize) -> (r: Option<Vec<u8>>)
        requires
            self.wf(),
            va + len <= MAX_VA,
        ensures
            match r {
                Some(v) => self.range_mapped(va as int, len as int) && v@.len() == len && forall|
                    k: int,
                |
                    0 <= k < len ==> #[trigger] v@[k] == self.byte(va as int + k),
                None => !self.range_mapped(va as int, len as int),
            },
    {
        if !self.check_range_mapped(va, len) {
            return None;
        }
        let mut out: Vec<u8> = Vec::new();
        let mut k: usize = 0;
        while k < len
            invariant
                k <= len,
                va + len <= MAX_VA,
                self.wf(),
                self.range_mapped(va as int, len as int),
                out@.len() == k,
                forall|j: int| 0 <= j < k ==> #[trigger] out@[j] == self.byte(va as int + j),
            decreases len - k,
        {
            let b = self.read_byte(va + k);
            out.push(b);
            k += 1;
        }
        Some(out)
    }

    /// The walk from `va` reaches an unmapped page after exactly `j` mapped,
    /// non-zero bytes: no terminator is reachable.
    pub open spec fn cstr_stuck_at(self, va: int, j: int) -> bool {
        &&& 0 <= j
        &&& !self.is_mapped((va + j) / PAGE_SIZE as int)
        &&& forall|k: int| 0 <= k < j ==> #[trigger] self.is_mapped((va + k) / PAGE_SIZE as int)
        &&& forall|k: int| 0 <= k < j ==> (#[trigger] self.byte(va + k)) != 0
    }

    /// Walk page by page from `va`, copying bytes into a fresh buffer until a
    /// zero terminator; `None` if an unmapped page is reached first.
    pub fn read_cstr(&self, va: usize) -> (r: Option<Vec<u8>>)
        requires
            self.wf(),
        ensures
            match r {
                Some(s) => {
                    &&& forall|k: int|
                        0 <= k < s@.len() ==> #[trigger] self.is_mapped(
                            (va as int + k) / PAGE_SIZE as int,
                        )
                    &&& forall|k: int|
                        0 <= k < s@.len() ==> (#[trigger] s@[k]) == self.byte(va as int + k)
                    &&& forall|k: int| 0 <= k < s@.len() ==> (#[trigger] s@[k]) != 0
                    &&& self.is_mapped((va as int + s@.len()) / PAGE_SIZE as int)
                    &&& self.byte(va as int + s@.len()) == 0
                },
                None => exists|j: int| #[trigger] self.cstr_stuck_at(va as int, j),
            },
    {
        if va >= MAX_VA {
            proof {
                assert((va as int + 0) / PAGE_SIZE as int >= MAX_VPN as int) by {
                    vstd::arithmetic::div_mod::lemma_div_is_ordered(
                        MAX_VA as int,
                        va as int,
                        PAGE_SIZE as int,
                    );
                }
                assert(!self.is_mapped((va as int + 0) / PAGE_SIZE as int)) by {
                    if self.is_mapped((va as int + 0) / PAGE_SIZE as int) {
                        let i = self.entry_index((va as int + 0) / PAGE_SIZE as int);
                        assert(self.table@[i].vpn < MAX_VPN);
                    }
                }
                assert(self.cstr_stuck_at(va as int, 0));
            }
            return None;
        }
        let mut out: Vec<u8> = Vec::new();
        let mut cur: usize = va;
        loop
            invariant
                self.wf(),
                cur - va == out@.len(),
                va <= cur <= MAX_VA,
                forall|k: int|
                    0 <= k < out@.len() ==> #[trigger] self.is_mapped(
                        (va as int + k) / PAGE_SIZE as int,
                    ),
                forall|k: int|
                    0 <= k < out@.len() ==> (#[trigger] out@[k]) == self.byte(va as int + k),
                forall|k: int| 0 <= k < out@.len() ==> (#[trigger] out@[k]) != 0,
            decreases MAX_VA - cur,
        {
            let mapped = match self.translate(cur / PAGE_SIZE) {
                Some(_) => true,
                None => false,
            };
            if !mapped {
                proof {
                    let j = out@.len() as int;
                    assert(!self.is_mapped((va as int + j) / PAGE_SIZE as int));
                    assert forall|k: int|
                        0 <= k < j implies #[trigger] self.is_mapped(
                        (va as int + k) / PAGE_SIZE as int,
                    ) by {
                        assert(out@[k] == self.byte(va as int + k));
                    }
                    assert forall|k: int|
                        0 <= k < j implies (#[trigger] self.byte(va as int + k)) != 0 by {
                        assert(out@[k] == self.byte(va as int + k));
                    }
                    assert(self.cstr_stuck_at(va as int, j));
                }
                return None;
            }
            proof {
                assert(self.entry(cur as int / PAGE_SIZE as int).vpn < MAX_VPN);
                assert((cur as int / PAGE_SIZE as int) < MAX_VPN as int);
                assert(cur < MAX_VA) by {
                    vstd::arithmetic::div_mod::lemma_fundamental_div_mod(
                        cur as int,
                        PAGE_SIZE as int,
                    );
                }
            }
            let b = self.read_byte(cur);
            if b == 0 {
                proof {
                    assert(cur as int == va as int + out@.len());
                    assert(self.byte(va as int + out@.len()) == 0);
                    assert(self.is_mapped((va as int + out@.len()) / PAGE_SIZE as int));
                }
                return Some(out);
            }
            out.push(b);
            cur += 1;
        }
    }

    /// True if some region record covers the virtual page `vpn`.
    pub fn covered_region(&self, vpn: usize) -> (r: bool)
        ensures
            r == covered(self.regions@, vpn as int),
    {
        let n = self.regions.len();
        let mut i: usize = 0;
        while i < n
            invariant
                i <= n,
                n == self.regions@.len(),
                forall|j: int|
                    0 <= j < i ==> !((#[trigger] self.regions@[j]).start <= (vpn as int)
                        && (vpn as int) < self.regions@[j].end),
            decreases n - i,
        {
            if self.regions[i].start <= vpn && vpn < self.regions[i].end {
                return true;
            }
            i += 1;
        }
        false
    }

    /// Map the unmapped page `vpn` with permissions `perm`, backed by a
    /// freshly allocated, zero-filled frame.
    pub fn map_page(&mut self, vpn: usize, perm: u8)
        requires
            old(self).wf(),
            !old(self).is_mapped(vpn as int),
            vpn < MAX_VPN,
        ensures
            final(self).wf(),
            final(self).is_mapped(vpn as int),
            final(self).entry(vpn as int).vpn == vpn,
            final(self).entry(vpn as int).perm == perm,
            final(self).entry(vpn as int).ppn as int == old(self).frames(),
            forall|v: int|
                v != vpn as int ==> #[trigger] final(self).is_mapped(v) == old(self).is_mapped(v),
            forall|v: int|
                v != vpn as int && old(self).is_mapped(v) ==> #[trigger] final(self).entry(v)
                    == old(self).entry(v),
            forall|va: int|
                0 <= va && old(self).is_mapped(va / PAGE_SIZE as int)
                    ==> #[trigger] final(self).byte(va) == old(self).byte(va),
            forall|va: int|
                vpn as int * PAGE_SIZE as int <= va < vpn as int * PAGE_SIZE as int
                    + PAGE_SIZE as int ==> #[trigger] final(self).byte(va) == 0,
            final(self).regions@ == old(self).regions@,
            final(self).heap_base == old(self).heap_base,
            final(self).brk == old(self).brk,
            final(self).frames() == old(self).frames() + 1,
    {
        let base = self.mem.len();
        let ppn = base / PAGE_SIZE;
        proof {
            old(self).lemma_arena();
        }
        let mut k: usize = 0;
        while k < PAGE_SIZE
            invariant
                k <= PAGE_SIZE,
                self.mem@.len() == old(self).mem@.len() + k,
                forall|j: int| 0 <= j < old(self).mem@.len() ==> self.mem@[j] == old(self).mem@[j],
                forall|j: int|
                    old(self).mem@.len() <= j < self.mem@.len() ==> self.mem@[j] == 0u8,
                self.table@ == old(self).table@,
                self.regions@ == old(self).regions@,
                self.heap_base == old(self).heap_base,
                self.brk == old(self).brk,
            decreases PAGE_SIZE - k,
        {
            self.mem.push(0);
            k += 1;
        }
        self.table.push(PageEntry { vpn, ppn, perm });
        proof {
            let pre = *old(self);
            let n = pre.table@.len() as int;
            assert(forall|i: int|
                0 <= i < n ==> (#[trigger] pre.table@[i]).vpn != vpn) by {
                assert(!pre.is_mapped(vpn as int));
            }
            assert(ppn as int == pre.frames());
            // The new table is well formed.
            assert forall|i: int, j: int| 0 <= i < j < self.table@.len() implies (
            #[trigger] self.table@[i]).vpn != (#[trigger] self.table@[j]).vpn && self.table@[i].ppn
                != self.table@[j].ppn by {
                if j < n {
                    assert(pre.table@[i].vpn != pre.table@[j].vpn);
                    assert(pre.table@[i].ppn != pre.table@[j].ppn);
                } else {
                    assert(pre.table@[i].vpn != vpn);
                    assert(pre.table@[i].ppn < pre.frames());
                }
            }
            self.lemma_entry_unique(vpn as int, n);
            // Mappings of all other pages are exactly as before.
            assert forall|v: int| v != vpn as int implies #[trigger] self.is_mapped(v)
                == pre.is_mapped(v) by {
                if pre.is_mapped(v) {
                    let i = pre.entry_index(v);
                    assert(self.table@[i].vpn == v);
                }
                if self.is_mapped(v) {
                    let i = self.entry_index(v);
                    assert(i < n);
                    assert(pre.table@[i].vpn == v);
                }
            }
            assert forall|v: int| v != vpn as int && pre.is_mapped(v) implies #[trigger] self.entry(
                v,
            ) == pre.entry(v) by {
                let i = pre.entry_index(v);
                pre.lemma_entry_unique(v, i);
                self.lemma_entry_unique(v, i);
            }
            pre.lemma_arena();
            self.lemma_arena();
            // Bytes of previously mapped pages are untouched.
            assert forall|va: int| 0 <= va && pre.is_mapped(va / PAGE_SIZE as int) implies
            #[trigger] self.byte(va) == pre.byte(va) by {
                let p = va / PAGE_SIZE as int;
                assert(p != vpn as int);
                let e = pre.entry(p);
                assert(e.ppn < pre.frames());
                let idx = e.ppn as int * PAGE_SIZE as int + va % PAGE_SIZE as int;
                assert(e.ppn as int * PAGE_SIZE as int + PAGE_SIZE as int <= pre.frames()
                    * PAGE_SIZE as int) by (nonlinear_arith)
                    requires
                        (e.ppn as int) < pre.frames(),
                        PAGE_SIZE as int > 0,
                ;
                assert(0 <= idx < pre.mem@.len());
            }
            // The fresh page reads as zeroes.
            assert forall|va: int|
                vpn as int * PAGE_SIZE as int <= va < vpn as int * PAGE_SIZE as int
                    + PAGE_SIZE as int implies #[trigger] self.byte(va) == 0 by {
                let off = va - vpn as int * PAGE_SIZE as int;
                lemma_page_addr(vpn as int, off);
                assert(self.entry(va / PAGE_SIZE as int).ppn as int == pre.frames());
                assert(self.byte(va) == self.mem@[pre.frames() * PAGE_SIZE as int + off]);
            }
            // Regions and the heap are untouched, so the invariant carries over.
            assert forall|i: int, p: int|
                0 <= i < self.regions@.len() && (#[trigger] self.regions@[i]).start <= p
                    < self.regions@[i].end implies #[trigger] self.is_mapped(p) by {
                pre.lemma_region_page(i, p);
                assert(p != vpn as int);
            }
            assert forall|i: int, p: int|
                0 <= i < self.regions@.len() && (#[trigger] self.regions@[i]).start <= p
                    < self.regions@[i].end implies (#[trigger] self.entry(p)).perm
                == self.regions@[i].perm by {
                pre.lemma_region_page(i, p);
                assert(p != vpn as int);
            }
        }
    }

    /// Remove every page of the byte range `[start, start + len)` from the
    /// page table and carve the range out of the region records. The caller
    /// pre-checks that every page is mapped.
    pub fn unmap_range(&mut self, start: usize, len: usize)
        requires
            old(self).wf(),
            munmap_ok(*old(self), start, len),
            len > 0,
        ensures
            final(self).wf(),
            munmap_post(*old(self), *final(self), start, len),
    {
        let s = start / PAGE_SIZE;
        let np = (len + PAGE_SIZE - 1) / PAGE_SIZE;
        proof {
            lemma_page_span(start as int, len as int);
        }
        let new_regions = carve_regions(&self.regions, s, s + np);
        let ghost pre = *old(self);
        let ghost carved = new_regions@;
        self.regions = new_regions;
        proof {
            self.lemma_same_table_mappings(pre);
            assert forall|i: int, p: int|
                0 <= i < self.regions@.len() && (#[trigger] self.regions@[i]).start <= p
                    < self.regions@[i].end implies #[trigger] self.is_mapped(p) by {
                assert(piece_of(pre.regions@, self.regions@[i]));
                let j = choose|j: int|
                    0 <= j < pre.regions@.len() && (#[trigger] pre.regions@[j]).start
                        <= self.regions@[i].start && self.regions@[i].end <= pre.regions@[j].end
                        && self.regions@[i].perm == pre.regions@[j].perm;
                pre.lemma_region_page(j, p);
            }
            assert forall|i: int, p: int|
                0 <= i < self.regions@.len() && (#[trigger] self.regions@[i]).start <= p
                    < self.regions@[i].end implies (#[trigger] self.entry(p)).perm
                == self.regions@[i].perm by {
                assert(piece_of(pre.regions@, self.regions@[i]));
                let j = choose|j: int|
                    0 <= j < pre.regions@.len() && (#[trigger] pre.regions@[j]).start
                        <= self.regions@[i].start && self.regions@[i].end <= pre.regions@[j].end
                        && self.regions@[i].perm == pre.regions@[j].perm;
                pre.lemma_region_page(j, p);
                assert(self.entry(p) == pre.entry(p));
            }
            assert(self.wf());
        }
        let mut k: usize = 0;
        while k < np
            invariant
                k <= np,
                s == start as int / PAGE_SIZE as int,
                np == (len + PAGE_SIZE as int - 1) / PAGE_SIZE as int,
                start % PAGE_SIZE == 0,
                start + len <= MAX_VA,
                len > 0,
                s + np <= MAX_VPN,
                old(self).wf(),
                self.wf(),
                munmap_ok(*old(self), start, len),
                self.regions@ == carved,
                forall|p: int|
                    #[trigger] covered(carved, p) == (covered(old(self).regions@, p) && !(s <= p < s
                        + np)),
                forall|p: int| s <= p < s + k ==> !(#[trigger] self.is_mapped(p)),
                forall|p: int|
                    !(s <= p < s + k) ==> #[trigger] self.is_mapped(p) == old(self).is_mapped(p),
                forall|p: int|
                    !(s <= p < s + k) && old(self).is_mapped(p) ==> #[trigger] self.entry(p)
                        == old(self).entry(p),
                self.mem@ == old(self).mem@,
                self.heap_base == old(self).heap_base,
                self.brk == old(self).brk,
            decreases np - k,
        {
            proof {
                assert(in_page_range(start as int, len as int, s + k as int));
                assert(old(self).is_mapped(s + k as int));
                assert(!covered(carved, s + k as int));
            }
            let ghost mid = *self;
            self.unmap_page(s + k);
            proof {
                assert forall|p: int|
                    !(s <= p < s + k + 1) implies #[trigger] self.is_mapped(p) == old(
                    self,
                ).is_mapped(p) by {
                    assert(self.is_mapped(p) == mid.is_mapped(p));
                }
                assert forall|p: int|
                    !(s <= p < s + k + 1) && old(self).is_mapped(p) implies #[trigger] self.entry(
                    p,
                ) == old(self).entry(p) by {
                    assert(mid.is_mapped(p));
                    assert(self.entry(p) == mid.entry(p));
                }
            }
            k += 1;
        }
        proof {
            let pre2 = *old(self);
            assert forall|va: int|
                0 <= va && !in_page_range(start as int, len as int, va / PAGE_SIZE as int)
                    && pre2.is_mapped(va / PAGE_SIZE as int) implies #[trigger] self.byte(va)
                == pre2.byte(va) by {
                let p = va / PAGE_SIZE as int;
                assert(self.entry(p) == pre2.entry(p));
            }
        }
    }

    /// Grow or shrink the heap by `size` bytes, mapping or unmapping frames
    /// as the heap's page span moves; a shrink releases the span's heap
    /// pages — the mapped pages no region record covers — and leaves framed
    /// areas and `munmap`-punched holes alone. Returns the previous break,
    /// or `None` with no change when the new break would leave the window
    /// the heap may occupy or growth would collide with an existing mapping.
    pub fn change_program_brk(&mut self, size: i32) -> (r: Option<usize>)
        requires
            old(self).wf(),
        ensures
            final(self).wf(),
            (r is Some) <==> sbrk_ok(*old(self), size as int),
            r is None ==> *final(self) == *old(self),
            r is Some ==> r == Some(old(self).brk) && sbrk_post(
                *old(self),
                *final(self),
                size as int,
            ),
    {
        proof {
            vstd::arithmetic::div_mod::lemma_fundamental_div_mod(
                self.heap_base as int,
                PAGE_SIZE as int,
            );
        }
        if size >= 0 {
            let d = size as usize;
            if d > MAX_VA - self.brk {
                return None;
            }
            let nb = self.brk + d;
            let t0 = (self.brk + PAGE_SIZE - 1) / PAGE_SIZE;
            let t1 = (nb + PAGE_SIZE - 1) / PAGE_SIZE;
            proof {
                vstd::arithmetic::div_mod::lemma_div_is_ordered(
                    self.brk as int + PAGE_SIZE as int - 1,
                    nb as int + PAGE_SIZE as int - 1,
                    PAGE_SIZE as int,
                );
                vstd::arithmetic::div_mod::lemma_div_is_ordered(
                    nb as int + PAGE_SIZE as int - 1,
                    MAX_VA as int + PAGE_SIZE as int - 1,
                    PAGE_SIZE as int,
                );
                assert((MAX_VA as int + PAGE_SIZE as int - 1) / PAGE_SIZE as int
                    == MAX_VPN as int);
            }
            let mut p = t0;
            while p < t1
                invariant
                    t0 <= p <= t1,
                    self.wf(),
                    t0 == old(self).heap_top_vpn(),
                    t1 == brk_page_top(old(self).brk as int + size as int),
                    *self == *old(self),
                    forall|q: int| t0 <= q < p ==> !(#[trigger] self.is_mapped(q)),
                decreases t1 - p,
            {
                match self.translate(p) {
                    Some(_) => {
                        proof {
                            assert(old(self).is_mapped(p as int));
                        }
                        return None;
                    },
                    None => {},
                }
                p += 1;
            }
            let ghost pre = *old(self);
            let old_brk = self.brk;
            let mut q = t0;
            while q < t1
                invariant
                    t0 <= q <= t1,
                    t1 <= MAX_VPN,
                    pre == *old(self),
                    old_brk == pre.brk,
                    nb == pre.brk + size as int,
                    pre.heap_base <= nb <= MAX_VA,
                    t0 == pre.heap_top_vpn(),
                    t1 == brk_page_top(pre.brk as int + size as int),
                    t0 <= t1,
                    old(self).wf(),
                    self.wf(),
                    forall|v: int| t0 <= v < t1 ==> !(#[trigger] pre.is_mapped(v)),
                    forall|v: int|
                        t0 <= v < q ==> #[trigger] self.is_mapped(v) && self.entry(v).perm
                            == PERM_RWU,
                    forall|v: int|
                        !(t0 <= v < q) ==> #[trigger] self.is_mapped(v) == pre.is_mapped(v),
                    forall|v: int|
                        !(t0 <= v < q) && pre.is_mapped(v) ==> #[trigger] self.entry(v)
                            == pre.entry(v),
                    forall|va: int|
                        0 <= va && pre.is_mapped(va / PAGE_SIZE as int) ==> #[trigger] self.byte(
                            va,
                        ) == pre.byte(va),
                    self.regions@ == pre.regions@,
                    self.heap_base == pre.heap_base,
                    self.brk == pre.brk,
                decreases t1 - q,
            {
                let ghost mid = *self;
                self.map_page(q, PERM_R | PERM_W | PERM_U);
                proof {
                    assert forall|va: int|
                        0 <= va && pre.is_mapped(va / PAGE_SIZE as int) implies
                    #[trigger] self.byte(va) == pre.byte(va) by {
                        assert(mid.is_mapped(va / PAGE_SIZE as int));
                        assert(mid.byte(va) == pre.byte(va));
                    }
                }
                q += 1;
            }
            let ghost lend = *self;
            self.brk = nb;
            proof {
                self.lemma_wf_except_heap(lend);
                assert(self.heap_top_vpn() == t1);
                assert(self.wf());
                assert(sbrk_ok(pre, size as int));
                assert(sbrk_post(pre, *self, size as int)) by {
                    assert(self.heap_top_vpn() == t1 && pre.heap_top_vpn() == t0);
                    assert forall|p: int|
                        !between(t0 as int, t1 as int, p) implies #[trigger] self.is_mapped(p)
                        == pre.is_mapped(p) by {
                        assert(self.is_mapped(p) == lend.is_mapped(p));
                        assert(!(t0 <= p < t1));
                    }
                    assert forall|p: int|
                        !between(t0 as int, t1 as int, p) && pre.is_mapped(p) implies
                    #[trigger] self.entry(p) == pre.entry(p) by {
                        assert(lend.is_mapped(p));
                        assert(self.entry(p) == lend.entry(p));
                    }
                    assert forall|p: int|
                        between(t0 as int, t1 as int, p) implies #[trigger] self.is_mapped(p)
                        && self.entry(p).perm == PERM_RWU by {
                        assert(t0 <= p < t1);
                        assert(lend.is_mapped(p) && lend.entry(p).perm == PERM_RWU);
                        assert(self.is_mapped(p) == lend.is_mapped(p));
                        assert(self.entry(p) == lend.entry(p));
                    }
                    assert forall|va: int|
                        0 <= va && pre.is_mapped(va / PAGE_SIZE as int) && self.is_mapped(
                            va / PAGE_SIZE as int,
                        ) implies #[trigger] self.byte(va) == pre.byte(va) by {
                        assert(lend.is_mapped(va / PAGE_SIZE as int));
                        assert(self.byte(va) == lend.byte(va));
                        assert(lend.byte(va) == pre.byte(va));
                    }
                }
            }
            Some(old_brk)
        } else {
            let d = (-(size as i64)) as usize;
            if d > self.brk - self.heap_base {
                return None;
            }
            let nb = self.brk - d;
            let t0 = (self.brk + PAGE_SIZE - 1) / PAGE_SIZE;
            let t1 = (nb + PAGE_SIZE - 1) / PAGE_SIZE;
            let ghost pre = *old(self);
            let old_brk = self.brk;
            self.brk = nb;
            proof {
                self.lemma_wf_except_heap(pre);
                vstd::arithmetic::div_mod::lemma_div_is_ordered(
                    nb as int + PAGE_SIZE as int - 1,
                    pre.brk as int + PAGE_SIZE as int - 1,
                    PAGE_SIZE as int,
                );
                assert(self.wf());
            }
            let mut q = t1;
            while q < t0
                invariant
                    t1 <= q <= t0,
                    pre == *old(self),
                    old_brk == pre.brk,
                    nb == pre.brk as int + size as int,
                    pre.heap_base <= nb,
                    t0 == pre.heap_top_vpn(),
                    t1 == brk_page_top(nb as int),
                    old(self).wf(),
                    self.wf(),
                    forall|v: int|
                        t1 <= v < q ==> #[trigger] self.is_mapped(v) == (pre.is_mapped(v)
                            && covered(pre.regions@, v)),
                    forall|v: int|
                        t1 <= v < q && self.is_mapped(v) ==> #[trigger] self.entry(v)
                            == pre.entry(v),
                    forall|v: int|
                        !(t1 <= v < q) ==> #[trigger] self.is_mapped(v) == pre.is_mapped(v),
                    forall|v: int|
                        !(t1 <= v < q) && pre.is_mapped(v) ==> #[trigger] self.entry(v)
                            == pre.entry(v),
                    self.mem@ == pre.mem@,
                    self.regions@ == pre.regions@,
                    self.heap_base == pre.heap_base,
                    self.brk == nb,
                    self.heap_top_vpn() == t1,
                decreases t0 - q,
            {
                // A page of the released span goes only if the heap still owns
                // it: it is mapped and no region record covers it.
                let mapped_here = match self.translate(q) {
                    Some(_) => true,
                    None => false,
                };
                let covered_here = self.covered_region(q);
                if mapped_here && !covered_here {
                    let ghost mid = *self;
                    self.unmap_page(q);
                    proof {
                        assert forall|v: int|
                            t1 <= v < q + 1 implies #[trigger] self.is_mapped(v) == (
                        pre.is_mapped(v) && covered(pre.regions@, v)) by {
                            if v < q {
                                assert(self.is_mapped(v) == mid.is_mapped(v));
                            }
                        }
                        assert forall|v: int|
                            t1 <= v < q + 1 && self.is_mapped(v) implies #[trigger] self.entry(v)
                            == pre.entry(v) by {
                            assert(mid.is_mapped(v));
                            assert(self.entry(v) == mid.entry(v));
                        }
                        assert forall|v: int|
                            !(t1 <= v < q + 1) implies #[trigger] self.is_mapped(v)
                            == pre.is_mapped(v) by {
                            assert(self.is_mapped(v) == mid.is_mapped(v));
                        }
                        assert forall|v: int|
                            !(t1 <= v < q + 1) && pre.is_mapped(v) implies #[trigger] self.entry(
                            v,
                        ) == pre.entry(v) by {
                            assert(mid.is_mapped(v));
                            assert(self.entry(v) == mid.entry(v));
                        }
                    }
                } else {
                    proof {
                        if covered(pre.regions@, q as int) {
                            let i = choose|i: int|
                                0 <= i < pre.regions@.len() && (#[trigger] pre.regions@[i]).start
                                    <= (q as int) && (q as int) < pre.regions@[i].end;
                            pre.lemma_region_page(i, q as int);
                        }
                    }
                }
                q += 1;
            }
            proof {
                assert(sbrk_ok(pre, size as int));
                assert(sbrk_post(pre, *self, size as int)) by {
                    assert(self.heap_top_vpn() == t1 && pre.heap_top_vpn() == t0);
                    assert forall|va: int|
                        0 <= va && pre.is_mapped(va / PAGE_SIZE as int) && self.is_mapped(
                            va / PAGE_SIZE as int,
                        ) implies #[trigger] self.byte(va) == pre.byte(va) by {
                        let v = va / PAGE_SIZE as int;
                        assert(self.is_mapped(v));
                        assert(self.entry(v) == pre.entry(v));
                    }
                }
            }
            Some(old_brk)
        }
    }

    /// Read the byte that the mapped virtual address `va` translates to.
    pub fn read_byte(&self, va: usize) -> (r: u8)
        requires
            self.wf(),
            self.is_mapped(va as int / PAGE_SIZE as int),
        ensures
            r == self.byte(va as int),
    {
        let e = match self.translate(va / PAGE_SIZE) {
            Some(e) => e,
            None => {
                proof {
                    assert(false);
                }
                PageEntry { vpn: 0, ppn: 0, perm: 0 }
            },
        };
        let _arena_len = self.mem.len();
        proof {
            self.lemma_arena();
            lemma_frame_bound(e.ppn as int, self.frames());
        }
        self.mem[e.ppn * PAGE_SIZE + va % PAGE_SIZE]
    }

    /// Write one byte through the page table at the mapped address `va`.
    pub fn write_byte(&mut self, va: usize, b: u8)
        requires
            old(self).wf(),
            old(self).is_mapped(va as int / PAGE_SIZE as int),
        ensures
            final(self).wf(),
            final(self).table@ == old(self).table@,
            final(self).regions@ == old(self).regions@,
            final(self).heap_base == old(self).heap_base,
            final(self).brk == old(self).brk,
            final(self).mem@.len() == old(self).mem@.len(),
            final(self).byte(va as int) == b,
            forall|va2: int|
                0 <= va2 && va2 != va as int && old(self).is_mapped(va2 / PAGE_SIZE as int)
                    ==> #[trigger] final(self).byte(va2) == old(self).byte(va2),
    {
        let e = match self.translate(va / PAGE_SIZE) {
            Some(e) => e,
            None => {
                proof {
                    assert(false);
                }
                PageEntry { vpn: 0, ppn: 0, perm: 0 }
            },
        };
        let _arena_len = self.mem.len();
        proof {
            self.lemma_arena();
            lemma_frame_bound(e.ppn as int, self.frames());
        }
        let off = va % PAGE_SIZE;
        let idx = e.ppn * PAGE_SIZE + off;
        self.mem[idx] = b;
        proof {
            let pre = *old(self);
            assert(self.table@ == pre.table@);
            self.lemma_same_structure_wf(pre);
            let p = va as int / PAGE_SIZE as int;
            assert(self.entry(p) == pre.entry(p));
            assert(self.byte(va as int) == b) by {
                vstd::arithmetic::div_mod::lemma_fundamental_div_mod(va as int, PAGE_SIZE as int);
            }
            assert forall|va2: int|
                0 <= va2 && va2 != va as int && pre.is_mapped(va2 / PAGE_SIZE as int) implies
            #[trigger] self.byte(va2) == pre.byte(va2) by {
                let p2 = va2 / PAGE_SIZE as int;
                let o2 = va2 % PAGE_SIZE as int;
                let e2 = pre.entry(p2);
                let i2 = pre.entry_index(p2);
                let i1 = pre.entry_index(p);
                lemma_frame_bound(e2.ppn as int, pre.frames());
                pre.lemma_arena();
                let idx2 = e2.ppn as int * PAGE_SIZE as int + o2;
                if idx2 == idx as int {
                    lemma_page_addr(e2.ppn as int, o2);
                    lemma_page_addr(e.ppn as int, off as int);
                    assert(e2.ppn == e.ppn);
                    assert(i1 == i2) by {
                        if i1 != i2 {
                            assert(pre.table@[i1].ppn != pre.table@[i2].ppn);
                        }
                    }
                    assert(p2 == p);
                    assert(o2 == off as int);
                    vstd::arithmetic::div_mod::lemma_fundamental_div_mod(
                        va as int,
                        PAGE_SIZE as int,
                    );
                    vstd::arithmetic::div_mod::lemma_fundamental_div_mod(va2, PAGE_SIZE as int);
                    assert(va2 == va as int);
                    assert(false);
                }
                assert(self.mem@[idx2] == pre.mem@[idx2]);
            }
        }
    }

    /// Install a framed area: allocate a zeroed frame for every page of
    /// `[start, end)`, map them with `perm`, and record the region. The
    /// caller pre-checks, page by page, that nothing in the range is mapped:
    /// there is no rollback, so pre-validation is the correctness boundary.
    pub fn insert_framed_area(&mut self, start: usize, end: usize, perm: u8)
        requires
            old(self).wf(),
            start % PAGE_SIZE == 0,
            start < end <= MAX_VA,
            forall|p: int|
                in_page_range(start as int, end as int - start as int, p) ==> !(#[trigger] old(
                    self,
                ).is_mapped(p)),
        ensures
            final(self).wf(),
            forall|p: int|
                in_page_range(start as int, end as int - start as int, p)
                    ==> #[trigger] final(self).is_mapped(p) && final(self).entry(p).perm == perm,
            forall|p: int|
                !in_page_range(start as int, end as int - start as int, p)
                    ==> #[trigger] final(self).is_mapped(p) == old(self).is_mapped(p),
            forall|p: int|
                !in_page_range(start as int, end as int - start as int, p) && old(self).is_mapped(
                    p,
                ) ==> #[trigger] final(self).entry(p) == old(self).entry(p),
            forall|va: int|
                0 <= va && old(self).is_mapped(va / PAGE_SIZE as int)
                    ==> #[trigger] final(self).byte(va) == old(self).byte(va),
            forall|va: int|
                0 <= va && !old(self).is_mapped(va / PAGE_SIZE as int) && in_page_range(
                    start as int,
                    end as int - start as int,
                    va / PAGE_SIZE as int,
                ) ==> #[trigger] final(self).byte(va) == 0,
            final(self).regions@ == old(self).regions@.push(
                (Region {
                    start: (start as int / PAGE_SIZE as int) as usize,
                    end: (start as int / PAGE_SIZE as int + (end as int - start as int
                        + PAGE_SIZE as int - 1) / PAGE_SIZE as int) as usize,
                    perm,
                }),
            ),
            final(self).heap_base == old(self).heap_base,
            final(self).brk == old(self).brk,
            framed_insert_post(*old(self), *final(self), start, end, perm),
    {
        let len = end - start;
        let s = start / PAGE_SIZE;
        let np = (len + PAGE_SIZE - 1) / PAGE_SIZE;
        proof {
            lemma_page_span(start as int, len as int);
        }
        let mut k: usize = 0;
        while k < np
            invariant
                k <= np,
                s == start as int / PAGE_SIZE as int,
                np == (len + PAGE_SIZE as int - 1) / PAGE_SIZE as int,
                len == end - start,
                start % PAGE_SIZE == 0,
                start < end <= MAX_VA,
                s + np <= MAX_VPN,
                old(self).wf(),
                self.wf(),
                forall|p: int|
                    in_page_range(start as int, len as int, p) ==> !(#[trigger] old(
                        self,
                    ).is_mapped(p)),
                forall|p: int|
                    s <= p < s + k ==> #[trigger] self.is_mapped(p) && self.entry(p).perm == perm,
                forall|p: int|
                    !(s <= p < s + k) ==> #[trigger] self.is_mapped(p) == old(self).is_mapped(p),
                forall|p: int|
                    !(s <= p < s + k) && old(self).is_mapped(p) ==> #[trigger] self.entry(p)
                        == old(self).entry(p),
                forall|va: int|
                    0 <= va && old(self).is_mapped(va / PAGE_SIZE as int) ==> #[trigger] self.byte(
                        va,
                    ) == old(self).byte(va),
                forall|va: int|
                    0 <= va && s <= (va / PAGE_SIZE as int) && (va / PAGE_SIZE as int) < s + k
                        && !old(self).is_mapped(
                        va / PAGE_SIZE as int,
                    ) ==> #[trigger] self.byte(va) == 0,
                self.regions@ == old(self).regions@,
                self.heap_base == old(self).heap_base,
                self.brk == old(self).brk,
            decreases np - k,
        {
            proof {
                assert(in_page_range(start as int, len as int, s + k as int));
            }
            let ghost mid = *self;
            self.map_page(s + k, perm);
            proof {
                assert forall|va: int|
                    0 <= va && old(self).is_mapped(va / PAGE_SIZE as int) implies
                #[trigger] self.byte(va) == old(self).byte(va) by {
                    assert(mid.is_mapped(va / PAGE_SIZE as int));
                    assert(mid.byte(va) == old(self).byte(va));
                }
                assert forall|va: int|
                    0 <= va && s <= (va / PAGE_SIZE as int) && (va / PAGE_SIZE as int) < s + k + 1
                        && !old(self).is_mapped(
                        va / PAGE_SIZE as int,
                    ) implies #[trigger] self.byte(va) == 0 by {
                    let p = va / PAGE_SIZE as int;
                    if p < s + k {
                        assert(mid.is_mapped(p));
                        assert(mid.byte(va) == 0);
                        assert(self.byte(va) == mid.byte(va));
                    } else {
                        assert(p == s + k as int);
                        vstd::arithmetic::div_mod::lemma_fundamental_div_mod(
                            va,
                            PAGE_SIZE as int,
                        );
                        assert(p * PAGE_SIZE as int <= va < p * PAGE_SIZE as int
                            + PAGE_SIZE as int);
                    }
                }
            }
            k += 1;
        }
        let ghost loop_end = *self;
        self.regions.push(Region { start: s, end: s + np, perm });
        proof {
            let pre = *old(self);
            let rg = (Region { start: s, end: (s + np) as usize, perm });
            assert(self.regions@ == pre.regions@.push(rg));
            self.lemma_same_table_mappings(loop_end);
            // The new record is disjoint from every older one: its pages were
            // unmapped, theirs were mapped.
            assert forall|i: int, j: int|
                0 <= i < j < self.regions@.len() implies ((#[trigger] self.regions@[i]).end
                <= (#[trigger] self.regions@[j]).start || self.regions@[j].end
                <= self.regions@[i].start) by {
                if j < pre.regions@.len() {
                    assert(pre.regions_wf());
                } else {
                    let r0 = pre.regions@[i];
                    assert(self.regions@[i] == r0 && self.regions@[j] == rg);
                    if !(r0.end <= rg.start || rg.end <= r0.start) {
                        let q = if r0.start >= rg.start {
                            r0.start as int
                        } else {
                            rg.start as int
                        };
                        assert(r0.start <= q < r0.end && rg.start <= q < rg.end);
                        assert(pre.is_mapped(q));
                        assert(in_page_range(start as int, len as int, q));
                    }
                }
            }
            assert forall|i: int, p: int|
                0 <= i < self.regions@.len() && (#[trigger] self.regions@[i]).start <= p
                    < self.regions@[i].end implies #[trigger] self.is_mapped(p) by {
                if i < pre.regions@.len() {
                    assert(self.regions@[i] == pre.regions@[i]);
                    pre.lemma_region_page(i, p);
                    assert(!(s <= p < s + np)) by {
                        if in_page_range(start as int, len as int, p) {
                            assert(!pre.is_mapped(p));
                        }
                    }
                    assert(loop_end.is_mapped(p));
                } else {
                    assert(s <= p < s + np);
                    assert(loop_end.is_mapped(p));
                }
            }
            assert forall|i: int, p: int|
                0 <= i < self.regions@.len() && (#[trigger] self.regions@[i]).start <= p
                    < self.regions@[i].end implies (#[trigger] self.entry(p)).perm
                == self.regions@[i].perm by {
                if i < pre.regions@.len() {
                    assert(self.regions@[i] == pre.regions@[i]);
                    pre.lemma_region_page(i, p);
                    assert(!(s <= p < s + np)) by {
                        if in_page_range(start as int, len as int, p) {
                            assert(!pre.is_mapped(p));
                        }
                    }
                    assert(loop_end.is_mapped(p) && loop_end.entry(p) == pre.entry(p));
                    assert(self.entry(p) == loop_end.entry(p));
                } else {
                    assert(s <= p < s + np);
                    assert(loop_end.is_mapped(p) && loop_end.entry(p).perm == perm);
                    assert(self.entry(p) == loop_end.entry(p));
                }
            }
        }
    }

    /// Remove the page-table entry of the mapped page `vpn`. The page must
    /// not belong to a region record: callers settle those records first.
    pub fn unmap_page(&mut self, vpn: usize)
        requires
            old(self).wf(),
            old(self).is_mapped(vpn as int),
            !covered(old(self).regions@, vpn as int),
        ensures
            final(self).wf(),
            !final(self).is_mapped(vpn as int),
            forall|v: int|
                v != vpn as int ==> #[trigger] final(self).is_mapped(v) == old(self).is_mapped(v),
            forall|v: int|
                v != vpn as int && old(self).is_mapped(v) ==> #[trigger] final(self).entry(v)
                    == old(self).entry(v),
            forall|va: int|
                0 <= va && va / PAGE_SIZE as int != vpn as int && old(self).is_mapped(
                    va / PAGE_SIZE as int,
                ) ==> #[trigger] final(self).byte(va) == old(self).byte(va),
            final(self).mem@ == old(self).mem@,
            final(self).regions@ == old(self).regions@,
            final(self).heap_base == old(self).heap_base,
            final(self).brk == old(self).brk,
            final(self).frames() == old(self).frames(),
    {
        let i = self.find_vpn(vpn);
        self.table.remove(i);
        proof {
            let pre = *old(self);
            let ii = i as int;
            assert(self.table@ == pre.table@.remove(ii));
            // Index arithmetic of `Seq::remove`: entries keep their identity.
            assert(forall|j: int| 0 <= j < ii ==> self.table@[j] == pre.table@[j]);
            assert(forall|j: int|
                ii <= j < self.table@.len() ==> #[trigger] self.table@[j] == pre.table@[j + 1]);
            assert forall|a: int, b: int| 0 <= a < b < self.table@.len() implies (
            #[trigger] self.table@[a]).vpn != (#[trigger] self.table@[b]).vpn && self.table@[a].ppn
                != self.table@[b].ppn by {
                let a0 = if a < ii { a } else { a + 1 };
                let b0 = if b < ii { b } else { b + 1 };
                assert(pre.table@[a0].vpn != pre.table@[b0].vpn);
                assert(pre.table@[a0].ppn != pre.table@[b0].ppn);
            }
            assert forall|v: int| self.is_mapped(v) implies v != vpn as int && pre.is_mapped(v) by {
                let j = self.entry_index(v);
                let j0 = if j < ii { j } else { j + 1 };
                assert(pre.table@[j0].vpn == v);
                assert(pre.table@[j0].vpn != pre.table@[ii].vpn || j0 == ii);
            }
            assert(!self.is_mapped(vpn as int));
            assert forall|v: int|
                #![trigger self.is_mapped(v)]
                #![trigger self.entry(v)]
                v != vpn as int && pre.is_mapped(v) implies self.is_mapped(v) && self.entry(v)
                == pre.entry(v) by {
                let j = pre.entry_index(v);
                pre.lemma_entry_unique(v, j);
                assert(j != ii);
                let jn = if j < ii { j } else { j - 1 };
                assert(self.table@[jn] == pre.table@[j]);
                self.lemma_entry_unique(v, jn);
            }
            assert forall|k: int, p: int|
                0 <= k < self.regions@.len() && (#[trigger] self.regions@[k]).start <= p
                    < self.regions@[k].end implies #[trigger] self.is_mapped(p) by {
                pre.lemma_region_page(k, p);
                assert(covered(pre.regions@, p));
                assert(p != vpn as int);
            }
            assert forall|k: int, p: int|
                0 <= k < self.regions@.len() && (#[trigger] self.regions@[k]).start <= p
                    < self.regions@[k].end implies (#[trigger] self.entry(p)).perm
                == self.regions@[k].perm by {
                pre.lemma_region_page(k, p);
                assert(covered(pre.regions@, p));
                assert(p != vpn as int);
                assert(self.entry(p) == pre.entry(p));
            }
        }
    }
}

} // verus!
