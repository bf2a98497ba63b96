//! Virtual-memory ranges and mapping: byte ranges rounded to page
//! boundaries, walked frame by frame, and mapped through a directory.

use vstd::prelude::*;

use crate::mmu::{
    dir_index, masked, present, slot_ok, tab_index, translate_spec, Mmu, PAGE_SIZE, SELF_MAP_SLOT,
};
use crate::physical::Phys;

verus! {

/// Protection: the range may be read.
pub const READ: usize = 1;

/// Protection: the range may be written.
pub const WRITE: usize = 2;

/// Protection: the range may be executed.
pub const EXEC: usize = 4;

/// Requested protection of a mapped range.
#[derive(Clone, Copy, Debug, PartialEq, Eq, Structural)]
pub struct Prot(pub usize);

/// The page-entry flag bits a protection asks for: user-visible, and
/// writable where the protection allows writes.
pub open spec fn prot_flags(p: Prot) -> int {
    if p.0 % 4 >= 2 {
        6
    } else {
        4
    }
}

/// The address of the page holding `x`.
pub open spec fn page_floor(x: int) -> int {
    x - (x % (PAGE_SIZE as int))
}

/// The first page address at or above `x`.
pub open spec fn page_ceil(x: int) -> int {
    page_floor(x + PAGE_SIZE - 1)
}

/// Whether every slot the addresses of `[lo, hi)` touch is sound and none
/// falls in the self-map slot.
pub open spec fn dir_ok_range(store: Map<int, Seq<usize>>, dir: int, lo: int, hi: int) -> bool {
    forall|v: int| lo <= v < hi ==> slot_ok(store, dir, v) && dir_index(v) != SELF_MAP_SLOT
}

/// Whether the walk of `v` through the directory at `dir` finds a present
/// entry whose flag bits are exactly `f`.
pub open spec fn page_mapped(store: Map<int, Seq<usize>>, dir: int, v: int, f: int) -> bool {
    translate_spec(store, dir, v) matches Option::Some(e) && e % (PAGE_SIZE as int) == f
}

/// Whether none of the slots the addresses of `[lo, hi)` touch is
/// populated yet.
pub open spec fn range_unmapped(store: Map<int, Seq<usize>>, dir: int, lo: int, hi: int) -> bool {
    forall|v: int| lo <= v < hi ==> !present(store[dir][dir_index(v)] as int)
}

/// Whether `g` names, for every page of `[lo, hi)`, the physical frame
/// the directory at `dir` now maps it to: each entry carries the flag
/// bits `f`, each frame is page-aligned within the pool at `base` and was
/// free in `old_live`, and no two pages share a frame.
pub open spec fn maps_fresh_frames(
    store: Map<int, Seq<usize>>,
    dir: int,
    lo: int,
    hi: int,
    f: int,
    base: int,
    old_live: Map<int, int>,
    g: Map<int, int>,
) -> bool {
    &&& forall|v: int|
        lo <= v < hi && v % (PAGE_SIZE as int) == 0 ==> #[trigger] g.dom().contains(v)
            && translate_spec(store, dir, v) == Option::Some(g[v] + f) && (g[v] - base) % (
        PAGE_SIZE as int) == 0 && !old_live.dom().contains((g[v] - base) / (PAGE_SIZE as int))
    &&& forall|v1: int, v2: int|
        #![trigger g[v1], g[v2]]
        lo <= v1 < hi && v1 % (PAGE_SIZE as int) == 0 && lo <= v2 < hi && v2 % (
        PAGE_SIZE as int) == 0 && v1 != v2 ==> g[v1] != g[v2]
}

/// Whether every frame `g` records for the pages of `[lo, hi)` is still
/// granted in `live`.
pub open spec fn frames_still_live(
    live: Map<int, int>,
    base: int,
    lo: int,
    hi: int,
    g: Map<int, int>,
) -> bool {
    forall|w: int|
        lo <= w < hi && w % (PAGE_SIZE as int) == 0 ==> #[trigger] g.dom().contains(w)
            && live.dom().contains((g[w] - base) / (PAGE_SIZE as int))
}

/// Below 4 GiB the directory index is plain division, within bounds.
proof fn lemma_dir_index_low(v: int)
    requires
        0 <= v < 0x1_0000_0000,
    ensures
        dir_index(v) == v / 0x400_000,
        0 <= dir_index(v) < 1024,
{
    vstd::arithmetic::div_mod::lemma_fundamental_div_mod(v, 0x400_000);
    vstd::arithmetic::div_mod::lemma_mod_bound(v, 0x400_000);
    assert(0 <= v / 0x400_000 < 1024) by (nonlinear_arith)
        requires
            v == 0x400_000 * (v / 0x400_000) + v % 0x400_000,
            0 <= v % 0x400_000 < 0x400_000,
            0 <= v < 0x1_0000_0000,
    ;
    vstd::arithmetic::div_mod::lemma_small_mod((v / 0x400_000) as nat, 1024);
}

/// A page-aligned address below 4 GiB is determined by its two indices.
proof fn lemma_page_coords(v: int)
    requires
        0 <= v < 0x1_0000_0000,
        v % (PAGE_SIZE as int) == 0,
    ensures
        v == 0x1000 * (1024 * dir_index(v) + tab_index(v)),
{
    lemma_dir_index_low(v);
    let q = v / 0x1000;
    vstd::arithmetic::div_mod::lemma_fundamental_div_mod(v, 0x1000);
    vstd::arithmetic::div_mod::lemma_fundamental_div_mod(q, 1024);
    vstd::arithmetic::div_mod::lemma_mod_bound(q, 1024);
    assert(tab_index(v) == q % 1024);
    assert(dir_index(v) == q / 1024) by {
        assert(v / 0x400_000 == (v / 0x1000) / 1024) by {
            vstd::arithmetic::div_mod::lemma_div_denominator(v, 0x1000, 1024);
        }
    }
}

/// Recording one more page keeps the frame assignment accurate: the
/// prefix pages still walk to their recorded frames, every recorded frame
/// stays granted, and the new frame — fresh against the pool — collides
/// with none of them.
proof fn lemma_assign_step(
    st0: Map<int, Seq<usize>>,
    st1: Map<int, Seq<usize>>,
    dir: int,
    v: int,
    start: int,
    flags: int,
    fa2: int,
    base0: int,
    live0: Map<int, int>,
    pre_live: Map<int, int>,
    cur_live: Map<int, int>,
    prev: Map<int, int>,
)
    requires
        start <= v,
        v % (PAGE_SIZE as int) == 0,
        maps_fresh_frames(st0, dir, start, v, flags, base0, live0, prev),
        frames_still_live(pre_live, base0, start, v, prev),
        forall|w: int|
            start <= w < v && w % (PAGE_SIZE as int) == 0 ==> #[trigger] translate_spec(
                st1,
                dir,
                w,
            ) == translate_spec(st0, dir, w),
        translate_spec(st1, dir, v) == Option::Some(fa2 + flags),
        (fa2 - base0) % (PAGE_SIZE as int) == 0,
        !pre_live.dom().contains((fa2 - base0) / (PAGE_SIZE as int)),
        forall|k: int| #[trigger] live0.dom().contains(k) ==> pre_live.dom().contains(k),
        forall|k: int| #[trigger] pre_live.dom().contains(k) ==> cur_live.dom().contains(k),
        cur_live.dom().contains((fa2 - base0) / (PAGE_SIZE as int)),
    ensures
        maps_fresh_frames(st1, dir, start, v + PAGE_SIZE, flags, base0, live0, prev.insert(v, fa2)),
        frames_still_live(cur_live, base0, start, v + PAGE_SIZE, prev.insert(v, fa2)),
{
    let g = prev.insert(v, fa2);
    assert forall|w: int|
        start <= w < v + PAGE_SIZE && #[trigger] (w % (PAGE_SIZE as int)) == 0 && w
            != v implies w < v by {
        if w > v {
            vstd::arithmetic::div_mod::lemma_sub_mod_noop(w, v, PAGE_SIZE as int);
            vstd::arithmetic::div_mod::lemma_fundamental_div_mod(w - v, PAGE_SIZE as int);
            assert(w - v >= PAGE_SIZE) by (nonlinear_arith)
                requires
                    w - v == (PAGE_SIZE as int) * ((w - v) / (PAGE_SIZE as int)),
                    w - v > 0,
            ;
        }
    }
    assert forall|w: int|
        start <= w < v + PAGE_SIZE && w % (PAGE_SIZE as int) == 0 implies #[trigger] g.dom().contains(
        w,
    ) && translate_spec(st1, dir, w) == Option::Some(g[w] + flags) && (g[w] - base0) % (
    PAGE_SIZE as int) == 0 && !live0.dom().contains((g[w] - base0) / (PAGE_SIZE as int))
        && cur_live.dom().contains((g[w] - base0) / (PAGE_SIZE as int)) by {
        if w == v {
            assert(!live0.dom().contains((fa2 - base0) / (PAGE_SIZE as int)));
        } else {
            assert(prev.dom().contains(w));
            assert(pre_live.dom().contains((prev[w] - base0) / (PAGE_SIZE as int)));
        }
    }
    assert forall|w1: int, w2: int|
        #![trigger g[w1], g[w2]]
        start <= w1 < v + PAGE_SIZE && w1 % (PAGE_SIZE as int) == 0 && start <= w2 < v
            + PAGE_SIZE && w2 % (PAGE_SIZE as int) == 0 && w1 != w2 implies g[w1] != g[w2] by {
        if w1 == v || w2 == v {
            let other = if w1 == v {
                w2
            } else {
                w1
            };
            assert(prev.dom().contains(other));
            assert(pre_live.dom().contains((prev[other] - base0) / (PAGE_SIZE as int)));
            if g[other] == fa2 {
                assert((prev[other] - base0) / (PAGE_SIZE as int) == (fa2 - base0) / (
                PAGE_SIZE as int));
                assert(false);
            }
        }
    }
}

/// One mapping step keeps every page of the prefix walking to its entry,
/// keeps the populated slots sound and pairwise distinct, and leaves the
/// slots past the new page untouched.
#[verifier::rlimit(100)]
proof fn lemma_mmap_step(
    st0: Map<int, Seq<usize>>,
    st1: Map<int, Seq<usize>>,
    dir: int,
    v: int,
    t: int,
    fa: int,
    flags: int,
    start: int,
    end: int,
)
    requires
        0 <= start <= v,
        v + 0x1000 <= end <= 0x1_0000_0000,
        start % 0x1000 == 0,
        v % 0x1000 == 0,
        0 < flags < 0x1000,
        flags % 2 == 1,
        0 <= fa,
        0 <= t,
        t + flags <= usize::MAX,
        fa % 0x1000 == 0,
        st0.dom().contains(dir),
        forall|k: int| #[trigger] st0.dom().contains(k) ==> st0[k].len() == 1024,
        forall|w: int|
            start <= w < v && w % 0x1000 == 0 ==> #[trigger] page_mapped(st0, dir, w, flags),
        forall|w: int|
            start <= w < v && w % 0x1000 == 0 ==> ({
                let e = st0[dir][#[trigger] dir_index(w)] as int;
                present(e) && st0.dom().contains(masked(e)) && masked(e) != dir
            }),
        forall|w1: int, w2: int|
            start <= w1 < v && w1 % 0x1000 == 0 && start <= w2 < v && w2 % 0x1000 == 0
                && #[trigger] dir_index(w1) != #[trigger] dir_index(w2) ==> masked(
                st0[dir][dir_index(w1)] as int,
            ) != masked(st0[dir][dir_index(w2)] as int),
        forall|w: int|
            v <= w < end ==> (present(st0[dir][#[trigger] dir_index(w)] as int) ==> (v > start
                && dir_index(w) == dir_index(v - 0x1000))),
        translate_spec(st1, dir, v) == Option::Some(fa + flags),
        ({
            let de = st0[dir][dir_index(v)] as int;
            &&& (present(de) ==> t == masked(de) && st1 == st0.insert(
                t,
                st0[t].update(tab_index(v), (fa + flags) as usize),
            ))
            &&& (!present(de) ==> !st0.dom().contains(t) && t != dir && t % 0x1000 == 0 && st1
                == st0.insert(
                t,
                crate::mmu::zero_entries().update(tab_index(v), (fa + flags) as usize),
            ).insert(dir, st0[dir].update(dir_index(v), (t + flags) as usize)))
        }),
    ensures
        forall|w: int|
            start <= w < v + 0x1000 && w % 0x1000 == 0 ==> #[trigger] page_mapped(
                st1,
                dir,
                w,
                flags,
            ),
        forall|w: int|
            start <= w < v && w % 0x1000 == 0 ==> #[trigger] translate_spec(st1, dir, w)
                == translate_spec(st0, dir, w),
        forall|w: int|
            start <= w < v + 0x1000 && w % 0x1000 == 0 ==> ({
                let e = st1[dir][#[trigger] dir_index(w)] as int;
                present(e) && st1.dom().contains(masked(e)) && masked(e) != dir
            }),
        forall|w1: int, w2: int|
            start <= w1 < v + 0x1000 && w1 % 0x1000 == 0 && start <= w2 < v + 0x1000 && w2
                % 0x1000 == 0 && #[trigger] dir_index(w1) != #[trigger] dir_index(w2) ==> masked(
                st1[dir][dir_index(w1)] as int,
            ) != masked(st1[dir][dir_index(w2)] as int),
        forall|w: int|
            v + 0x1000 <= w < end ==> (present(st1[dir][#[trigger] dir_index(w)] as int) ==> (
            dir_index(w) == dir_index(v))),
{
    let di = dir_index(v);
    let de = st0[dir][di] as int;
    let pe = (fa + flags) as usize;
    crate::mmu::lemma_entry_fields(fa, flags);
    lemma_dir_index_low(v);
    assert forall|w1: int, w2: int| 0 <= w1 <= w2 < 0x1_0000_0000 implies #[trigger] dir_index(
        w1,
    ) <= #[trigger] dir_index(w2) by {
        lemma_dir_index_low(w1);
        lemma_dir_index_low(w2);
        vstd::arithmetic::div_mod::lemma_div_is_ordered(w1, w2, 0x400_000);
    }
    if !present(de) {
        crate::mmu::lemma_entry_fields(t, flags);
        assert forall|w: int| start <= w < v && w % 0x1000 == 0 implies #[trigger] dir_index(w)
            != di by {
            assert(present(st0[dir][dir_index(w)] as int));
        }
        assert forall|w: int|
            start <= w < v && w % 0x1000 == 0 implies #[trigger] page_mapped(st1, dir, w, flags)
            && ({
            let e = st1[dir][dir_index(w)] as int;
            present(e) && st1.dom().contains(masked(e)) && masked(e) != dir
        }) && translate_spec(st1, dir, w) == translate_spec(st0, dir, w) by {
            assert(page_mapped(st0, dir, w, flags));
            lemma_dir_index_low(w);
            let e = st0[dir][dir_index(w)] as int;
            assert(st1[dir][dir_index(w)] == st0[dir][dir_index(w)]);
            assert(masked(e) != t);
            assert(st1[masked(e)] == st0[masked(e)]);
        }
        assert(st1[dir][di] == (t + flags) as usize);
        assert(present(st1[dir][di] as int) && st1.dom().contains(
            masked(st1[dir][di] as int),
        ) && masked(st1[dir][di] as int) != dir);
    } else {
        assert(v > start && di == dir_index(v - 0x1000));
        assert(st0.dom().contains(t) && t != dir) by {
            assert(v - 0x1000 < v);
        }
        assert(st1[dir] == st0[dir]);
        assert forall|w: int|
            start <= w < v && w % 0x1000 == 0 implies #[trigger] page_mapped(
            st1,
            dir,
            w,
            flags,
        ) && translate_spec(st1, dir, w) == translate_spec(st0, dir, w) by {
            assert(page_mapped(st0, dir, w, flags));
            lemma_dir_index_low(w);
            let e = st0[dir][dir_index(w)] as int;
            if dir_index(w) != di {
                assert(masked(e) != masked(de)) by {
                    assert(dir_index(v - 0x1000) == di);
                }
                assert(st1[masked(e)] == st0[masked(e)]);
            } else {
                assert(masked(e) == t);
                lemma_page_coords(w);
                lemma_page_coords(v);
                assert(tab_index(w) != tab_index(v));
                assert(st1[t][tab_index(w)] == st0[t][tab_index(w)]);
            }
        }
        assert(present(st1[dir][di] as int) && st1.dom().contains(
            masked(st1[dir][di] as int),
        ) && masked(st1[dir][di] as int) != dir);
    }
    assert(page_mapped(st1, dir, v, flags));
    // aligned pages between `v` and the next page boundary collapse to `v`
    assert forall|w: int| v < w < v + 0x1000 implies #[trigger] (w % 0x1000) != 0 by {
        vstd::arithmetic::div_mod::lemma_sub_mod_noop(w, v, 0x1000);
        vstd::arithmetic::div_mod::lemma_fundamental_div_mod(w - v, 0x1000);
        if w % 0x1000 == 0 {
            assert(w - v >= 0x1000) by (nonlinear_arith)
                requires
                    w - v == 0x1000 * ((w - v) / 0x1000),
                    w - v > 0,
            ;
        }
    }
    assert forall|w: int|
        v + 0x1000 <= w < end implies (present(st1[dir][#[trigger] dir_index(w)] as int) ==> (
    dir_index(w) == dir_index(v))) by {
        lemma_dir_index_low(w);
        if present(st1[dir][dir_index(w)] as int) {
            if !present(de) && dir_index(w) != di {
                assert(st1[dir][dir_index(w)] == st0[dir][dir_index(w)]);
                assert(v > start && dir_index(w) == dir_index(v - 0x1000));
                assert(dir_index(v - 0x1000) <= dir_index(v) <= dir_index(w));
            }
            if present(de) {
                assert(st1[dir][dir_index(w)] == st0[dir][dir_index(w)]);
                assert(v > start && dir_index(w) == dir_index(v - 0x1000));
                assert(dir_index(v - 0x1000) <= dir_index(v) <= dir_index(w));
            }
        }
    }
}

/// A byte range of virtual addresses.
#[derive(Clone, Copy, Debug, PartialEq, Eq, Structural)]
pub struct VirtRange {
    pub vaddr: usize,
    pub len: usize,
}

/// The page addresses still to visit: a cursor over `[ptr, end)`, both
/// page-aligned.
pub struct Frames {
    ptr: usize,
    end: usize,
}

impl Frames {
    /// The next page address to hand out.
    pub closed spec fn ptr_spec(&self) -> int {
        self.ptr as int
    }

    /// One past the last page address.
    pub closed spec fn end_spec(&self) -> int {
        self.end as int
    }

    /// Both bounds page-aligned and in order.
    pub open spec fn wf(&self) -> bool {
        &&& self.ptr_spec() % (PAGE_SIZE as int) == 0
        &&& self.end_spec() % (PAGE_SIZE as int) == 0
        &&& self.ptr_spec() <= self.end_spec()
    }

    /// Hands out the next page address, page by page until the end.
    pub fn next(&mut self) -> (r: Option<usize>)
        requires
            old(self).wf(),
        ensures
            final(self).wf(),
            final(self).end_spec() == old(self).end_spec(),
            old(self).ptr_spec() == old(self).end_spec() ==> r is None && *final(self) == *old(
                self,
            ),
            old(self).ptr_spec() < old(self).end_spec() ==> r == Option::Some(
                old(self).ptr_spec() as usize,
            ) && final(self).ptr_spec() == old(self).ptr_spec() + PAGE_SIZE,
    {
        if self.ptr == self.end {
            None
        } else {
            let cur = self.ptr;
            proof {
                let d = self.end_spec() - self.ptr_spec();
                vstd::arithmetic::div_mod::lemma_sub_mod_noop(
                    self.end_spec(),
                    self.ptr_spec(),
                    PAGE_SIZE as int,
                );
                vstd::arithmetic::div_mod::lemma_fundamental_div_mod(d, PAGE_SIZE as int);
                assert(d >= PAGE_SIZE) by (nonlinear_arith)
                    requires
                        d == (PAGE_SIZE as int) * (d / (PAGE_SIZE as int)),
                        d > 0,
                ;
                vstd::arithmetic::div_mod::lemma_add_mod_noop(
                    self.ptr_spec(),
                    PAGE_SIZE as int,
                    PAGE_SIZE as int,
                );
            }
            self.ptr = self.ptr + PAGE_SIZE;
            Some(cur)
        }
    }
}

impl VirtRange {
    /// The byte range from `ptr` of `len` bytes.
    pub fn new(ptr: usize, len: usize) -> (r: VirtRange)
        ensures
            r.vaddr == ptr,
            r.len == len,
    {
        VirtRange { vaddr: ptr, len }
    }

    /// The page addresses the range touches, from the page holding its
    /// first byte up to the page past its last.
    pub fn iter(&self) -> (r: Frames)
        requires
            self.vaddr + self.len + PAGE_SIZE - 1 <= usize::MAX,
        ensures
            r.wf(),
            r.ptr_spec() == page_floor(self.vaddr as int),
            r.end_spec() == page_ceil(self.vaddr + self.len),
    {
        let lo = self.vaddr / PAGE_SIZE * PAGE_SIZE;
        let hi = (self.vaddr + self.len + (PAGE_SIZE - 1)) / PAGE_SIZE * PAGE_SIZE;
        proof {
            let p = PAGE_SIZE as int;
            vstd::arithmetic::div_mod::lemma_fundamental_div_mod(self.vaddr as int, p);
            vstd::arithmetic::div_mod::lemma_fundamental_div_mod(
                self.vaddr + self.len + p - 1,
                p,
            );
            vstd::arithmetic::div_mod::lemma_mod_multiples_basic(
                self.vaddr as int / p,
                p,
            );
            vstd::arithmetic::div_mod::lemma_mod_multiples_basic(
                (self.vaddr + self.len + p - 1) / p,
                p,
            );
            assert((self.vaddr as int / p) * p == p * (self.vaddr as int / p)) by (nonlinear_arith);
            assert((((self.vaddr + self.len + p - 1) as int) / p) * p == p * (((self.vaddr
                + self.len + p - 1) as int) / p)) by (nonlinear_arith);
            vstd::arithmetic::div_mod::lemma_mod_bound(self.vaddr as int, p);
            vstd::arithmetic::div_mod::lemma_mod_bound(self.vaddr + self.len + p - 1, p);
            assert(lo <= hi) by {
                vstd::arithmetic::div_mod::lemma_div_is_ordered(
                    self.vaddr as int,
                    self.vaddr + self.len + p - 1,
                    p,
                );
                assert((self.vaddr as int / p) * p <= (((self.vaddr + self.len + p - 1) as int)
                    / p) * p) by (nonlinear_arith)
                    requires
                        self.vaddr as int / p <= ((self.vaddr + self.len + p - 1) as int) / p,
                        p > 0,
                ;
            }
        }
        Frames { ptr: lo, end: hi }
    }

    /// Maps the range through the directory at `dir`: for each touched
    /// page a fresh physical frame is allocated and installed with the
    /// protection's flags.  `None` reports physical-memory exhaustion
    /// midway — the kernel's fatal path.  On success the range itself
    /// comes back, and where the touched slots started empty and the
    /// range sits below 4 GiB, every touched page now walks to a present
    /// entry carrying exactly the requested flags.
    #[verifier::rlimit(100)]
    pub fn mmap(&self, mmu: &mut Mmu, dir: usize, prot: Prot) -> (r: Option<VirtRange>)
        requires
            old(mmu).wf(),
            old(mmu).store_spec().dom().contains(dir as int),
            self.vaddr + self.len + PAGE_SIZE - 1 <= usize::MAX,
            old(mmu).frames_spec().allocations_spec() + (page_ceil(self.vaddr + self.len)
                - page_floor(self.vaddr as int)) / (PAGE_SIZE as int) * 2 < usize::MAX - 2,
            dir_ok_range(
                old(mmu).store_spec(),
                dir as int,
                page_floor(self.vaddr as int),
                page_ceil(self.vaddr + self.len),
            ),
        ensures
            final(mmu).wf(),
            final(mmu).store_spec().dom().contains(dir as int),
            final(mmu).active_spec() == old(mmu).active_spec(),
            final(mmu).paging_spec() == old(mmu).paging_spec(),
            r matches Some(range) ==> range == *self,
            r is None ==> !crate::physical::avail_for(final(mmu).frames_spec(), 1),
            (r is Some && range_unmapped(
                old(mmu).store_spec(),
                dir as int,
                page_floor(self.vaddr as int),
                page_ceil(self.vaddr + self.len),
            ) && page_ceil(self.vaddr + self.len) <= 0x1_0000_0000) ==> forall|v: int|
                page_floor(self.vaddr as int) <= v < page_ceil(self.vaddr + self.len) && v % (
                PAGE_SIZE as int) == 0 ==> #[trigger] page_mapped(
                    final(mmu).store_spec(),
                    dir as int,
                    v,
                    prot_flags(prot) + 1,
                ),
            (r is Some && range_unmapped(
                old(mmu).store_spec(),
                dir as int,
                page_floor(self.vaddr as int),
                page_ceil(self.vaddr + self.len),
            ) && page_ceil(self.vaddr + self.len) <= 0x1_0000_0000) ==> exists|g: Map<int, int>|
                #[trigger] maps_fresh_frames(
                    final(mmu).store_spec(),
                    dir as int,
                    page_floor(self.vaddr as int),
                    page_ceil(self.vaddr + self.len),
                    prot_flags(prot) + 1,
                    old(mmu).frames_spec().base_spec(),
                    old(mmu).frames_spec().live(),
                    g,
                ),
    {
        let flags: usize = if prot.0 & WRITE != 0 {
            7
        } else {
            5
        };
        proof {
            let pr = prot.0;
            assert((pr & 2 != 0) == (pr % 4 >= 2)) by (bit_vector);
        }
        let mut it = self.iter();
        let ghost start = page_floor(self.vaddr as int);
        let ghost end = page_ceil(self.vaddr + self.len);
        let ghost strong = range_unmapped(old(mmu).store_spec(), dir as int, start, end) && end
            <= 0x1_0000_0000;
        let ghost base0 = old(mmu).frames_spec().base_spec();
        let ghost live0 = old(mmu).frames_spec().live();
        let ghost mut assigned: Map<int, int> = Map::empty();
        loop
            invariant
                it.wf(),
                it.end_spec() == end,
                start <= it.ptr_spec() <= end,
                start % (PAGE_SIZE as int) == 0,
                start == page_floor(self.vaddr as int),
                end == page_ceil(self.vaddr + self.len),
                strong == (range_unmapped(old(mmu).store_spec(), dir as int, start, end) && end
                    <= 0x1_0000_0000),
                mmu.wf(),
                mmu.store_spec().dom().contains(dir as int),
                mmu.active_spec() == old(mmu).active_spec(),
                mmu.paging_spec() == old(mmu).paging_spec(),
                flags == prot_flags(prot) + 1,
                flags < 0x1000 && flags % 2 == 1,
                mmu.frames_spec().allocations_spec() + (end - it.ptr_spec()) / (
                PAGE_SIZE as int) * 2 < usize::MAX - 2,
                0 <= start,
                dir_ok_range(mmu.store_spec(), dir as int, it.ptr_spec(), end),
                strong ==> forall|v: int|
                    start <= v < it.ptr_spec() && v % (PAGE_SIZE as int) == 0
                        ==> #[trigger] page_mapped(mmu.store_spec(), dir as int, v, flags as int),
                strong ==> forall|v: int|
                    start <= v < it.ptr_spec() && v % (PAGE_SIZE as int) == 0 ==> ({
                        let e = mmu.store_spec()[dir as int][#[trigger] dir_index(v)] as int;
                        present(e) && mmu.store_spec().dom().contains(masked(e)) && masked(e)
                            != dir as int
                    }),
                strong ==> forall|v1: int, v2: int|
                    start <= v1 < it.ptr_spec() && v1 % (PAGE_SIZE as int) == 0 && start <= v2
                        < it.ptr_spec() && v2 % (PAGE_SIZE as int) == 0 && #[trigger] dir_index(v1)
                        != #[trigger] dir_index(v2) ==> masked(
                        mmu.store_spec()[dir as int][dir_index(v1)] as int,
                    ) != masked(mmu.store_spec()[dir as int][dir_index(v2)] as int),
                strong ==> forall|v: int|
                    it.ptr_spec() <= v < end ==> (present(
                        mmu.store_spec()[dir as int][#[trigger] dir_index(v)] as int,
                    ) ==> (it.ptr_spec() > start && dir_index(v) == dir_index(
                        it.ptr_spec() - PAGE_SIZE,
                    ))),
                base0 == old(mmu).frames_spec().base_spec(),
                live0 == old(mmu).frames_spec().live(),
                mmu.frames_spec().base_spec() == base0,
                forall|k: int| #[trigger]
                    live0.dom().contains(k) ==> mmu.frames_spec().live().dom().contains(k),
                strong ==> maps_fresh_frames(
                    mmu.store_spec(),
                    dir as int,
                    start,
                    it.ptr_spec(),
                    flags as int,
                    base0,
                    live0,
                    assigned,
                ),
                strong ==> frames_still_live(
                    mmu.frames_spec().live(),
                    base0,
                    start,
                    it.ptr_spec(),
                    assigned,
                ),
            decreases end - it.ptr_spec(),
        {
            let ghost pre = *mmu;
            let ghost p0 = it.ptr_spec();
            let v = match it.next() {
                None => {
                    proof {
                        if strong {
                            assert(it.ptr_spec() == end);
                            assert forall|w: int|
                                start <= w < end && w % (PAGE_SIZE as int) == 0 implies
                                #[trigger] page_mapped(
                                mmu.store_spec(),
                                dir as int,
                                w,
                                prot_flags(prot) + 1,
                            ) by {
                                assert(page_mapped(mmu.store_spec(), dir as int, w, flags as int));
                            }
                            assert(maps_fresh_frames(
                                mmu.store_spec(),
                                dir as int,
                                start,
                                end,
                                prot_flags(prot) + 1,
                                base0,
                                live0,
                                assigned,
                            ));
                        }
                    }
                    return Some(*self);
                },
                Some(v) => v,
            };
            proof {
                let p = PAGE_SIZE as int;
                vstd::arithmetic::div_mod::lemma_sub_mod_noop(end, p0, p);
                vstd::arithmetic::div_mod::lemma_sub_mod_noop(end, p0 + p, p);
                vstd::arithmetic::div_mod::lemma_fundamental_div_mod(end - p0, p);
                vstd::arithmetic::div_mod::lemma_fundamental_div_mod(end - p0 - p, p);
                assert((end - p0) / p == (end - p0 - p) / p + 1) by (nonlinear_arith)
                    requires
                        end - p0 == p * ((end - p0) / p),
                        end - p0 - p == p * ((end - p0 - p) / p),
                        p > 0,
                ;
            }
            let frame = match mmu.alloc_frames(1) {
                None => {
                    return None;
                },
                Some(f) => f,
            };
            proof {
                assert(crate::allocator::request_level(1nat) == 0);
            }
            proof {
                vstd::arithmetic::div_mod::lemma_mod_adds(
                    pre.frames_spec().base_spec(),
                    frame.addr_spec() - pre.frames_spec().base_spec(),
                    0x1000,
                );
                assert(frame.addr_spec() % 0x1000 == 0);
            }
            let ghost mid = *mmu;
            let got = mmu.set_page(dir, v, frame, flags);
            if got.is_none() {
                proof {
                    assert(!crate::physical::avail_for(mmu.frames_spec(), 1));
                }
                return None;
            }
            proof {
                assert forall|k: int| #[trigger]
                    live0.dom().contains(k) implies mmu.frames_spec().live().dom().contains(
                    k,
                ) by {
                    assert(pre.frames_spec().live().dom().contains(k));
                    assert(mid.frames_spec().live().dom().contains(k));
                }
            }
            proof {
                if strong {
                    let st0 = mid.store_spec();
                    let st1 = mmu.store_spec();
                    let t = got->0 as int;
                    assert(st0 == pre.store_spec());
                    assert(v as int % (PAGE_SIZE as int) == 0 && start <= v < end);
                    assert(v + PAGE_SIZE <= end);
                    assert(t + flags <= usize::MAX) by {
                        let fr = mmu.frames_spec();
                        assert(mmu.store_spec().dom().contains(t));
                        assert(crate::mmu::owns(fr, t));
                        let cap = fr.base_spec() + fr.frames() * 0x1000;
                        assert(fr.frames() * 0x1000 == fr.pool_spec().capacity_bytes()) by {
                            vstd::arithmetic::power2::lemma2_to64();
                        }
                        assert(cap <= usize::MAX);
                        assert(cap % 0x1000 == 0) by {
                            vstd::arithmetic::div_mod::lemma_mod_multiples_basic(
                                fr.frames(),
                                0x1000,
                            );
                            vstd::arithmetic::div_mod::lemma_mod_adds(
                                fr.base_spec(),
                                fr.frames() * 0x1000,
                                0x1000,
                            );
                        }
                        assert(t + 0x1000 <= cap) by {
                            vstd::arithmetic::div_mod::lemma_sub_mod_noop(cap, t, 0x1000);
                            vstd::arithmetic::div_mod::lemma_fundamental_div_mod(cap - t, 0x1000);
                            assert(cap - t >= 0x1000) by (nonlinear_arith)
                                requires
                                    cap - t == 0x1000 * ((cap - t) / 0x1000),
                                    cap - t > 0,
                            ;
                        }
                    }
                    lemma_mmap_step(
                        st0,
                        st1,
                        dir as int,
                        v as int,
                        t,
                        frame.addr_spec(),
                        flags as int,
                        start,
                        end,
                    );
                    // record the fresh frame behind the new page
                    let prev = assigned;
                    assigned = assigned.insert(v as int, frame.addr_spec());
                    let fa2 = frame.addr_spec();
                    let pre_live = pre.frames_spec().live();
                    let cur_live = mmu.frames_spec().live();
                    assert((fa2 - base0) % (PAGE_SIZE as int) == 0);
                    assert(!pre_live.dom().contains((fa2 - base0) / (PAGE_SIZE as int)));
                    assert(maps_fresh_frames(st0, dir as int, start, v as int, flags as int, base0, live0, prev));
                    assert(mid.frames_spec().live().dom().contains(
                        pre.frames_spec().unit_of(fa2),
                    ));
                    assert(pre.frames_spec().unit_of(fa2) == (fa2 - base0) / (PAGE_SIZE as int));
                    assert forall|k: int| #[trigger]
                        pre_live.dom().contains(k) implies cur_live.dom().contains(k) by {
                        assert(mid.frames_spec().live().dom().contains(k));
                    }
                    assert(cur_live.dom().contains((fa2 - base0) / (PAGE_SIZE as int)));
                    lemma_assign_step(
                        st0,
                        st1,
                        dir as int,
                        v as int,
                        start,
                        flags as int,
                        fa2,
                        base0,
                        live0,
                        pre_live,
                        cur_live,
                        prev,
                    );
                    assert(assigned == prev.insert(v as int, fa2));
                    assert(v + PAGE_SIZE == it.ptr_spec());
                    assert(maps_fresh_frames(
                        mmu.store_spec(),
                        dir as int,
                        start,
                        it.ptr_spec(),
                        flags as int,
                        base0,
                        live0,
                        assigned,
                    ));
                    assert(frames_still_live(
                        mmu.frames_spec().live(),
                        base0,
                        start,
                        it.ptr_spec(),
                        assigned,
                    ));
                }
            }
        }
    }
}


} // verus!
