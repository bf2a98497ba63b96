//! The two-level page-table layer: page entries, single-level tables, the
//! store of table frames in physical memory, and the manager that walks,
//! maps and clones page directories.

use vstd::arithmetic::power2::pow2;
use vstd::prelude::*;

use crate::mem::Memory;
use crate::physical::{FrameAllocator, Phys};

verus! {

/// Entries per table or directory.
pub const ENTRIES: usize = 1024;

/// Bytes covered by one page.
pub const PAGE_SIZE: usize = 0x1000;

/// Bytes covered by one directory slot: `ENTRIES * PAGE_SIZE`.
pub const SLOT_SPAN: usize = 0x400_000;

/// Flag bit: the entry maps something.
pub const PRESENT: usize = 1;

/// Flag bit: the mapping is writable.
pub const RW: usize = 2;

/// Flag bit: user code may touch the mapping.
pub const USER: usize = 4;

/// Flag bit: the processor has used the mapping.
pub const ACCESSED: usize = 32;

/// Flag bit: the entry maps a large page directly.
pub const HUGE: usize = 128;

/// The directory slot that maps the directory into itself, so that all
/// tables stay reachable at fixed high virtual addresses.
pub const SELF_MAP_SLOT: usize = 1023;

/// The first directory slot of the shared kernel region: slots from here
/// up (save the self-map slot) are copied by reference when an address
/// space is cloned.
pub const KERNEL_SLOT: usize = 768;

/// The directory slot holding virtual address `v`.
pub open spec fn dir_index(v: int) -> int {
    (v / (SLOT_SPAN as int)) % (ENTRIES as int)
}

/// The table slot holding virtual address `v`.
pub open spec fn tab_index(v: int) -> int {
    (v / (PAGE_SIZE as int)) % (ENTRIES as int)
}

/// The entry's address part: the low flag bits masked off.
pub open spec fn masked(e: int) -> int {
    e - (e % (PAGE_SIZE as int))
}

/// The entry's flag part: the low bits alone.
pub open spec fn flags_of(e: int) -> int {
    e % (PAGE_SIZE as int)
}

/// Whether the entry maps something.
pub open spec fn present(e: int) -> bool {
    e % 2 == 1
}

/// A single page-table or page-directory entry: a machine word holding a
/// page-aligned physical address and flag bits.
#[derive(Clone, Copy, Debug, PartialEq, Eq, Structural)]
pub struct Page(pub usize);

impl Page {
    /// An entry pointing at the page-aligned physical address `addr`.
    pub fn new(addr: Phys, flags: usize) -> (r: Page)
        requires
            addr.addr_spec() % 0x1000 == 0,
            flags < 0x1000,
        ensures
            r.0 == addr.addr_spec() + flags,
            masked(r.0 as int) == addr.addr_spec(),
            flags_of(r.0 as int) == flags,
    {
        let a = addr.as_ptr();
        proof {
            assert(a | flags == a + flags) by (bit_vector)
                requires
                    a % 0x1000 == 0,
                    flags < 0x1000,
            ;
            assert((a + flags) % 0x1000 == flags) by {
                vstd::arithmetic::div_mod::lemma_mod_multiples_vanish(
                    a as int / 0x1000,
                    flags as int,
                    0x1000,
                );
                vstd::arithmetic::div_mod::lemma_fundamental_div_mod(a as int, 0x1000);
                vstd::arithmetic::div_mod::lemma_small_mod(flags as nat, 0x1000);
            }
        }
        Page(a | flags)
    }

    /// An entry for frame number `i`.
    pub fn at_frame(i: usize, flags: usize) -> (r: Page)
        requires
            i * 0x1000 + flags <= usize::MAX,
            flags < 0x1000,
        ensures
            r.0 == i * 0x1000 + flags,
    {
        let a = i * PAGE_SIZE;
        proof {
            vstd::arithmetic::div_mod::lemma_mod_multiples_basic(i as int, 0x1000);
            assert(a | flags == a + flags) by (bit_vector)
                requires
                    a % 0x1000 == 0,
                    flags < 0x1000,
            ;
        }
        Page(a | flags)
    }

    /// The physical address this entry points at.
    pub fn physical(&self) -> (r: Phys)
        ensures
            r.addr_spec() == masked(self.0 as int),
    {
        let x = self.0;
        proof {
            assert(x & !0xFFFusize == x - (x % 0x1000)) by (bit_vector);
        }
        Phys::at(x & !0xFFF)
    }

    /// Whether the entry maps something.
    pub fn present(&self) -> (r: bool)
        ensures
            r == present(self.0 as int),
    {
        let x = self.0;
        proof {
            assert((x & 1 == 1) == (x % 2 == 1)) by (bit_vector);
        }
        x & 1 == 1
    }
}

/// One level of translation: a fixed array of entries, living in one
/// physical frame.
pub struct Table {
    entries: Vec<usize>,
}

impl Table {
    /// The entry words.
    pub closed spec fn view(&self) -> Seq<usize> {
        self.entries@
    }

    /// A table holds exactly one frame's worth of entries.
    pub open spec fn wf(&self) -> bool {
        self@.len() == ENTRIES
    }

    /// A fresh, zero-filled table: nothing mapped.
    pub fn new() -> (r: Table)
        ensures
            r.wf(),
            forall|i: int| 0 <= i < ENTRIES ==> r@[i] == 0,
    {
        let mut entries: Vec<usize> = Vec::new();
        let mut k: usize = 0;
        while k < ENTRIES
            invariant
                entries@.len() == k,
                k <= ENTRIES,
                forall|i: int| 0 <= i < k ==> entries@[i] == 0,
            decreases ENTRIES - k,
        {
            entries.push(0);
            k = k + 1;
        }
        Table { entries }
    }

    /// Reads the entry in slot `index`.
    pub fn get(&self, index: usize) -> (r: Page)
        requires
            self.wf(),
            index < ENTRIES,
        ensures
            r.0 == self@[index as int],
    {
        Page(self.entries[index])
    }

    /// Writes the entry in slot `index`.
    pub fn set(&mut self, index: usize, page: Page)
        requires
            old(self).wf(),
            index < ENTRIES,
        ensures
            final(self).wf(),
            final(self)@ == old(self)@.update(index as int, page.0),
    {
        self.entries.set(index, page.0);
        proof {
            assert(self@ =~= old(self)@.update(index as int, page.0));
        }
    }

    /// Maps every slot to the frame of the same number, offset by `start`
    /// frames: the identity mapping of one directory slot's span.
    pub fn identity_map(&mut self, start: usize, flags: usize)
        requires
            old(self).wf(),
            flags < 0x1000,
            (start + ENTRIES) * 0x1000 <= usize::MAX,
        ensures
            final(self).wf(),
            forall|i: int| 0 <= i < ENTRIES ==> final(self)@[i] == (start + i) * 0x1000 + flags,
    {
        let mut k: usize = 0;
        while k < ENTRIES
            invariant
                self.wf(),
                k <= ENTRIES,
                flags < 0x1000,
                (start + ENTRIES) * 0x1000 <= usize::MAX,
                forall|i: int| 0 <= i < k ==> self@[i] == (start + i) * 0x1000 + flags,
            decreases ENTRIES - k,
        {
            proof {
                assert((start + k) * 0x1000 + flags <= (start + ENTRIES) * 0x1000) by (
                nonlinear_arith)
                    requires
                        k < ENTRIES,
                        flags < 0x1000,
                ;
            }
            let page = Page::at_frame(start + k, flags);
            self.set(k, page);
            k = k + 1;
        }
    }
}

/// The store of table frames: which physical frame holds which table.
/// This models the contents of the frames the page-table layer owns; the
/// recursive self-map that reaches them at fixed virtual addresses on
/// hardware is mirrored by each directory's self-map entry.
pub struct TableStore {
    slots: Vec<(usize, Table)>,
}

/// The mapping the slot list stands for; a later pair with the same key
/// would win, but a well-formed store keeps its keys unique.
pub open spec fn store_map(s: Seq<(usize, Table)>) -> Map<int, Seq<usize>>
    decreases s.len(),
{
    if s.len() == 0 {
        Map::empty()
    } else {
        store_map(s.drop_last()).insert(s.last().0 as int, s.last().1@)
    }
}

/// Whether the slot list's keys are unique and every table well-formed.
pub open spec fn slots_wf(s: Seq<(usize, Table)>) -> bool {
    &&& forall|i: int, j: int| 0 <= i < j < s.len() ==> s[i].0 != s[j].0
    &&& forall|i: int| 0 <= i < s.len() ==> (#[trigger] s[i].1).wf()
}

proof fn lemma_store_map_contains(s: Seq<(usize, Table)>)
    ensures
        forall|a: int|
            store_map(s).dom().contains(a) <==> (exists|i: int|
                0 <= i < s.len() && #[trigger] s[i].0 == a),
        slots_wf(s) ==> forall|i: int|
            0 <= i < s.len() ==> store_map(s)[#[trigger] s[i].0 as int] == s[i].1@,
    decreases s.len(),
{
    if s.len() > 0 {
        let dl = s.drop_last();
        lemma_store_map_contains(dl);
        assert(forall|i: int| 0 <= i < dl.len() ==> dl[i] == s[i]);
        assert forall|a: int|
            store_map(s).dom().contains(a) implies (exists|i: int|
            0 <= i < s.len() && #[trigger] s[i].0 == a) by {
            if a == s.last().0 as int {
                assert(s[s.len() - 1].0 == a);
            } else {
                assert(store_map(dl).dom().contains(a));
                let i = choose|i: int| 0 <= i < dl.len() && #[trigger] dl[i].0 == a;
                assert(s[i].0 == a);
            }
        }
        assert forall|a: int|
            (exists|i: int| 0 <= i < s.len() && #[trigger] s[i].0 == a) implies store_map(
            s,
        ).dom().contains(a) by {
            let i = choose|i: int| 0 <= i < s.len() && #[trigger] s[i].0 == a;
            if i < s.len() - 1 {
                assert(dl[i].0 == a);
                assert(store_map(dl).dom().contains(a));
            }
        }
        if slots_wf(s) {
            assert(slots_wf(dl));
            assert forall|i: int|
                0 <= i < s.len() implies store_map(s)[#[trigger] s[i].0 as int] == s[i].1@ by {
                if i < s.len() - 1 {
                    assert(dl[i].0 == s[i].0);
                    assert(s[i].0 != s[s.len() - 1].0);
                    assert(store_map(dl)[s[i].0 as int] == s[i].1@);
                }
            }
        }
    }
}

proof fn lemma_store_map_remove(s: Seq<(usize, Table)>, i: int)
    requires
        0 <= i < s.len(),
        forall|x: int, y: int| 0 <= x < y < s.len() ==> s[x].0 != s[y].0,
    ensures
        store_map(s.remove(i)) == store_map(s).remove(s[i].0 as int),
    decreases s.len(),
{
    lemma_store_map_contains(s.drop_last());
    if i == s.len() - 1 {
        assert(s.remove(i) =~= s.drop_last());
        assert(!store_map(s.drop_last()).dom().contains(s[i].0 as int));
        assert(store_map(s.drop_last()) =~= store_map(s).remove(s[i].0 as int));
    } else {
        lemma_store_map_remove(s.drop_last(), i);
        assert(s.remove(i).drop_last() =~= s.drop_last().remove(i));
        assert(s.remove(i).last() == s.last());
        assert(store_map(s.remove(i)) == store_map(s.drop_last().remove(i)).insert(
            s.last().0 as int,
            s.last().1@,
        ));
        assert(store_map(s.remove(i)) =~= store_map(s).remove(s[i].0 as int));
    }
}

impl TableStore {
    /// The tables held, by the physical address of their frame.
    pub closed spec fn view(&self) -> Map<int, Seq<usize>> {
        store_map(self.slots@)
    }

    /// Keys unique, every table one frame's worth of entries.
    pub closed spec fn wf(&self) -> bool {
        slots_wf(self.slots@)
    }

    /// An empty store.
    pub fn new() -> (r: TableStore)
        ensures
            r.wf(),
            r@ == Map::<int, Seq<usize>>::empty(),
    {
        let r = TableStore { slots: Vec::new() };
        r
    }

    fn find(&self, addr: usize) -> (r: Option<usize>)
        requires
            self.wf(),
        ensures
            r matches Some(i) ==> i < self.slots@.len() && self.slots@[i as int].0 == addr
                && self@.dom().contains(addr as int),
            r is None ==> !self@.dom().contains(addr as int),
    {
        proof {
            lemma_store_map_contains(self.slots@);
        }
        let n = self.slots.len();
        let mut k: usize = 0;
        while k < n
            invariant
                n == self.slots@.len(),
                k <= n,
                self.wf(),
                forall|i: int| 0 <= i < k ==> self.slots@[i].0 != addr,
            decreases n - k,
        {
            if self.slots[k].0 == addr {
                proof {
                    lemma_store_map_contains(self.slots@);
                }
                return Some(k);
            }
            k = k + 1;
        }
        proof {
            lemma_store_map_contains(self.slots@);
        }
        None
    }

    /// Whether a table lives in the frame at `addr`.
    pub fn contains(&self, addr: usize) -> (r: bool)
        requires
            self.wf(),
        ensures
            r == self@.dom().contains(addr as int),
    {
        match self.find(addr) {
            Some(_) => true,
            None => false,
        }
    }

    /// Reads entry `idx` of the table in the frame at `addr`.
    pub fn entry(&self, addr: usize, idx: usize) -> (r: Page)
        requires
            self.wf(),
            self@.dom().contains(addr as int),
            idx < ENTRIES,
        ensures
            r.0 == self@[addr as int][idx as int],
    {
        proof {
            lemma_store_map_contains(self.slots@);
        }
        match self.find(addr) {
            Some(i) => {
                let t = &self.slots[i].1;
                t.get(idx)
            },
            None => {
                proof {
                    assert(false);
                }
                Page(0)
            },
        }
    }

    /// Writes entry `idx` of the table in the frame at `addr`.
    pub fn set_entry(&mut self, addr: usize, idx: usize, page: Page)
        requires
            old(self).wf(),
            old(self)@.dom().contains(addr as int),
            idx < ENTRIES,
        ensures
            final(self).wf(),
            final(self)@ == old(self)@.insert(
                addr as int,
                old(self)@[addr as int].update(idx as int, page.0),
            ),
    {
        proof {
            lemma_store_map_contains(self.slots@);
        }
        match self.find(addr) {
            Some(i) => {
                let ghost s0 = self.slots@;
                let (a, mut t) = self.slots.remove(i);
                proof {
                    lemma_store_map_remove(s0, i as int);
                }
                t.set(idx, page);
                self.slots.push((a, t));
                proof {
                    let s2 = self.slots@;
                    assert(s2.drop_last() =~= s0.remove(i as int));
                    assert(store_map(s2) == store_map(s0.remove(i as int)).insert(
                        addr as int,
                        t@,
                    ));
                    assert(store_map(s2) =~= store_map(s0).insert(
                        addr as int,
                        store_map(s0)[addr as int].update(idx as int, page.0),
                    ));
                    assert forall|x: int, y: int|
                        0 <= x < y < s2.len() implies s2[x].0 != s2[y].0 by {
                        lemma_store_map_contains(s0.remove(i as int));
                        if y == s2.len() - 1 {
                            assert(!store_map(s0.remove(i as int)).dom().contains(addr as int))
                                by {
                                assert(store_map(s0.remove(i as int)) == store_map(s0).remove(
                                    addr as int,
                                ));
                            }
                            assert(s0.remove(i as int)[x] == s2[x]);
                        }
                    }
                }
            },
            None => {
                proof {
                    assert(false);
                }
            },
        }
    }

    /// Adds the table held by the fresh frame at `addr`.
    pub fn insert(&mut self, addr: usize, t: Table)
        requires
            old(self).wf(),
            !old(self)@.dom().contains(addr as int),
            t.wf(),
        ensures
            final(self).wf(),
            final(self)@ == old(self)@.insert(addr as int, t@),
    {
        proof {
            lemma_store_map_contains(self.slots@);
        }
        let ghost s0 = self.slots@;
        self.slots.push((addr, t));
        proof {
            assert(self.slots@.drop_last() =~= s0);
            assert forall|x: int, y: int|
                0 <= x < y < self.slots@.len() implies self.slots@[x].0 != self.slots@[y].0 by {
                if y == self.slots@.len() - 1 {
                    assert(s0[x].0 != addr);
                }
            }
        }
    }
}

} // verus!

verus! {

/// The zero-filled entry sequence of a fresh table.
pub open spec fn zero_entries() -> Seq<usize> {
    Seq::new(ENTRIES as nat, |i: int| 0usize)
}

/// Whether the frame at address `k` is one the allocator has granted.
pub open spec fn owns(fa: FrameAllocator, k: int) -> bool {
    &&& k % (PAGE_SIZE as int) == 0
    &&& fa.base_spec() <= k
    &&& k < fa.base_spec() + fa.frames() * (PAGE_SIZE as int)
    &&& fa.live().dom().contains(fa.unit_of(k))
}

/// The result of a hardware table walk for `v` through the directory at
/// `dir`: the page-table entry found, or nothing where a level is absent.
pub open spec fn translate_spec(store: Map<int, Seq<usize>>, dir: int, v: int) -> Option<int> {
    if !store.dom().contains(dir) {
        Option::None
    } else {
        let de = store[dir][dir_index(v)] as int;
        if !present(de) {
            Option::None
        } else {
            let t = masked(de);
            if !store.dom().contains(t) {
                Option::None
            } else {
                let pe = store[t][tab_index(v)] as int;
                if !present(pe) {
                    Option::None
                } else {
                    Option::Some(pe)
                }
            }
        }
    }
}

/// Whether the directory slot holding `v` is sound: if it maps a table,
/// that table lives in the store and is not the directory frame itself.
pub open spec fn slot_ok(store: Map<int, Seq<usize>>, dir: int, v: int) -> bool {
    present(store[dir][dir_index(v)] as int) ==> {
        let t = masked(store[dir][dir_index(v)] as int);
        t != dir && store.dom().contains(t)
    }
}

/// The page-table manager: it owns the physical frame allocator, the store
/// of table frames, and the translation root register.
pub struct Mmu {
    frames: FrameAllocator,
    store: TableStore,
    cr3: Option<usize>,
    paging: bool,
}

impl Mmu {
    /// The physical frame allocator.
    pub closed spec fn frames_spec(&self) -> FrameAllocator {
        self.frames
    }

    /// The tables held in physical frames.
    pub closed spec fn store_spec(&self) -> Map<int, Seq<usize>> {
        self.store@
    }

    /// The active directory, if any: the translation root register.
    pub closed spec fn active_spec(&self) -> Option<int> {
        match self.cr3 {
            Option::Some(d) => Option::Some(d as int),
            Option::None => Option::None,
        }
    }

    /// Whether translation is switched on.
    pub closed spec fn paging_spec(&self) -> bool {
        self.paging
    }

    /// Well-formedness: the allocator is sound, every stored table sits in
    /// a granted frame, and the active directory is stored.
    pub open spec fn wf(&self) -> bool {
        &&& self.frames_spec().wf()
        &&& self.store_wf()
        &&& forall|k: int| #[trigger]
            self.store_spec().dom().contains(k) ==> owns(self.frames_spec(), k)
        &&& forall|k: int| #[trigger]
            self.store_spec().dom().contains(k) ==> self.store_spec()[k].len() == ENTRIES
        &&& (self.active_spec() matches Option::Some(d) ==> self.store_spec().dom().contains(d))
    }

    /// The store's own invariant, kept opaque.
    pub closed spec fn store_wf(&self) -> bool {
        self.store.wf()
    }

    /// A manager over a fresh frame allocator: no tables, nothing active.
    pub fn new(frames: FrameAllocator) -> (r: Mmu)
        requires
            frames.wf(),
            frames.allocations_spec() == 0,
        ensures
            r.wf(),
            r.frames_spec() == frames,
            r.store_spec() == Map::<int, Seq<usize>>::empty(),
            r.active_spec() is None,
            !r.paging_spec(),
    {
        proof {
            vstd::arithmetic::power2::lemma2_to64();
        }
        Mmu { frames, store: TableStore::new(), cr3: None, paging: false }
    }

    /// How many frame grants have been made: the visible effect of demand
    /// table allocation.
    pub fn frame_allocations(&self) -> (r: usize)
        ensures
            r == self.frames_spec().allocations_spec(),
    {
        self.frames.allocation_count()
    }

    /// Walks the tables for `vaddr` through the directory at `dir`.
    pub fn translate(&self, dir: usize, vaddr: usize) -> (r: Option<Page>)
        requires
            self.wf(),
            self.store_spec().dom().contains(dir as int),
        ensures
            r is None <==> translate_spec(self.store_spec(), dir as int, vaddr as int) is None,
            r matches Some(p) ==> translate_spec(self.store_spec(), dir as int, vaddr as int)
                == Option::Some(p.0 as int),
    {
        let di = vaddr / SLOT_SPAN % ENTRIES;
        let de = self.store.entry(dir, di);
        if !de.present() {
            return None;
        }
        let t = de.physical().as_ptr();
        if !self.store.contains(t) {
            return None;
        }
        let ti = vaddr / PAGE_SIZE % ENTRIES;
        let pe = self.store.entry(t, ti);
        if pe.present() {
            Some(pe)
        } else {
            None
        }
    }

    /// Fetches the table for `vaddr`'s directory slot in the directory at
    /// `dir`, allocating, zero-filling and installing a fresh table frame
    /// when the slot is empty; `None` reports either physical-memory
    /// exhaustion or a slot naming a frame that holds no table.
    pub fn fetch_table(&mut self, dir: usize, vaddr: usize, flags: usize) -> (r: Option<usize>)
        requires
            old(self).wf(),
            old(self).frames_spec().allocations_spec() < usize::MAX,
            old(self).store_spec().dom().contains(dir as int),
            flags < 0x1000,
            flags % 2 == 1,
            dir_index(vaddr as int) != SELF_MAP_SLOT,
        ensures
            final(self).wf(),
            final(self).active_spec() == old(self).active_spec(),
            final(self).paging_spec() == old(self).paging_spec(),
            final(self).frames_spec().base_spec() == old(self).frames_spec().base_spec(),
            final(self).frames_spec().frames() == old(self).frames_spec().frames(),
            forall|k: int| #[trigger]
                old(self).frames_spec().live().dom().contains(k) ==> final(self).frames_spec().live().dom().contains(k),
            ({
                let de = old(self).store_spec()[dir as int][dir_index(vaddr as int)] as int;
                &&& (present(de) && old(self).store_spec().dom().contains(masked(de)) ==> r
                    == Option::Some(masked(de) as usize) && *final(self) == *old(self))
                &&& (present(de) && !old(self).store_spec().dom().contains(masked(de)) ==> r
                    is None && *final(self) == *old(self))
                &&& (!present(de) && r is None ==> *final(self) == *old(self)
                    && !crate::physical::avail_for(old(self).frames_spec(), 1))
                &&& (!present(de) ==> (r matches Some(t) ==> {
                    &&& !old(self).store_spec().dom().contains(t as int)
                    &&& t as int != dir
                    &&& t % 0x1000 == 0
                    &&& final(self).store_spec() == old(self).store_spec().insert(
                        t as int,
                        zero_entries(),
                    ).insert(
                        dir as int,
                        old(self).store_spec()[dir as int].update(
                            dir_index(vaddr as int),
                            (t + flags) as usize,
                        ),
                    )
                    &&& final(self).frames_spec().allocations_spec() == old(self).frames_spec().allocations_spec() + 1
                    &&& crate::physical::avail_for(old(self).frames_spec(), 1)
                }))
            }),
    {
        let ghost pre = *self;
        let di = vaddr / SLOT_SPAN % ENTRIES;
        let de = self.store.entry(dir, di);
        if de.present() {
            let t = de.physical().as_ptr();
            if self.store.contains(t) {
                Some(t)
            } else {
                None
            }
        } else {
            match self.frames.alloc_frames(1) {
                None => {
                    proof {
                        assert(crate::allocator::request_level(1nat) == 0);
                    }
                    None
                },
                Some(p) => {
                    let table = Table::new();
                    let pa = p.as_ptr();
                    proof {
                        let fa = pre.frames_spec();
                        assert(pa as int % 0x1000 == 0) by {
                            assert((pa - fa.base_spec()) % 0x1000 == 0);
                            assert(fa.base_spec() % 0x1000 == 0);
                            vstd::arithmetic::div_mod::lemma_mod_adds(
                                fa.base_spec(),
                                pa - fa.base_spec(),
                                0x1000,
                            );
                        }
                        assert(crate::allocator::request_level(1nat) == 0);
                        assert(vstd::arithmetic::power2::pow2(0) == 1) by {
                            vstd::arithmetic::power2::lemma2_to64();
                        }
                        assert(pa < fa.base_spec() + fa.frames() * 0x1000);
                        assert(!pre.store_spec().dom().contains(pa as int));
                        assert(pa as int != dir);
                    }
                    self.store.insert(pa, table);
                    let entry = Page::new(p, flags);
                    self.store.set_entry(dir, di, entry);
                    proof {
                        let t1 = pre.store_spec().insert(pa as int, table@);
                        assert(table@ =~= zero_entries());
                        assert(t1[dir as int] =~= pre.store_spec()[dir as int]);
                        assert(self.store_spec() =~= pre.store_spec().insert(
                            pa as int,
                            zero_entries(),
                        ).insert(
                            dir as int,
                            pre.store_spec()[dir as int].update(
                                dir_index(vaddr as int),
                                (pa + flags) as usize,
                            ),
                        ));
                        assert forall|k: int| #[trigger]
                            self.store_spec().dom().contains(k) implies owns(
                            self.frames_spec(),
                            k,
                        ) by {
                            if k != pa as int {
                                assert(pre.store_spec().dom().contains(k));
                                assert(owns(pre.frames_spec(), k));
                                assert(self.frames_spec().unit_of(k) == pre.frames_spec().unit_of(
                                    k,
                                ));
                            }
                        }
                    }
                    Some(pa)
                },
            }
        }
    }
}

} // verus!

verus! {

impl Mmu {
    /// Installs the mapping `vaddr -> phys` with `flags` in the directory
    /// at `dir`, fetching — or allocating on demand — the covering table.
    /// `false` reports physical-memory exhaustion, the kernel's fatal
    /// path; with a sound slot and free memory the mapping is owed.
    pub fn set_page(&mut self, dir: usize, vaddr: usize, phys: Phys, flags: usize) -> (r: Option<
        usize,
    >)
        requires
            old(self).wf(),
            old(self).frames_spec().allocations_spec() < usize::MAX,
            old(self).store_spec().dom().contains(dir as int),
            slot_ok(old(self).store_spec(), dir as int, vaddr as int),
            flags < 0x1000,
            flags % 2 == 1,
            dir_index(vaddr as int) != SELF_MAP_SLOT,
            phys.addr_spec() % 0x1000 == 0,
        ensures
            final(self).wf(),
            final(self).active_spec() == old(self).active_spec(),
            final(self).paging_spec() == old(self).paging_spec(),
            final(self).frames_spec().base_spec() == old(self).frames_spec().base_spec(),
            final(self).frames_spec().frames() == old(self).frames_spec().frames(),
            forall|k: int| #[trigger]
                old(self).frames_spec().live().dom().contains(k) ==> final(self).frames_spec().live().dom().contains(k),
            final(self).store_spec().dom().contains(dir as int),
            r is Some <==> (present(
                old(self).store_spec()[dir as int][dir_index(vaddr as int)] as int,
            ) || crate::physical::avail_for(old(self).frames_spec(), 1)),
            r is None ==> *final(self) == *old(self),
            r is Some ==> translate_spec(final(self).store_spec(), dir as int, vaddr as int)
                == Option::Some(phys.addr_spec() + flags),
            forall|v2: int|
                slot_ok(old(self).store_spec(), dir as int, v2) ==> slot_ok(
                    final(self).store_spec(),
                    dir as int,
                    v2,
                ),
            ({
                let de = old(self).store_spec()[dir as int][dir_index(vaddr as int)] as int;
                &&& (r matches Some(t) ==> present(de) ==> t == masked(de) && final(self).store_spec() == old(self).store_spec().insert(
                    masked(de),
                    old(self).store_spec()[masked(de)].update(
                        tab_index(vaddr as int),
                        (phys.addr_spec() + flags) as usize,
                    ),
                ) && final(self).frames_spec().live() == old(self).frames_spec().live() && final(self).frames_spec().allocations_spec() == old(self).frames_spec().allocations_spec())
                &&& (r matches Some(t) ==> !present(de) ==> (!old(self).store_spec().dom().contains(
                    t as int,
                ) && t as int != dir as int && t % 0x1000 == 0 && final(self).store_spec() == old(self).store_spec().insert(
                    t as int,
                    zero_entries().update(
                        tab_index(vaddr as int),
                        (phys.addr_spec() + flags) as usize,
                    ),
                ).insert(
                    dir as int,
                    old(self).store_spec()[dir as int].update(
                        dir_index(vaddr as int),
                        (t + flags) as usize,
                    ),
                ) && final(self).frames_spec().allocations_spec() == old(self).frames_spec().allocations_spec() + 1))
            }),
    {
        let ghost pre = *self;
        let ghost de = pre.store_spec()[dir as int][dir_index(vaddr as int)] as int;
        let r = self.fetch_table(dir, vaddr, flags);
        match r {
            None => {
                proof {
                    assert(!present(de));
                }
                None
            },
            Some(t) => {
                let ghost mid = *self;
                let ti = vaddr / PAGE_SIZE % ENTRIES;
                let entry = Page::new(phys, flags);
                proof {
                    assert(mid.store_spec().dom().contains(t as int));
                    if present(de) {
                        assert(t as int == masked(de));
                        assert(mid.store_spec()[t as int].len() == ENTRIES);
                    } else {
                        assert(mid.store_spec()[t as int] =~= zero_entries());
                    }
                }
                self.store.set_entry(t, ti, entry);
                proof {
                    let pe = (phys.addr_spec() + flags) as usize;
                    let fin = self.store_spec();
                    if present(de) {
                        assert(mid == *old(self));
                        assert(fin =~= pre.store_spec().insert(
                            masked(de),
                            pre.store_spec()[masked(de)].update(tab_index(vaddr as int), pe),
                        ));
                        assert(t as int != dir as int);
                        assert(fin[dir as int] == pre.store_spec()[dir as int]);
                    } else {
                        assert(fin =~= pre.store_spec().insert(
                            t as int,
                            zero_entries().update(tab_index(vaddr as int), pe),
                        ).insert(
                            dir as int,
                            pre.store_spec()[dir as int].update(
                                dir_index(vaddr as int),
                                (t + flags) as usize,
                            ),
                        ));
                        assert(exists|tt: int|
                            {
                                &&& !pre.store_spec().dom().contains(tt)
                                &&& tt != dir as int
                                &&& tt % 0x1000 == 0
                                &&& fin == #[trigger] pre.store_spec().insert(
                                    tt,
                                    zero_entries().update(tab_index(vaddr as int), pe),
                                ).insert(
                                    dir as int,
                                    pre.store_spec()[dir as int].update(
                                        dir_index(vaddr as int),
                                        ((tt + flags) as usize),
                                    ),
                                )
                            }) by {
                            assert(!pre.store_spec().dom().contains(t as int) && t as int
                                != dir as int && t as int % 0x1000 == 0 && fin
                                == pre.store_spec().insert(
                                t as int,
                                zero_entries().update(tab_index(vaddr as int), pe),
                            ).insert(
                                dir as int,
                                pre.store_spec()[dir as int].update(
                                    dir_index(vaddr as int),
                                    ((t + flags) as usize),
                                ),
                            ));
                        }
                    }
                    // the walk now lands on the fresh entry
                    lemma_entry_parity(phys.addr_spec(), flags as int);
                    lemma_entry_parity(t as int, flags as int);
                    assert(fin[dir as int][dir_index(vaddr as int)] as int == if present(de) {
                        de
                    } else {
                        (t + flags) as int
                    });
                    if !present(de) {
                        assert(masked((t + flags) as int) == t) by {
                            vstd::arithmetic::div_mod::lemma_mod_multiples_vanish(
                                t as int / 0x1000,
                                flags as int,
                                0x1000,
                            );
                            vstd::arithmetic::div_mod::lemma_fundamental_div_mod(t as int, 0x1000);
                            vstd::arithmetic::div_mod::lemma_small_mod(flags as nat, 0x1000);
                        }
                    }
                    assert(fin[t as int][tab_index(vaddr as int)] == pe);
                    assert(present(pe as int));
                    assert(translate_spec(fin, dir as int, vaddr as int) == Option::Some(
                        pe as int,
                    ));
                    assert forall|v2: int|
                        slot_ok(pre.store_spec(), dir as int, v2) implies slot_ok(
                        fin,
                        dir as int,
                        v2,
                    ) by {
                        if present(de) {
                            assert(fin[dir as int] == pre.store_spec()[dir as int]);
                        } else {
                            if dir_index(v2) == dir_index(vaddr as int) {
                                assert(fin[dir as int][dir_index(v2)] == (t + flags) as usize);
                                assert(masked((t + flags) as int) == t);
                                assert(fin.dom().contains(t as int));
                            } else {
                                assert(fin[dir as int][dir_index(v2)] == pre.store_spec()[dir
                                    as int][dir_index(v2)]);
                            }
                        }
                    }
                }
                Some(t)
            },
        }
    }

    /// Allocates a fresh frame and maps `vaddr` to it with `flags` plus
    /// `PRESENT`, returning the frame's physical address.
    pub fn map_frame(&mut self, dir: usize, vaddr: usize, flags: usize) -> (r: Option<Phys>)
        requires
            old(self).wf(),
            old(self).frames_spec().allocations_spec() < usize::MAX - 1,
            old(self).store_spec().dom().contains(dir as int),
            slot_ok(old(self).store_spec(), dir as int, vaddr as int),
            flags < 0x1000,
            flags % 2 == 0,
            dir_index(vaddr as int) != SELF_MAP_SLOT,
        ensures
            final(self).wf(),
            final(self).active_spec() == old(self).active_spec(),
            final(self).paging_spec() == old(self).paging_spec(),
            final(self).store_spec().dom().contains(dir as int),
            r is None ==> final(self).store_spec() == old(self).store_spec()
                && !crate::physical::avail_for(final(self).frames_spec(), 1),
            r matches Some(p) ==> p.addr_spec() % 0x1000 == 0 && translate_spec(
                final(self).store_spec(),
                dir as int,
                vaddr as int,
            ) == Option::Some(p.addr_spec() + flags + 1),
            r is Some ==> forall|v2: int|
                slot_ok(old(self).store_spec(), dir as int, v2) ==> slot_ok(
                    final(self).store_spec(),
                    dir as int,
                    v2,
                ),
            final(self).frames_spec().allocations_spec() <= old(self).frames_spec().allocations_spec() + 2,
    {
        let ghost pre = *self;
        let p = match self.frames.alloc_frames(1) {
            None => {
                return None;
            },
            Some(p) => p,
        };
        proof {
            assert(crate::allocator::request_level(1nat) == 0);
            let fa = pre.frames_spec();
            assert(p.addr_spec() % 0x1000 == 0) by {
                vstd::arithmetic::div_mod::lemma_mod_adds(
                    fa.base_spec(),
                    p.addr_spec() - fa.base_spec(),
                    0x1000,
                );
            }
            assert forall|k: int| #[trigger]
                self.store_spec().dom().contains(k) implies owns(self.frames_spec(), k) by {
                assert(owns(pre.frames_spec(), k));
                assert(self.frames_spec().unit_of(k) == pre.frames_spec().unit_of(k));
            }
            assert(self.wf());
        }
        let ok = self.set_page(dir, vaddr, p, flags + 1);
        if ok.is_some() {
            Some(p)
        } else {
            None
        }
    }

    /// Loads the translation root register with the directory at `dir`.
    pub fn switch_directory(&mut self, dir: Phys)
        requires
            old(self).wf(),
            old(self).store_spec().dom().contains(dir.addr_spec()),
        ensures
            final(self).wf(),
            final(self).store_spec() == old(self).store_spec(),
            final(self).frames_spec() == old(self).frames_spec(),
            final(self).paging_spec() == old(self).paging_spec(),
            final(self).active_spec() == Option::Some(dir.addr_spec()),
    {
        self.cr3 = Some(dir.as_ptr());
    }

    /// Sets the translation-enable control bit.  Hardware demands an
    /// active directory first; the page-fault handler must already be in
    /// place, which the initialization path checks.
    pub fn enable_paging(&mut self)
        requires
            old(self).wf(),
            old(self).active_spec() is Some,
        ensures
            final(self).wf(),
            final(self).store_spec() == old(self).store_spec(),
            final(self).frames_spec() == old(self).frames_spec(),
            final(self).active_spec() == old(self).active_spec(),
            final(self).paging_spec(),
    {
        self.paging = true;
    }
}

/// An entry built from a page-aligned address and flag bits splits back
/// into exactly that address and those bits.
pub proof fn lemma_entry_fields(addr: int, flags: int)
    requires
        addr % 0x1000 == 0,
        0 <= flags < 0x1000,
    ensures
        masked(addr + flags) == addr,
        flags_of(addr + flags) == flags,
        present(addr + flags) == (flags % 2 == 1),
{
    vstd::arithmetic::div_mod::lemma_mod_multiples_vanish(addr / 0x1000, flags, 0x1000);
    vstd::arithmetic::div_mod::lemma_fundamental_div_mod(addr, 0x1000);
    vstd::arithmetic::div_mod::lemma_small_mod(flags as nat, 0x1000);
    lemma_entry_parity(addr, flags);
}

/// An entry built from a page-aligned address and flag bits keeps the
/// flags' low bit as its parity.
proof fn lemma_entry_parity(addr: int, flags: int)
    requires
        addr % 0x1000 == 0,
        0 <= flags < 0x1000,
    ensures
        (addr + flags) % 2 == flags % 2,
{
    let q = addr / 0x1000;
    vstd::arithmetic::div_mod::lemma_fundamental_div_mod(addr, 0x1000);
    assert(addr == 0x1000 * q);
    assert(addr + flags == 2 * (0x800 * q) + flags) by (nonlinear_arith)
        requires
            addr == 0x1000 * q,
    ;
    vstd::arithmetic::div_mod::lemma_mod_multiples_vanish(0x800 * q, flags, 2);
}

} // verus!

verus! {

/// The entries of a freshly cloned directory at address `da`, copied from
/// a source directory: user-region slots empty, kernel-region slots
/// shared by reference, and the self-map slot pointing at the clone
/// itself.
pub open spec fn clone_entries(src: Seq<usize>, da: int) -> Seq<usize> {
    Seq::new(
        ENTRIES as nat,
        |i: int|
            if i == SELF_MAP_SLOT {
                (da + 3) as usize
            } else if i >= KERNEL_SLOT {
                src[i]
            } else {
                0usize
            },
    )
}

impl Mmu {
    /// Duplicates the address space rooted at `src`: a fresh directory
    /// frame whose kernel-region slots share the source's tables by
    /// reference, whose user region starts empty, and whose self-map slot
    /// points at the new directory itself.  `None` reports physical-memory
    /// exhaustion.
    pub fn clone_directory(&mut self, src: usize) -> (r: Option<Phys>)
        requires
            old(self).wf(),
            old(self).frames_spec().allocations_spec() < usize::MAX,
            old(self).store_spec().dom().contains(src as int),
        ensures
            final(self).wf(),
            final(self).active_spec() == old(self).active_spec(),
            final(self).paging_spec() == old(self).paging_spec(),
            final(self).store_spec().dom().contains(src as int),
            r is None ==> final(self).store_spec() == old(self).store_spec() && final(self).frames_spec().allocations_spec() == old(self).frames_spec().allocations_spec()
                && !crate::physical::avail_for(old(self).frames_spec(), 1),
            r matches Some(d) ==> {
                &&& d.addr_spec() % 0x1000 == 0
                &&& !old(self).store_spec().dom().contains(d.addr_spec())
                &&& d.addr_spec() != src as int
                &&& final(self).store_spec() == old(self).store_spec().insert(
                    d.addr_spec(),
                    clone_entries(old(self).store_spec()[src as int], d.addr_spec()),
                )
                &&& final(self).frames_spec().allocations_spec() == old(self).frames_spec().allocations_spec() + 1
            },
    {
        let ghost pre = *self;
        let p = match self.frames.alloc_frames(1) {
            None => {
                proof {
                    assert(crate::allocator::request_level(1nat) == 0);
                }
                return None;
            },
            Some(p) => p,
        };
        let pa = p.as_ptr();
        proof {
            let fa = pre.frames_spec();
            assert(crate::allocator::request_level(1nat) == 0);
            assert(vstd::arithmetic::power2::pow2(0) == 1) by {
                vstd::arithmetic::power2::lemma2_to64();
            }
            assert(pa as int % 0x1000 == 0) by {
                vstd::arithmetic::div_mod::lemma_mod_adds(
                    fa.base_spec(),
                    pa - fa.base_spec(),
                    0x1000,
                );
            }
            assert(!pre.store_spec().dom().contains(pa as int));
        }
        let mut t = Table::new();
        let ghost mid = *self;
        let mut k: usize = KERNEL_SLOT;
        while k < SELF_MAP_SLOT
            invariant
                *self == mid,
                mid.wf(),
                mid.store_spec().dom().contains(src as int),
                t.wf(),
                KERNEL_SLOT <= k <= SELF_MAP_SLOT,
                forall|i: int| 0 <= i < KERNEL_SLOT ==> t@[i] == 0,
                forall|i: int|
                    KERNEL_SLOT <= i < k ==> t@[i] == mid.store_spec()[src as int][i],
                forall|i: int| k <= i < ENTRIES ==> t@[i] == 0,
            decreases SELF_MAP_SLOT - k,
        {
            let e = self.store.entry(src, k);
            t.set(k, e);
            k = k + 1;
        }
        proof {
            assert(1usize | 2 == 3) by (bit_vector);
        }
        let self_entry = Page::new(p, PRESENT | RW);
        t.set(SELF_MAP_SLOT, self_entry);
        self.store.insert(pa, t);
        proof {
            assert(t@ =~= clone_entries(pre.store_spec()[src as int], pa as int));
            assert(self.store_spec() =~= pre.store_spec().insert(
                pa as int,
                clone_entries(pre.store_spec()[src as int], pa as int),
            ));
            assert forall|kk: int| #[trigger]
                self.store_spec().dom().contains(kk) implies owns(self.frames_spec(), kk)
                && self.store_spec()[kk].len() == ENTRIES by {
                if kk != pa as int {
                    assert(pre.store_spec().dom().contains(kk));
                    assert(owns(pre.frames_spec(), kk));
                    assert(self.frames_spec().unit_of(kk) == pre.frames_spec().unit_of(kk));
                }
            }
        }
        Some(p)
    }
}

/// Builds the first page directory: identity-maps the lowest directory
/// slot's span with `PRESENT | RW`, installs the directory's self-map
/// slot, loads the directory and switches paging on.  The page-fault
/// vector must already be bound, since once paging is live any walk of an
/// incomplete table must trap rather than corrupt memory.  `None` reports
/// physical-memory exhaustion.
pub fn init(mmu: &mut Mmu, ints: &crate::interrupt::Table) -> (r: Option<Phys>)
    requires
        old(mmu).wf(),
        old(mmu).frames_spec().allocations_spec() < usize::MAX - 2,
        ints.wf(),
        ints.isr_installed(crate::interrupt::PAGE_FAULT as int),
    ensures
        final(mmu).wf(),
        final(mmu).frames_spec().base_spec() == old(mmu).frames_spec().base_spec(),
        final(mmu).frames_spec().frames() == old(mmu).frames_spec().frames(),
        final(mmu).frames_spec().used() <= old(mmu).frames_spec().used() + 2,
        r is None ==> final(mmu).store_spec() == old(mmu).store_spec()
            && !crate::physical::avail_for(final(mmu).frames_spec(), 1),
        r matches Some(d) ==> {
            &&& final(mmu).store_spec().dom().contains(d.addr_spec())
            &&& final(mmu).active_spec() == Option::Some(d.addr_spec())
            &&& final(mmu).paging_spec()
            &&& forall|v: int|
                0 <= v < SLOT_SPAN ==> translate_spec(final(mmu).store_spec(), d.addr_spec(), v)
                    == Option::Some(masked(v) + 3)
            &&& final(mmu).store_spec()[d.addr_spec()][SELF_MAP_SLOT as int] as int == d.addr_spec()
                + 3
        },
{
    let ghost pre = *mmu;
    let dir_p = match mmu.frames.alloc_frames(1) {
        None => {
            proof {
                assert(mmu.store_spec() == pre.store_spec());
                assert forall|kk: int| #[trigger]
                    mmu.store_spec().dom().contains(kk) implies owns(mmu.frames_spec(), kk)
                    && mmu.store_spec()[kk].len() == ENTRIES by {
                    assert(pre.store_spec().dom().contains(kk));
                    assert(owns(pre.frames_spec(), kk));
                    assert(mmu.frames_spec().unit_of(kk) == pre.frames_spec().unit_of(kk));
                }
                assert(mmu.wf());
            }
            return None;
        },
        Some(p) => p,
    };
    let ghost m1 = *mmu;
    proof {
        assert(crate::allocator::request_level(1nat) == 0);
        assert(pow2(0) == 1) by {
            vstd::arithmetic::power2::lemma2_to64();
        }
    }
    let tab_p = match mmu.frames.alloc_frames(1) {
        None => {
            proof {
                assert(mmu.store_spec() == pre.store_spec());
                assert forall|kk: int| #[trigger]
                    mmu.store_spec().dom().contains(kk) implies owns(mmu.frames_spec(), kk)
                    && mmu.store_spec()[kk].len() == ENTRIES by {
                    assert(pre.store_spec().dom().contains(kk));
                    assert(owns(pre.frames_spec(), kk));
                    assert(mmu.frames_spec().unit_of(kk) == pre.frames_spec().unit_of(kk));
                }
                assert(mmu.wf());
            }
            return None;
        },
        Some(p) => p,
    };
    let dir_pa = dir_p.as_ptr();
    let tab_pa = tab_p.as_ptr();
    proof {
        assert(crate::allocator::request_level(1nat) == 0);
        assert(vstd::arithmetic::power2::pow2(0) == 1) by {
            vstd::arithmetic::power2::lemma2_to64();
        }
        let fa = pre.frames_spec();
        assert(dir_pa as int % 0x1000 == 0) by {
            vstd::arithmetic::div_mod::lemma_mod_adds(
                fa.base_spec(),
                dir_pa - fa.base_spec(),
                0x1000,
            );
        }
        assert(tab_pa as int % 0x1000 == 0) by {
            vstd::arithmetic::div_mod::lemma_mod_adds(
                fa.base_spec(),
                tab_pa - fa.base_spec(),
                0x1000,
            );
        }
        assert(tab_pa != dir_pa);
        assert(!pre.store_spec().dom().contains(dir_pa as int));
        assert(!pre.store_spec().dom().contains(tab_pa as int));
    }
    let mut table = Table::new();
    proof {
        assert(1usize | 2 == 3) by (bit_vector);
        assert((0 + ENTRIES) * 0x1000 <= usize::MAX) by {
            vstd::arithmetic::power2::lemma2_to64();
        }
    }
    table.identity_map(0, PRESENT | RW);
    let mut dir = Table::new();
    dir.set(0, Page::new(tab_p, PRESENT | RW));
    dir.set(SELF_MAP_SLOT, Page::new(dir_p, PRESENT | RW));
    let ghost mid = *mmu;
    mmu.store.insert(tab_pa, table);
    mmu.store.insert(dir_pa, dir);
    proof {
        assert forall|kk: int| #[trigger]
            mmu.store_spec().dom().contains(kk) implies owns(mmu.frames_spec(), kk)
            && mmu.store_spec()[kk].len() == ENTRIES by {
            if kk != dir_pa as int && kk != tab_pa as int {
                assert(pre.store_spec().dom().contains(kk));
                assert(owns(pre.frames_spec(), kk));
                assert(mid.frames_spec().unit_of(kk) == pre.frames_spec().unit_of(kk));
            }
        }
        assert(mmu.wf());
    }
    mmu.switch_directory(dir_p);
    mmu.enable_paging();
    proof {
        let st = mmu.store_spec();
        let da = dir_pa as int;
        assert forall|v: int| 0 <= v < SLOT_SPAN implies translate_spec(st, da, v)
            == Option::Some(masked(v) + 3) by {
            assert(dir_index(v) == 0) by {
                assert(v / 0x400_000 == 0) by {
                    vstd::arithmetic::div_mod::lemma_basic_div(v, 0x400_000);
                }
            }
            let de = st[da][0] as int;
            assert(de == tab_pa + 3);
            lemma_entry_parity(tab_pa as int, 3);
            assert(present(de));
            assert(masked(de) == tab_pa) by {
                vstd::arithmetic::div_mod::lemma_mod_multiples_vanish(
                    tab_pa as int / 0x1000,
                    3,
                    0x1000,
                );
                vstd::arithmetic::div_mod::lemma_fundamental_div_mod(tab_pa as int, 0x1000);
                vstd::arithmetic::div_mod::lemma_small_mod(3nat, 0x1000);
            }
            let q = v / 0x1000;
            vstd::arithmetic::div_mod::lemma_fundamental_div_mod(v, 0x1000);
            vstd::arithmetic::div_mod::lemma_mod_bound(v, 0x1000);
            assert(0 <= q < 1024) by (nonlinear_arith)
                requires
                    v == 0x1000 * q + (v % 0x1000),
                    0 <= v % 0x1000 < 0x1000,
                    0 <= v < 0x400_000,
            ;
            assert(tab_index(v) == q) by {
                vstd::arithmetic::div_mod::lemma_small_mod(q as nat, 1024);
            }
            let pe = st[tab_pa as int][q] as int;
            assert(pe == q * 0x1000 + 3);
            vstd::arithmetic::div_mod::lemma_mod_multiples_basic(q, 0x1000);
            lemma_entry_parity(q * 0x1000, 3);
            assert(present(pe));
            assert(masked(v) == q * 0x1000) by {
                vstd::arithmetic::div_mod::lemma_fundamental_div_mod(v, 0x1000);
            }
        }
    }
    Some(dir_p)
}

} // verus!

verus! {

impl Mmu {
    /// The active directory's physical address, if a directory is loaded.
    pub fn active(&self) -> (r: Option<usize>)
        ensures
            r is None <==> self.active_spec() is None,
            r matches Some(d) ==> self.active_spec() == Option::Some(d as int),
    {
        self.cr3
    }

    /// Grants `count` physical frames from the manager's pool.
    pub fn alloc_frames(&mut self, count: usize) -> (r: Option<Phys>)
        requires
            old(self).wf(),
            old(self).frames_spec().allocations_spec() < usize::MAX,
        ensures
            final(self).wf(),
            final(self).store_spec() == old(self).store_spec(),
            final(self).active_spec() == old(self).active_spec(),
            final(self).paging_spec() == old(self).paging_spec(),
            r is None ==> *final(self) == *old(self) && !crate::physical::avail_for(
                old(self).frames_spec(),
                count as int,
            ),
            r matches Some(p) ==> final(self).frames_spec().allocations_spec() == old(self).frames_spec().allocations_spec() + 1 && (p.addr_spec() - old(self).frames_spec().base_spec()) % 0x1000 == 0,
            r matches Some(p) ==> !old(self).frames_spec().live().dom().contains(
                old(self).frames_spec().unit_of(p.addr_spec()),
            ) && final(self).frames_spec().live() == old(self).frames_spec().live().insert(
                old(self).frames_spec().unit_of(p.addr_spec()),
                pow2(crate::allocator::request_level(count as nat)) as int,
            ),
            final(self).frames_spec().base_spec() == old(self).frames_spec().base_spec(),
            final(self).frames_spec().frames() == old(self).frames_spec().frames(),
            r matches Some(p) ==> final(self).frames_spec().used() == old(self).frames_spec().used() + pow2(crate::allocator::request_level(count as nat)),
    {
        let ghost pre = *self;
        let r = self.frames.alloc_frames(count);
        proof {
            match r {
                Option::Some(p) => {
                    assert(self.frames_spec().live() == pre.frames_spec().live().insert(
                        pre.frames_spec().unit_of(p.addr_spec()),
                        pow2(crate::allocator::request_level(count as nat)) as int,
                    ));
                },
                Option::None => {
                    assert(self.frames_spec().live() == pre.frames_spec().live());
                },
            }
            assert forall|kk: int| #[trigger]
                self.store_spec().dom().contains(kk) implies owns(self.frames_spec(), kk)
                && self.store_spec()[kk].len() == ENTRIES by {
                assert(pre.store_spec().dom().contains(kk));
                assert(owns(pre.frames_spec(), kk));
                assert(self.frames_spec().unit_of(kk) == pre.frames_spec().unit_of(kk));
            }
            assert(self.wf());
        }
        r
    }

    /// Grants `count` physical frames and zero-fills exactly their bytes
    /// in the physical region `m`, which must be the pool's own.
    pub fn zero_alloc_frames(&mut self, m: &mut Memory, count: usize) -> (r: Option<Phys>)
        requires
            old(self).wf(),
            old(self).frames_spec().allocations_spec() < usize::MAX,
            old(m).wf(),
            old(m).base_spec() == old(self).frames_spec().base_spec(),
            old(m)@.len() == old(self).frames_spec().frames() * crate::physical::PAGE_SIZE,
        ensures
            final(self).wf(),
            final(self).store_spec() == old(self).store_spec(),
            final(self).active_spec() == old(self).active_spec(),
            final(self).paging_spec() == old(self).paging_spec(),
            final(m).base_spec() == old(m).base_spec(),
            final(m)@.len() == old(m)@.len(),
            r is None ==> *final(self) == *old(self) && *final(m) == *old(m)
                && !crate::physical::avail_for(old(self).frames_spec(), count as int),
            r matches Some(p) ==> final(self).frames_spec().allocations_spec() == old(self).frames_spec().allocations_spec() + 1 && (p.addr_spec() - old(self).frames_spec().base_spec()) % 0x1000 == 0,
            r matches Some(p) ==> final(self).frames_spec().used() == old(self).frames_spec().used() + pow2(crate::allocator::request_level(count as nat)),
            r matches Some(p) ==> forall|i: int|
                p.addr_spec() - old(m).base_spec() <= i < p.addr_spec() - old(m).base_spec()
                    + pow2(crate::allocator::request_level(count as nat)) * 0x1000
                    ==> final(m)@[i] == 0,
            r matches Some(p) ==> forall|i: int|
                0 <= i < old(m)@.len() && !(p.addr_spec() - old(m).base_spec() <= i
                    < p.addr_spec() - old(m).base_spec() + pow2(
                    crate::allocator::request_level(count as nat),
                ) * 0x1000) ==> final(m)@[i] == old(m)@[i],
    {
        let ghost pre = *self;
        let r = self.frames.zero_alloc_frames(m, count);
        proof {
            match r {
                Option::Some(p) => {
                    assert(self.frames_spec().live() == pre.frames_spec().live().insert(
                        pre.frames_spec().unit_of(p.addr_spec()),
                        pow2(crate::allocator::request_level(count as nat)) as int,
                    ));
                },
                Option::None => {
                    assert(self.frames_spec().live() == pre.frames_spec().live());
                },
            }
            assert forall|kk: int| #[trigger]
                self.store_spec().dom().contains(kk) implies owns(self.frames_spec(), kk)
                && self.store_spec()[kk].len() == ENTRIES by {
                assert(pre.store_spec().dom().contains(kk));
                assert(owns(pre.frames_spec(), kk));
                assert(self.frames_spec().unit_of(kk) == pre.frames_spec().unit_of(kk));
            }
            assert(self.wf());
        }
        r
    }
}

} // verus!

verus! {

/// Whether every present slot of the directory at `d` names a stored
/// table.
pub open spec fn dir_entries_ok(store: Map<int, Seq<usize>>, d: int) -> bool {
    forall|i: int|
        0 <= i < ENTRIES && present(store[d][i] as int) ==> store.dom().contains(
            masked(store[d][i] as int),
        )
}

/// Populating a cloned directory's empty user region is private to the
/// clone: installing a page through a fresh table in directory `dir`
/// leaves every translation through a distinct directory `src` exactly as
/// it was, provided `src`'s slots point only at stored tables.
pub proof fn lemma_user_mutation_private(
    st0: Map<int, Seq<usize>>,
    st1: Map<int, Seq<usize>>,
    src: int,
    dir: int,
    t: int,
    di: int,
    ti: int,
    de: usize,
    pe: usize,
)
    requires
        st0.dom().contains(src),
        src != dir,
        src != t,
        !st0.dom().contains(t),
        dir_entries_ok(st0, src),
        forall|i: int|
            0 <= i < ENTRIES && present(st0[src][i] as int) ==> masked(st0[src][i] as int) != dir,
        st1 == st0.insert(t, zero_entries().update(ti, pe)).insert(
            dir,
            st0[dir].update(di, de),
        ),
    ensures
        st1[src] == st0[src],
        forall|v: int| translate_spec(st1, src, v) == translate_spec(st0, src, v),
{
    assert forall|v: int| translate_spec(st1, src, v) == translate_spec(st0, src, v) by {
        vstd::arithmetic::div_mod::lemma_mod_bound(v / (SLOT_SPAN as int), ENTRIES as int);
        assert(0 <= dir_index(v) < ENTRIES);
        let e = st0[src][dir_index(v)] as int;
        if present(e) {
            assert(st0.dom().contains(masked(e)));
            assert(masked(e) != t);
            assert(masked(e) != dir);
            assert(st1[masked(e)] == st0[masked(e)]);
        }
    }
}

} // verus!
