//! An explicit model of the byte region an allocator hands blocks out of:
//! the kernel's raw memory, addressed from a fixed base.

use vstd::prelude::*;

verus! {

/// A byte region starting at address `base`; address `base + i` holds the
/// `i`-th byte of the view.
pub struct Memory {
    base: usize,
    bytes: Vec<u8>,
}

impl Memory {
    /// The bytes held, indexed from zero.
    pub closed spec fn view(&self) -> Seq<u8> {
        self.bytes@
    }

    /// The first address of the region.
    pub closed spec fn base_spec(&self) -> int {
        self.base as int
    }

    /// Addresses stay within `usize`.
    pub open spec fn wf(&self) -> bool {
        0 <= self.base_spec() && self.base_spec() + self@.len() <= usize::MAX
    }

    /// A region of `len` zero bytes starting at address `base`.
    pub fn new(base: usize, len: usize) -> (r: Memory)
        requires
            base + len <= usize::MAX,
        ensures
            r.wf(),
            r.base_spec() == base,
            r@.len() == len,
            forall|i: int| 0 <= i < len ==> r@[i] == 0,
    {
        let mut bytes: Vec<u8> = Vec::new();
        let mut k: usize = 0;
        while k < len
            invariant
                bytes@.len() == k,
                k <= len,
                forall|i: int| 0 <= i < k ==> bytes@[i] == 0,
            decreases len - k,
        {
            bytes.push(0);
            k = k + 1;
        }
        Memory { base, bytes }
    }

    /// The first address of the region.
    pub fn base(&self) -> (r: usize)
        ensures
            r == self.base_spec(),
    {
        self.base
    }

    /// How many bytes the region holds.
    pub fn len(&self) -> (r: usize)
        ensures
            r == self@.len(),
    {
        self.bytes.len()
    }

    /// Reads the byte at address `addr`.
    pub fn read(&self, addr: usize) -> (r: u8)
        requires
            self.base_spec() <= addr < self.base_spec() + self@.len(),
        ensures
            r == self@[addr - self.base_spec()],
    {
        self.bytes[addr - self.base]
    }

    /// Writes the byte at address `addr`.
    pub fn write(&mut self, addr: usize, value: u8)
        requires
            old(self).base_spec() <= addr < old(self).base_spec() + old(self)@.len(),
        ensures
            final(self).base_spec() == old(self).base_spec(),
            final(self)@ == old(self)@.update(addr - old(self).base_spec(), value),
    {
        let i = addr - self.base;
        self.bytes.set(i, value);
        proof {
            assert(self@ =~= old(self)@.update(addr - old(self).base_spec(), value));
        }
    }

    /// Fills the `len` bytes from address `addr` with `value`; every byte
    /// outside that range keeps its value.
    pub fn fill(&mut self, addr: usize, len: usize, value: u8)
        requires
            old(self).wf(),
            old(self).base_spec() <= addr,
            addr + len <= old(self).base_spec() + old(self)@.len(),
        ensures
            final(self).base_spec() == old(self).base_spec(),
            final(self)@.len() == old(self)@.len(),
            forall|i: int|
                addr - old(self).base_spec() <= i < addr - old(self).base_spec() + len
                    ==> final(self)@[i] == value,
            forall|i: int|
                0 <= i < old(self)@.len() && !(addr - old(self).base_spec() <= i < addr - old(self).base_spec() + len)
                    ==> final(self)@[i] == old(self)@[i],
    {
        let start = addr - self.base;
        let mut k: usize = 0;
        while k < len
            invariant
                start == addr - old(self).base_spec(),
                start + len <= self@.len(),
                self@.len() <= usize::MAX,
                self@.len() == old(self)@.len(),
                self.base_spec() == old(self).base_spec(),
                k <= len,
                forall|i: int| start <= i < start + k ==> self@[i] == value,
                forall|i: int|
                    0 <= i < self@.len() && !(start <= i < start + len) ==> self@[i] == old(
                        self,
                    )@[i],
            decreases len - k,
        {
            self.bytes.set(start + k, value);
            k = k + 1;
        }
    }

    /// Copies `len` bytes from address `src` to address `dst`, as if through
    /// a scratch buffer: the destination receives the source bytes as they
    /// stood before the call, whether or not the ranges overlap.
    pub fn copy(&mut self, dst: usize, src: usize, len: usize)
        requires
            old(self).wf(),
            old(self).base_spec() <= src,
            src + len <= old(self).base_spec() + old(self)@.len(),
            old(self).base_spec() <= dst,
            dst + len <= old(self).base_spec() + old(self)@.len(),
        ensures
            final(self).base_spec() == old(self).base_spec(),
            final(self)@.len() == old(self)@.len(),
            forall|i: int|
                dst - old(self).base_spec() <= i < dst - old(self).base_spec() + len
                    ==> final(self)@[i] == old(self)@[i - dst + src],
            forall|i: int|
                0 <= i < old(self)@.len() && !(dst - old(self).base_spec() <= i < dst - old(self).base_spec() + len)
                    ==> final(self)@[i] == old(self)@[i],
    {
        let s = src - self.base;
        let d = dst - self.base;
        let mut scratch: Vec<u8> = Vec::new();
        let mut k: usize = 0;
        while k < len
            invariant
                s + len <= self@.len(),
                self@.len() <= usize::MAX,
                k <= len,
                scratch@.len() == k,
                *self == *old(self),
                s == src - old(self).base_spec(),
                forall|i: int| 0 <= i < k ==> scratch@[i] == self@[s + i],
            decreases len - k,
        {
            let b = self.bytes[s + k];
            scratch.push(b);
            k = k + 1;
        }
        let mut j: usize = 0;
        while j < len
            invariant
                d + len <= self@.len(),
                self@.len() <= usize::MAX,
                j <= len,
                scratch@.len() == len,
                self@.len() == old(self)@.len(),
                self.base_spec() == old(self).base_spec(),
                d == dst - old(self).base_spec(),
                forall|i: int| 0 <= i < len ==> scratch@[i] == old(self)@[s + i],
                s == src - old(self).base_spec(),
                forall|i: int| d <= i < d + j ==> self@[i] == scratch@[i - d],
                forall|i: int| 0 <= i < self@.len() && !(d <= i < d + j) ==> self@[i] == old(self)@[i],
            decreases len - j,
        {
            let b = scratch[j];
            self.bytes.set(d + j, b);
            j = j + 1;
        }
    }
}

} // verus!
