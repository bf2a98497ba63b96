//! A packed vector of 2-bit cells, the buddy tree's node storage.
//!
//! Sixteen cells share one `u32` word; cell `i` occupies bits
//! `2*(i%16) .. 2*(i%16)+2` of word `i/16`.

use vstd::prelude::*;

verus! {

/// A vector of 2-bit values, viewed as the sequence of its cells.
pub struct Bitv {
    storage: Vec<u32>,
}

/// The 2-bit cell at position `i` of the words `ws`.
pub open spec fn cell_of(ws: Seq<u32>, i: int) -> u8 {
    ((ws[i / 16] >> (2 * (i % 16)) as u32) & 3) as u8
}

proof fn lemma_word_get_set(w: u32, x: u32, i: u32, j: u32)
    by (bit_vector)
    requires
        i < 16,
        j < 16,
        x < 4,
    ensures
        ((w & !(3u32 << (2 * i)) | (x << (2 * i))) >> (2 * i)) & 3 == x,
        i != j ==> ((w & !(3u32 << (2 * i)) | (x << (2 * i))) >> (2 * j)) & 3 == (w >> (2 * j))
            & 3,
{
}

proof fn lemma_word_zero(j: u32)
    by (bit_vector)
    requires
        j < 16,
    ensures
        (0u32 >> (2 * j)) & 3 == 0u32,
{
}

impl Bitv {
    /// The cells, each a value below 4.
    pub closed spec fn view(&self) -> Seq<u8> {
        Seq::new((self.storage@.len() * 16) as nat, |i: int| cell_of(self.storage@, i))
    }

    /// Builds storage for at least `capacity` cells, all zero.
    pub fn new(capacity: usize) -> (r: Bitv)
        requires
            capacity <= usize::MAX - 15,
        ensures
            r@.len() >= capacity,
            forall|i: int| 0 <= i < r@.len() ==> r@[i] == 0,
    {
        let words = (capacity + 15) / 16;
        let mut storage: Vec<u32> = Vec::new();
        let mut k: usize = 0;
        while k < words
            invariant
                storage@.len() == k,
                k <= words,
                forall|w: int| 0 <= w < k ==> storage@[w] == 0,
            decreases words - k,
        {
            storage.push(0);
            k = k + 1;
        }
        let r = Bitv { storage };
        proof {
            assert forall|i: int| 0 <= i < r@.len() implies r@[i] == 0 by {
                lemma_word_zero((i % 16) as u32);
            }
        }
        r
    }

    /// Reads cell `i`.
    pub fn get(&self, i: usize) -> (r: u8)
        requires
            i < self@.len(),
        ensures
            r == self@[i as int],
            r < 4,
    {
        let w = i / 16;
        let b: u32 = ((i % 16) as u32) * 2;
        let word = self.storage[w];
        let r = ((word >> b) & 3) as u8;
        proof {
            assert(b == (2 * ((i as int) % 16)) as u32);
            assert((word >> b) & 3 < 4) by (bit_vector);
        }
        r
    }

    /// Writes `x` into cell `i`; every other cell keeps its value.
    pub fn set(&mut self, i: usize, x: u8)
        requires
            i < old(self)@.len(),
            x < 4,
        ensures
            final(self)@.len() == old(self)@.len(),
            final(self)@[i as int] == x,
            forall|j: int|
                0 <= j < final(self)@.len() && j != i ==> final(self)@[j] == old(self)@[j],
    {
        let w = i / 16;
        let b: u32 = ((i % 16) as u32) * 2;
        let word = self.storage[w];
        let updated = word & !(3u32 << b) | ((x as u32) << b);
        self.storage.set(w, updated);
        proof {
            let ws0 = old(self).storage@;
            let ws1 = self.storage@;
            assert forall|j: int| 0 <= j < self@.len() implies (if j == i {
                self@[j] == x
            } else {
                self@[j] == old(self)@[j]
            }) by {
                lemma_word_get_set(ws0[j / 16], x as u32, (i % 16) as u32, (j % 16) as u32);
                if j / 16 != i as int / 16 {
                    assert(ws1[j / 16] == ws0[j / 16]);
                }
            }
        }
    }

    /// Zero-fills the whole store: afterwards every cell reads 0.
    pub fn clear(&mut self)
        ensures
            final(self)@.len() == old(self)@.len(),
            forall|i: int| 0 <= i < final(self)@.len() ==> final(self)@[i] == 0,
    {
        let n = self.storage.len();
        let mut k: usize = 0;
        while k < n
            invariant
                n == self.storage@.len(),
                k <= n,
                forall|w: int| 0 <= w < k ==> self.storage@[w] == 0,
            decreases n - k,
        {
            self.storage.set(k, 0);
            k = k + 1;
        }
        proof {
            assert forall|i: int| 0 <= i < self@.len() implies self@[i] == 0 by {
                lemma_word_zero((i % 16) as u32);
            }
        }
    }
}

} // verus!
