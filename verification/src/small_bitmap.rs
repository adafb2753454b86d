//! A compact bitmap over 16-bit indices, used to record the outgoing edges of
//! each node of the ranking-rule graph.

use vstd::prelude::*;

verus! {

/// A bitmap over 16-bit indexes, packed into 64-bit words.
pub struct SmallBitmap {
    bits: Vec<u64>,
}

impl SmallBitmap {
    /// Number of 64-bit words backing the bitmap.
    pub closed spec fn words(self) -> int {
        self.bits@.len() as int
    }

    /// Whether `i` is below the allocated capacity.
    pub open spec fn in_capacity(self, i: u16) -> bool {
        i as int / 64 < self.words()
    }

    /// Whether `i` is a member.
    pub closed spec fn spec_contains(self, i: u16) -> bool {
        i as int / 64 < self.bits@.len()
            && (self.bits@[i as int / 64] >> ((i % 64) as u64)) & 1u64 == 1u64
    }

    /// A bitmap able to hold members `0 .. n_bits`, initially empty.
    pub fn new(n_bits: u16) -> (r: Self)
        ensures
            forall|i: u16| !(#[trigger] r.spec_contains(i)),
            forall|i: u16| i < n_bits ==> #[trigger] r.in_capacity(i),
            r.words() == (n_bits + 63) / 64,
    {
        let n_words: usize = (n_bits as usize + 63) / 64;
        let mut bits: Vec<u64> = Vec::new();
        let mut w: usize = 0;
        while w < n_words
            invariant
                bits@.len() == w,
                w <= n_words,
                forall|j: int| 0 <= j < w ==> bits@[j] == 0u64,
            decreases n_words - w,
        {
            bits.push(0u64);
            w += 1;
        }
        let r = SmallBitmap { bits };
        proof {
            assert forall|i: u16| !(#[trigger] r.spec_contains(i)) by {
                if i as int / 64 < r.bits@.len() {
                    let x = r.bits@[i as int / 64];
                    let b = (i % 64) as u64;
                    assert(x == 0u64);
                    assert((0u64 >> b) & 1u64 == 0u64) by (bit_vector);
                }
            }
        }
        r
    }

    /// A bitmap with the same members and the same capacity.
    pub fn duplicate(&self) -> (r: SmallBitmap)
        ensures
            r.words() == self.words(),
            forall|i: u16| #[trigger] r.spec_contains(i) == self.spec_contains(i),
            forall|i: u16| #[trigger] r.in_capacity(i) == self.in_capacity(i),
    {
        let mut bits: Vec<u64> = Vec::new();
        let mut w: usize = 0;
        while w < self.bits.len()
            invariant
                w <= self.bits@.len(),
                bits@.len() == w,
                forall|j: int| 0 <= j < w ==> bits@[j] == self.bits@[j],
            decreases self.bits@.len() - w,
        {
            bits.push(self.bits[w]);
            w += 1;
        }
        proof {
            assert(bits@ =~= self.bits@);
        }
        SmallBitmap { bits }
    }

    /// A member is always below the capacity.
    pub proof fn lemma_contains_in_capacity(self, i: u16)
        requires
            self.spec_contains(i),
        ensures
            self.in_capacity(i),
    {
    }

    /// Whether `i` is a member.
    pub fn contains(&self, i: u16) -> (r: bool)
        ensures
            r == self.spec_contains(i),
    {
        let w: usize = (i / 64) as usize;
        if w >= self.bits.len() {
            return false;
        }
        (self.bits[w] >> ((i % 64) as u64)) & 1u64 == 1u64
    }

    /// Add `i` as a member.
    pub fn insert(&mut self, i: u16)
        requires
            old(self).in_capacity(i),
        ensures
            final(self).words() == old(self).words(),
            forall|j: u16| final(self).spec_contains(j)
                == (old(self).spec_contains(j) || j == i),
    {
        let w: usize = (i / 64) as usize;
        let b: u64 = (i % 64) as u64;
        let x = self.bits[w];
        self.bits[w] = x | (1u64 << b);
        proof {
            assert forall|j: u16|
                self.spec_contains(j) == (old(self).spec_contains(j) || j == i) by {
                let c = (j % 64) as u64;
                if j as int / 64 == i as int / 64 {
                    if j == i {
                        assert(b < 64 ==> ((x | (1u64 << b)) >> b) & 1u64 == 1u64)
                            by (bit_vector);
                    } else {
                        assert(j % 64 != i % 64) by {
                            assert(j as int == 64 * (j as int / 64) + (j as int % 64));
                            assert(i as int == 64 * (i as int / 64) + (i as int % 64));
                        }
                        assert(b < 64 && c < 64 && b != c ==>
                            ((x | (1u64 << b)) >> c) & 1u64 == (x >> c) & 1u64)
                            by (bit_vector);
                    }
                }
            }
        }
    }

    /// Remove `i` from the members.
    pub fn remove(&mut self, i: u16)
        requires
            old(self).in_capacity(i),
        ensures
            final(self).words() == old(self).words(),
            forall|j: u16| final(self).spec_contains(j)
                == (old(self).spec_contains(j) && j != i),
    {
        let w: usize = (i / 64) as usize;
        let b: u64 = (i % 64) as u64;
        let x = self.bits[w];
        self.bits[w] = x & !(1u64 << b);
        proof {
            assert forall|j: u16|
                self.spec_contains(j) == (old(self).spec_contains(j) && j != i) by {
                let c = (j % 64) as u64;
                if j as int / 64 == i as int / 64 {
                    if j == i {
                        assert(b < 64 ==> ((x & !(1u64 << b)) >> b) & 1u64 == 0u64)
                            by (bit_vector);
                    } else {
                        assert(j % 64 != i % 64) by {
                            assert(j as int == 64 * (j as int / 64) + (j as int % 64));
                            assert(i as int == 64 * (i as int / 64) + (i as int % 64));
                        }
                        assert(b < 64 && c < 64 && b != c ==>
                            ((x & !(1u64 << b)) >> c) & 1u64 == (x >> c) & 1u64)
                            by (bit_vector);
                    }
                }
            }
        }
    }
}

} // verus!
