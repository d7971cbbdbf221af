//! The 256-bit completion mask a node advertises: bit `i` is set once
//! every block of slice `i` is durably written locally.

use vstd::prelude::*;

verus! {

/// Number of slices an image's blocks are partitioned into, and so the
/// number of bits in a completion mask.
pub const SLICE_COUNT: usize = 256;

/// A 256-bit completion mask, stored one bit per element.
pub struct Mask {
    pub bits: Vec<bool>,
}

impl View for Mask {
    type V = Seq<bool>;

    open spec fn view(&self) -> Seq<bool> {
        self.bits@
    }
}

impl Mask {
    pub open spec fn wf(&self) -> bool {
        self.bits@.len() == SLICE_COUNT
    }

    /// The empty mask: no slice is complete yet.
    pub fn empty() -> (r: Mask)
        ensures
            r.wf(),
            forall|i: int| 0 <= i < SLICE_COUNT ==> !r@[i],
    {
        let mut bits: Vec<bool> = Vec::new();
        let mut i: usize = 0;
        while i < SLICE_COUNT
            invariant
                i <= SLICE_COUNT,
                bits@.len() == i,
                forall|j: int| 0 <= j < i ==> !bits@[j],
            decreases SLICE_COUNT - i,
        {
            bits.push(false);
            i = i + 1;
        }
        Mask { bits }
    }

    pub fn get(&self, i: usize) -> (r: bool)
        requires
            self.wf(),
            i < SLICE_COUNT,
        ensures
            r == self@[i as int],
    {
        self.bits[i]
    }

    /// Mark slice `i` complete.  Bits only ever flip from clear to set:
    /// every bit set before the call is still set after it.
    pub fn set(&mut self, i: usize)
        requires
            old(self).wf(),
            i < SLICE_COUNT,
        ensures
            final(self).wf(),
            final(self)@[i as int],
            forall|j: int| 0 <= j < SLICE_COUNT && j != i ==> final(self)@[j] == old(self)@[j],
            forall|j: int| 0 <= j < SLICE_COUNT && old(self)@[j] ==> final(self)@[j],
    {
        self.bits.set(i, true);
    }

    /// The mask packed into four 64-bit words, low slice indices in the
    /// low bits of the first word; this is the wire form peers exchange.
    pub fn to_words(&self) -> (r: Vec<u64>)
        requires
            self.wf(),
        ensures
            r@.len() == 4,
            forall|j: int|
                0 <= j < SLICE_COUNT ==> ((#[trigger] self@[j]) <==> (r@[j / 64] >> ((j
                    % 64) as u64)) & 1 == 1),
    {
        let mut words: Vec<u64> = Vec::new();
        let mut w: usize = 0;
        while w < 4
            invariant
                w <= 4,
                words@.len() == w,
                self.wf(),
                forall|j: int|
                    0 <= j < w * 64 ==> ((#[trigger] self@[j]) <==> (words@[j / 64] >> ((j
                        % 64) as u64)) & 1 == 1),
            decreases 4 - w,
        {
            let mut word: u64 = 0;
            proof {
                assert forall|k: u64| k < 64 implies (0u64 >> k) & 1 == 0 by {
                    assert((0u64 >> k) & 1 == 0) by (bit_vector);
                }
            }
            let mut b: usize = 0;
            while b < 64
                invariant
                    b <= 64,
                    w < 4,
                    self.wf(),
                    forall|k: u64|
                        k < b ==> (self@[w * 64 + k] <==> (#[trigger] (word >> k)) & 1 == 1),
                    forall|k: u64| b <= k < 64 ==> (#[trigger] (word >> k)) & 1 == 0,
                decreases 64 - b,
            {
                let ghost old_word = word;
                let bit = self.bits[w * 64 + b];
                if bit {
                    word = word | (1u64 << (b as u64));
                }
                proof {
                    let new_word = word;
                    assert forall|k: u64| k < 64 implies (new_word >> k) & 1 == (if k == b {
                        if bit {
                            1u64
                        } else {
                            0u64
                        }
                    } else {
                        (old_word >> k) & 1
                    }) by {
                        if bit {
                            assert(((old_word | (1u64 << (b as u64))) >> k) & 1 == (if k == (
                            b as u64) {
                                1u64
                            } else {
                                (old_word >> k) & 1
                            })) by (bit_vector)
                                requires
                                    k < 64 && (b as u64) < 64,
                            ;
                        }
                    }
                }
                b = b + 1;
            }
            proof {
                assert forall|j: int| w * 64 <= j < w * 64 + 64 implies (self@[j] <==> (word >> ((j
                    % 64) as u64)) & 1 == 1) by {
                    let k = (j - w * 64) as u64;
                    assert(j % 64 == k as int);
                    assert(self@[w * 64 + k] <==> (word >> k) & 1 == 1);
                }
            }
            words.push(word);
            w = w + 1;
        }
        proof {
            assert forall|j: int| 0 <= j < SLICE_COUNT implies (self@[j] <==> (words@[j / 64] >> ((j
                % 64) as u64)) & 1 == 1) by {
                assert(0 <= j / 64 < 4);
            }
        }
        words
    }
}

} // verus!
