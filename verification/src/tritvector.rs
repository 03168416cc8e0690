//! Dense storage of tri-state values, packed two bits per value.
//!
//! Of the four patterns a bit pair can form, only three are ever written, so
//! the illegal fourth pattern is excluded by the well-formedness invariant.

use vstd::prelude::*;

use crate::bits::bit_capacity;
use crate::bits::bits_of;
use crate::bits::bv_clone;
use crate::bits::bv_contains;
use crate::bits::bv_insert;
use crate::bits::bv_new;
use crate::bits::bv_remove;

verus! {

/// A tri-state value.
#[derive(Clone, Copy, Debug, Eq, PartialEq, Structural)]
#[allow(non_camel_case_types)]
pub enum Trit {
    ZERO,
    ONE,
    TWO,
}

/// The trit that a bit set encodes at position `i`: bit `2*i` set means TWO,
/// else bit `2*i+1` set means ONE, else ZERO.
pub open spec fn trit_of_bits(s: Set<int>, i: int) -> Trit {
    if s.contains(2 * i) {
        Trit::TWO
    } else if s.contains(2 * i + 1) {
        Trit::ONE
    } else {
        Trit::ZERO
    }
}

/// No position may hold the illegal fourth bit pattern (both bits set).
pub open spec fn legal_pair(s: Set<int>, i: int) -> bool {
    !(s.contains(2 * i) && s.contains(2 * i + 1))
}

/// A fixed-length vector of trits over a flat bit set.
pub struct TritVector {
    bits: bitvector::BitVector,
    trit_len: usize,
}

impl View for TritVector {
    type V = Seq<Trit>;

    closed spec fn view(&self) -> Seq<Trit> {
        Seq::new(self.trit_len as nat, |i: int| trit_of_bits(bits_of(self.bits), i))
    }
}

impl TritVector {
    /// Well-formed: the bit set is wide enough and no position holds the
    /// illegal fourth bit pattern (both bits of a pair set).
    pub closed spec fn wf(self) -> bool {
        &&& self.trit_len <= usize::MAX / 2
        &&& bit_capacity(self.bits) >= 2 * self.trit_len
        &&& forall|i: int| 0 <= i < self.trit_len ==> #[trigger] legal_pair(bits_of(self.bits), i)
    }

    pub fn new(trits: usize) -> (r: Self)
        requires
            trits <= (usize::MAX - 63) / 2,
        ensures
            r.wf(),
            r@.len() == trits,
            forall|i: int| 0 <= i < trits ==> r@[i] == Trit::ZERO,
    {
        let bits = bv_new(2 * trits);
        Self { bits, trit_len: trits }
    }

    pub fn get(&self, trit_index: usize) -> (r: Trit)
        requires
            self.wf(),
            trit_index < self@.len(),
        ensures
            r == self@[trit_index as int],
    {
        let bit_index = 2 * trit_index;
        let high = bv_contains(&self.bits, bit_index);
        let low = bv_contains(&self.bits, bit_index + 1);
        if high {
            Trit::TWO
        } else if low {
            Trit::ONE
        } else {
            Trit::ZERO
        }
    }

    pub fn set(&mut self, trit_index: usize, trit: Trit)
        requires
            old(self).wf(),
            trit_index < old(self)@.len(),
        ensures
            final(self).wf(),
            final(self)@ == old(self)@.update(trit_index as int, trit),
    {
        let bit_index = 2 * trit_index;
        match trit {
            Trit::ZERO => {
                bv_remove(&mut self.bits, bit_index);
                bv_remove(&mut self.bits, bit_index + 1);
            },
            Trit::ONE => {
                bv_remove(&mut self.bits, bit_index);
                bv_insert(&mut self.bits, bit_index + 1);
            },
            Trit::TWO => {
                bv_insert(&mut self.bits, bit_index);
                bv_remove(&mut self.bits, bit_index + 1);
            },
        }
        proof {
            assert forall|i: int| 0 <= i < self.trit_len implies #[trigger] legal_pair(
                bits_of(self.bits),
                i,
            ) by {
                if i != trit_index {
                    assert(legal_pair(bits_of(old(self).bits), i));
                }
            }
            assert(self@ =~= old(self)@.update(trit_index as int, trit));
        }
    }

    /// An independent copy: same contents, no shared storage.
    pub fn clone_trits(&self) -> (r: Self)
        ensures
            r@ == self@,
            r.wf() == self.wf(),
    {
        let r = Self { bits: bv_clone(&self.bits), trit_len: self.trit_len };
        proof {
            assert(r@ =~= self@);
        }
        r
    }

    /// Value equality: true exactly when both vectors hold the same trits.
    pub fn eq(&self, other: &TritVector) -> (r: bool)
        requires
            self.wf(),
            other.wf(),
        ensures
            r == (self@ == other@),
    {
        if self.trit_len != other.trit_len {
            proof {
                assert(self@.len() != other@.len());
            }
            return false;
        }
        let mut i: usize = 0;
        while i < self.trit_len
            invariant
                self.wf(),
                other.wf(),
                i <= self.trit_len,
                self.trit_len == other.trit_len,
                self@.len() == self.trit_len,
                other@.len() == other.trit_len,
                forall|j: int| 0 <= j < i ==> self@[j] == other@[j],
            decreases self.trit_len - i,
        {
            let a = self.get(i);
            let b = other.get(i);
            if !matches!((a, b), (Trit::ZERO, Trit::ZERO) | (Trit::ONE, Trit::ONE) | (Trit::TWO, Trit::TWO)) {
                proof {
                    assert(self@[i as int] != other@[i as int]);
                }
                return false;
            }
            i = i + 1;
        }
        proof {
            assert(self@ =~= other@);
        }
        true
    }
}

} // verus!
