//! The set of digits still allowed at a cell, stored as forbidden bits.
use crate::bits9::{zeros_below, Bits9};
use crate::grid::Digit;
use vstd::prelude::*;

verus! {

/// Wraps a `Bits9` in which a set bit marks a digit already used by one of the
/// cell's units; the clear bits are the candidates.
#[derive(Debug, Clone, Copy, PartialEq, Eq, Structural)]
pub struct Domain(pub Bits9);

impl Domain {
    /// The forbidden word stays within the nine-bit window.
    pub open spec fn wf(self) -> bool {
        self.0.wf()
    }

    /// Whether digit `d` is still allowed.
    pub open spec fn has_candidate(self, d: Digit) -> bool {
        !self.0.has(d.as_int() as u16)
    }

    /// The number of candidates.
    pub open spec fn spec_size(self) -> nat {
        zeros_below(self.0.raw(), 9)
    }

    pub fn from_bits(b: Bits9) -> (r: Domain)
        ensures
            r == (Domain(b)),
    {
        Domain(b)
    }

    /// The number of digits still allowed.
    pub fn size(&self) -> (r: u8)
        ensures
            r == self.spec_size(),
            r <= 9,
    {
        self.0.count_zeros()
    }

    /// Whether digit `d` is still allowed.
    pub fn allows(&self, d: Digit) -> (r: bool)
        ensures
            r == self.has_candidate(d),
    {
        let raw = self.0.0;
        let i = d.to_u8() as u16;
        proof {
            crate::bits9::lemma_shift_bit(raw, i);
        }
        (raw >> i) & 1 == 0
    }

    /// The allowed digits, lowest first.
    pub fn iter(&self) -> (r: Vec<Digit>)
        ensures
            r@.len() == self.spec_size(),
            forall|k: int| 0 <= k < r@.len() ==> self.has_candidate(#[trigger] r@[k]),
            forall|k1: int, k2: int|
                0 <= k1 < k2 < r@.len() ==> r@[k1].as_int() < r@[k2].as_int(),
            forall|d: Digit| self.has_candidate(d) ==> exists|k: int|
                0 <= k < r@.len() && r@[k] == d,
    {
        let zeros = self.0.iter_zeros();
        let mut r: Vec<Digit> = Vec::new();
        let mut k: usize = 0;
        while k < zeros.len()
            invariant
                k <= zeros@.len(),
                r@.len() == k,
                forall|j: int|
                    0 <= j < zeros@.len() ==> zeros@[j] < 9 && !self.0.has(zeros@[j] as u16),
                forall|j1: int, j2: int| 0 <= j1 < j2 < zeros@.len() ==> zeros@[j1] < zeros@[j2],
                forall|i: u16| i < 9 && !self.0.has(i) ==> zeros@.contains(i as u8),
                forall|j: int| 0 <= j < k ==> (#[trigger] r@[j]).as_int() == zeros@[j],
            decreases zeros@.len() - k,
        {
            r.push(Digit::from_u8(zeros[k]));
            k = k + 1;
        }
        proof {
            assert forall|j: int| 0 <= j < r@.len() implies self.has_candidate(#[trigger] r@[j]) by {
                assert(r@[j].as_int() == zeros@[j]);
            }
            assert forall|d: Digit| self.has_candidate(d) implies exists|k2: int|
                0 <= k2 < r@.len() && r@[k2] == d by {
                let i = d.as_int() as u16;
                assert(zeros@.contains(i as u8));
                let j = choose|j: int| 0 <= j < zeros@.len() && zeros@[j] == i as u8;
                crate::grid::lemma_digit_index_inverse();
                assert(r@[j].as_int() == d.as_int());
                assert(Digit::spec_from_index(r@[j].as_int()) == r@[j]);
                assert(r@[j] == d);
            }
        }
        r
    }
}

} // verus!
