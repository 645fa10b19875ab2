//! A 9 by 9 matrix of bits, stored as nine packed nine-bit rows.
use crate::bits9::{bit, lemma_clear_bit, lemma_set_bit, Bits9};
use vstd::prelude::*;

verus! {

/// Nine rows of nine bits each; `row(r)` projects one row as a `Bits9`.
#[derive(Debug)]
pub struct BoolMatrix9x9 {
    pub rows: Vec<u16>,
}

impl BoolMatrix9x9 {
    /// Nine rows, each within the nine-bit window.
    pub open spec fn wf(&self) -> bool {
        &&& self.rows@.len() == 9
        &&& forall|r: int| 0 <= r < 9 ==> self.rows@[r] < 512
    }

    /// The bit at row `r`, column `c`.
    pub open spec fn mbit(&self, r: int, c: int) -> bool {
        bit(self.rows@[r], c as u16)
    }

    /// The all-clear matrix.
    pub fn new() -> (m: BoolMatrix9x9)
        ensures
            m.wf(),
            forall|r: int, c: int| 0 <= r < 9 && 0 <= c < 9 ==> !m.mbit(r, c),
    {
        let mut rows: Vec<u16> = Vec::new();
        let mut k: usize = 0;
        while k < 9
            invariant
                k <= 9,
                rows@.len() == k,
                forall|r: int| 0 <= r < k ==> rows@[r] == 0u16,
            decreases 9 - k,
        {
            rows.push(0);
            k = k + 1;
        }
        proof {
            assert forall|r: int, c: int| 0 <= r < 9 && 0 <= c < 9 implies !bit(
                #[trigger] rows@[r],
                #[trigger] (c as u16),
            ) by {
                assert(0u16 & (1u16 << (c as u16)) == 0u16) by (bit_vector);
            }
        }
        BoolMatrix9x9 { rows }
    }

    /// Clears every bit.
    pub fn clear(&mut self)
        ensures
            final (self).wf(),
            forall|r: int, c: int| 0 <= r < 9 && 0 <= c < 9 ==> !final (self).mbit(r, c),
    {
        *self = BoolMatrix9x9::new();
    }

    /// Sets the bit at `idx = (row, column)`.
    pub fn set(&mut self, idx: (u8, u8))
        requires
            old(self).wf(),
            idx.0 < 9,
            idx.1 < 9,
        ensures
            final (self).wf(),
            forall|r: int, c: int|
                0 <= r < 9 && 0 <= c < 16 ==> final (self).mbit(r, c) == ((r == idx.0 && c == idx.1)
                    || old(self).mbit(r, c)),
    {
        let r = idx.0 as usize;
        let v: u16 = self.rows[r] | (1u16 << (idx.1 as u16));
        proof {
            let a = self.rows@[r as int];
            let k = idx.1 as u16;
            assert(a < 512 && k < 9 ==> (a | (1u16 << k)) < 512) by (bit_vector);
            assert forall|c: u16| c < 16 implies bit(a | (1u16 << k), c) == (c == k || bit(
                a,
                c,
            )) by {
                lemma_set_bit(a, k, c);
            }
        }
        self.rows[r] = v;
    }

    /// Clears the bit at `idx = (row, column)`.
    pub fn unset(&mut self, idx: (u8, u8))
        requires
            old(self).wf(),
            idx.0 < 9,
            idx.1 < 9,
        ensures
            final (self).wf(),
            forall|r: int, c: int|
                0 <= r < 9 && 0 <= c < 16 ==> final (self).mbit(r, c) == (!(r == idx.0 && c
                    == idx.1) && old(self).mbit(r, c)),
    {
        let r = idx.0 as usize;
        let v: u16 = self.rows[r] & !(1u16 << (idx.1 as u16));
        proof {
            let a = self.rows@[r as int];
            let k = idx.1 as u16;
            assert(a < 512 ==> (a & !(1u16 << k)) < 512) by (bit_vector);
            assert forall|c: u16| c < 16 implies bit(a & !(1u16 << k), c) == (c != k && bit(
                a,
                c,
            )) by {
                lemma_clear_bit(a, k, c);
            }
            assert forall|c: int| 0 <= c < 16 implies bit(v, #[trigger] (c as u16)) == (c != k
                && bit(a, c as u16)) by {
                lemma_clear_bit(a, k, c as u16);
            }
        }
        self.rows[r] = v;
    }

    /// Projects row `row` as a `Bits9`.
    pub fn row(&self, row: u8) -> (r: Bits9)
        requires
            self.wf(),
            row < 9,
        ensures
            r.wf(),
            forall|c: int| 0 <= c < 16 ==> r.has(c as u16) == self.mbit(row as int, c),
            r.raw() == self.rows@[row as int],
    {
        Bits9(self.rows[row as usize])
    }

    /// All nine rows, lowest first.
    pub fn iter_rows(&self) -> (r: Vec<Bits9>)
        requires
            self.wf(),
        ensures
            r@.len() == 9,
            forall|k: int| 0 <= k < 9 ==> (#[trigger] r@[k]).raw() == self.rows@[k],
            forall|k: int| 0 <= k < 9 ==> (#[trigger] r@[k]).wf(),
    {
        let mut r: Vec<Bits9> = Vec::new();
        let mut k: usize = 0;
        while k < 9
            invariant
                self.wf(),
                k <= 9,
                r@.len() == k,
                forall|j: int| 0 <= j < k ==> (#[trigger] r@[j]).raw() == self.rows@[j],
                forall|j: int| 0 <= j < k ==> (#[trigger] r@[j]).wf(),
            decreases 9 - k,
        {
            r.push(self.row(k as u8));
            k = k + 1;
        }
        r
    }
}

} // verus!
