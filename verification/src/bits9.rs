//! A set of nine digit slots packed into the low nine bits of a `u16`.
use vstd::prelude::*;

verus! {

/// True when bit `i` of `v` is set.
pub open spec fn bit(v: u16, i: u16) -> bool {
    v & (1u16 << i) != 0u16
}

/// How many of the bits `0 .. n` of `v` are clear.
pub open spec fn zeros_below(v: u16, n: nat) -> nat
    decreases n,
{
    if n == 0 {
        0
    } else {
        zeros_below(v, (n - 1) as nat) + if bit(v, (n - 1) as u16) {
            0nat
        } else {
            1nat
        }
    }
}

/// How many of the bits `0 .. n` of `v` are set.
pub open spec fn ones_below(v: u16, n: nat) -> nat
    decreases n,
{
    if n == 0 {
        0
    } else {
        ones_below(v, (n - 1) as nat) + if bit(v, (n - 1) as u16) {
            1nat
        } else {
            0nat
        }
    }
}

pub proof fn lemma_or_bit(a: u16, b: u16, i: u16)
    requires
        i < 16,
    ensures
        bit(a | b, i) == (bit(a, i) || bit(b, i)),
{
    assert(((a | b) & (1u16 << i) != 0u16) == ((a & (1u16 << i) != 0u16) || (b & (1u16 << i)
        != 0u16))) by (bit_vector)
        requires
            i < 16,
    ;
}

pub proof fn lemma_set_bit(a: u16, k: u16, i: u16)
    requires
        i < 16,
        k < 16,
    ensures
        bit(a | (1u16 << k), i) == (i == k || bit(a, i)),
{
    assert(((a | (1u16 << k)) & (1u16 << i) != 0u16) == (i == k || a & (1u16 << i) != 0u16))
        by (bit_vector)
        requires
            i < 16,
            k < 16,
    ;
}

pub proof fn lemma_clear_bit(a: u16, k: u16, i: u16)
    requires
        i < 16,
        k < 16,
    ensures
        bit(a & !(1u16 << k), i) == (i != k && bit(a, i)),
{
    assert(((a & !(1u16 << k)) & (1u16 << i) != 0u16) == (i != k && a & (1u16 << i) != 0u16))
        by (bit_vector)
        requires
            i < 16,
            k < 16,
    ;
}

pub proof fn lemma_mask9_bit(a: u16, i: u16)
    requires
        i < 16,
    ensures
        bit(a & 0x1ffu16, i) == (i < 9 && bit(a, i)),
{
    assert(((a & 0x1ffu16) & (1u16 << i) != 0u16) == (i < 9 && a & (1u16 << i) != 0u16))
        by (bit_vector)
        requires
            i < 16,
    ;
}

pub proof fn lemma_shift_bit(a: u16, i: u16)
    requires
        i < 16,
    ensures
        bit(a, i) == ((a >> i) & 1u16 == 1u16),
        !bit(a, i) == ((a >> i) & 1u16 == 0u16),
{
    assert((a & (1u16 << i) != 0u16) == ((a >> i) & 1u16 == 1u16) && (a & (1u16 << i) == 0u16) == ((
    a >> i) & 1u16 == 0u16)) by (bit_vector)
        requires
            i < 16,
    ;
}

/// Two words masked to the nine-bit window agree when their nine low bits agree.
pub proof fn lemma_bits_eq(a: u16, b: u16)
    requires
        a < 512,
        b < 512,
        forall|i: u16| i < 9 ==> bit(a, i) == bit(b, i),
    ensures
        a == b,
{
    assert(bit(a, 0) == bit(b, 0) && bit(a, 1) == bit(b, 1) && bit(a, 2) == bit(b, 2) && bit(a, 3)
        == bit(b, 3) && bit(a, 4) == bit(b, 4) && bit(a, 5) == bit(b, 5) && bit(a, 6) == bit(b, 6)
        && bit(a, 7) == bit(b, 7) && bit(a, 8) == bit(b, 8));
    assert((a & (1u16 << 0) != 0u16) == (b & (1u16 << 0) != 0u16) && (a & (1u16 << 1) != 0u16) == (b
        & (1u16 << 1) != 0u16) && (a & (1u16 << 2) != 0u16) == (b & (1u16 << 2) != 0u16) && (a & (
    1u16 << 3) != 0u16) == (b & (1u16 << 3) != 0u16) && (a & (1u16 << 4) != 0u16) == (b & (1u16
        << 4) != 0u16) && (a & (1u16 << 5) != 0u16) == (b & (1u16 << 5) != 0u16) && (a & (1u16 << 6)
        != 0u16) == (b & (1u16 << 6) != 0u16) && (a & (1u16 << 7) != 0u16) == (b & (1u16 << 7)
        != 0u16) && (a & (1u16 << 8) != 0u16) == (b & (1u16 << 8) != 0u16) && a < 512 && b < 512
        ==> a == b) by (bit_vector);
}

/// A set of digits stored in the low nine bits of a word; the upper bits carry nothing.
#[derive(Debug, Clone, Copy, PartialEq, Eq, Structural)]
pub struct Bits9(pub u16);

impl Bits9 {
    /// The raw word.
    pub open spec fn raw(self) -> u16 {
        self.0
    }

    /// Whether the word stays within the nine-bit window.
    pub open spec fn wf(self) -> bool {
        self.0 < 512
    }

    /// Whether slot `i` is set.
    pub open spec fn has(self, i: u16) -> bool {
        bit(self.0, i)
    }

    /// Stores the raw word as given.
    pub fn from_raw(v: u16) -> (r: Bits9)
        ensures
            r.raw() == v,
    {
        Bits9(v)
    }

    /// The low nine bits of the stored word.
    pub fn low(&self) -> (r: u16)
        ensures
            r < 512,
            forall|i: u16| i < 9 ==> bit(r, i) == self.has(i),
            self.wf() ==> r == self.0,
    {
        proof {
            let v = self.0;
            assert(v & 0x1ffu16 < 512) by (bit_vector);
            assert(v < 512 ==> v & 0x1ffu16 == v) by (bit_vector);
            assert forall|i: u16| i < 9 implies bit(v & 0x1ffu16, i) == bit(v, i) by {
                lemma_mask9_bit(v, i);
            }
        }
        self.0 & 0x1ff
    }

    /// The number of clear bits within the nine-bit window.
    pub fn count_zeros(&self) -> (r: u8)
        ensures
            r == zeros_below(self.0, 9),
            r <= 9,
    {
        let mut r: u8 = 0;
        let mut i: u16 = 0;
        while i < 9
            invariant
                i <= 9,
                r == zeros_below(self.0, i as nat),
                r <= i,
            decreases 9 - i,
        {
            proof {
                lemma_shift_bit(self.0, i);
            }
            if (self.0 >> i) & 1 == 0 {
                r = r + 1;
            }
            i = i + 1;
        }
        r
    }

    /// The number of set bits within the nine-bit window.
    pub fn count_ones(&self) -> (r: u8)
        ensures
            r == ones_below(self.0, 9),
            r <= 9,
    {
        let mut r: u8 = 0;
        let mut i: u16 = 0;
        while i < 9
            invariant
                i <= 9,
                r == ones_below(self.0, i as nat),
                r <= i,
            decreases 9 - i,
        {
            proof {
                lemma_shift_bit(self.0, i);
            }
            if (self.0 >> i) & 1 == 1 {
                r = r + 1;
            }
            i = i + 1;
        }
        r
    }

    /// The positions within the window whose bits are clear, lowest first.
    pub fn iter_zeros(&self) -> (r: Vec<u8>)
        ensures
            r@.len() == zeros_below(self.0, 9),
            forall|k: int|
                0 <= k < r@.len() ==> r@[k] < 9 && !self.has(r@[k] as u16),
            forall|k1: int, k2: int| 0 <= k1 < k2 < r@.len() ==> r@[k1] < r@[k2],
            forall|i: u16| i < 9 && !self.has(i) ==> r@.contains(i as u8),
    {
        let mut r: Vec<u8> = Vec::new();
        let mut i: u16 = 0;
        while i < 9
            invariant
                i <= 9,
                r@.len() == zeros_below(self.0, i as nat),
                forall|k: int|
                    0 <= k < r@.len() ==> r@[k] < i && !self.has(r@[k] as u16),
                forall|k1: int, k2: int| 0 <= k1 < k2 < r@.len() ==> r@[k1] < r@[k2],
                forall|j: u16| j < i && !self.has(j) ==> r@.contains(j as u8),
            decreases 9 - i,
        {
            proof {
                lemma_shift_bit(self.0, i);
            }
            if (self.0 >> i) & 1 == 0 {
                let ghost prev = r@;
                r.push(i as u8);
                proof {
                    assert(r@[r@.len() - 1] == i as u8);
                    assert forall|j: u16| j < i + 1 && !self.has(j) implies r@.contains(j as u8) by {
                        if j < i {
                            assert(prev.contains(j as u8));
                            let k = choose|k: int| 0 <= k < prev.len() && prev[k] == j as u8;
                            assert(r@[k] == j as u8);
                        } else {
                            assert(r@[r@.len() - 1] == j as u8);
                        }
                    }
                }
            }
            i = i + 1;
        }
        r
    }

    /// Bitwise union.
    pub fn union(self, rhs: Bits9) -> (r: Bits9)
        ensures
            r.raw() == self.0 | rhs.0,
            forall|i: u16| i < 16 ==> r.has(i) == (self.has(i) || rhs.has(i)),
            self.wf() && rhs.wf() ==> r.wf(),
    {
        proof {
            assert forall|i: u16| i < 16 implies bit(self.0 | rhs.0, i) == (bit(self.0, i) || bit(
                rhs.0,
                i,
            )) by {
                lemma_or_bit(self.0, rhs.0, i);
            }
            let a = self.0;
            let b = rhs.0;
            assert(a < 512 && b < 512 ==> (a | b) < 512) by (bit_vector);
        }
        Bits9(self.0 | rhs.0)
    }
}

} // verus!
