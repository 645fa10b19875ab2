//! For one unit, finds groups of digits whose candidate-cell lists coincide.
use crate::bits9::{bit, Bits9};
use crate::bool_matrix::BoolMatrix9x9;
use crate::domain::Domain;
use crate::grid::{CellIdx, Digit};
use vstd::prelude::*;

verus! {

/// The cells of a unit whose domains admit digit index `d`, among the first
/// `n` unit entries, in entry order.
pub open spec fn bucket_spec(unit: Seq<(Domain, CellIdx)>, d: int, n: int) -> Seq<CellIdx>
    decreases n,
{
    if n <= 0 {
        Seq::empty()
    } else {
        bucket_spec(unit, d, n - 1) + (if unit[n - 1].0.has_candidate(Digit::spec_from_index(d)) {
            seq![unit[n - 1].1]
        } else {
            Seq::empty()
        })
    }
}

/// Cell `c` appears among the first `n` unit entries with digit index `d` in
/// its recorded domain.
pub open spec fn unit_admits(unit: Seq<(Domain, CellIdx)>, d: int, n: int, c: CellIdx) -> bool {
    exists|j: int|
        0 <= j < n && (#[trigger] unit[j]).1 == c && unit[j].0.has_candidate(
            Digit::spec_from_index(d),
        )
}

/// Every bucket member comes from a unit entry whose domain admits the digit.
pub proof fn lemma_bucket_member(unit: Seq<(Domain, CellIdx)>, d: int, n: int)
    requires
        0 <= n <= unit.len(),
    ensures
        forall|m: int|
            0 <= m < bucket_spec(unit, d, n).len() ==> unit_admits(
                unit,
                d,
                n,
                #[trigger] bucket_spec(unit, d, n)[m],
            ),
    decreases n,
{
    if n > 0 {
        lemma_bucket_member(unit, d, n - 1);
        assert forall|m: int| 0 <= m < bucket_spec(unit, d, n).len() implies unit_admits(
            unit,
            d,
            n,
            #[trigger] bucket_spec(unit, d, n)[m],
        ) by {
            if m < bucket_spec(unit, d, n - 1).len() {
                assert(bucket_spec(unit, d, n)[m] == bucket_spec(unit, d, n - 1)[m]);
                assert(unit_admits(unit, d, n - 1, bucket_spec(unit, d, n - 1)[m]));
                let j = choose|j: int|
                    0 <= j < n - 1 && (#[trigger] unit[j]).1 == bucket_spec(unit, d, n - 1)[m]
                        && unit[j].0.has_candidate(Digit::spec_from_index(d));
                assert(0 <= j < n && unit[j].1 == bucket_spec(unit, d, n)[m]
                    && unit[j].0.has_candidate(Digit::spec_from_index(d)));
            } else {
                assert(unit[n - 1].0.has_candidate(Digit::spec_from_index(d)));
                assert(bucket_spec(unit, d, n)[m] == unit[n - 1].1);
                assert(0 <= n - 1 < n && unit[n - 1].1 == bucket_spec(unit, d, n)[m] && unit[n
                    - 1].0.has_candidate(Digit::spec_from_index(d)));
            }
        }
    }
}

/// Every unit entry whose domain admits the digit appears in the bucket.
pub proof fn lemma_bucket_complete(unit: Seq<(Domain, CellIdx)>, d: int, n: int)
    requires
        0 <= n <= unit.len(),
    ensures
        forall|j: int|
            0 <= j < n && (#[trigger] unit[j]).0.has_candidate(Digit::spec_from_index(d))
                ==> bucket_spec(unit, d, n).contains(unit[j].1),
    decreases n,
{
    if n > 0 {
        lemma_bucket_complete(unit, d, n - 1);
        let b = bucket_spec(unit, d, n);
        let bp = bucket_spec(unit, d, n - 1);
        assert forall|j: int|
            0 <= j < n && (#[trigger] unit[j]).0.has_candidate(
                Digit::spec_from_index(d),
            ) implies b.contains(unit[j].1) by {
            if j < n - 1 {
                assert(bp.contains(unit[j].1));
                let m = choose|m: int| 0 <= m < bp.len() && bp[m] == unit[j].1;
                assert(b[m] == unit[j].1);
            } else {
                assert(b[b.len() - 1] == unit[n - 1].1);
            }
        }
    }
}

/// With pairwise distinct unit cells, each bucket is pairwise distinct too.
pub proof fn lemma_bucket_distinct(unit: Seq<(Domain, CellIdx)>, d: int, n: int)
    requires
        0 <= n <= unit.len(),
        forall|j1: int, j2: int|
            0 <= j1 < j2 < unit.len() ==> (#[trigger] unit[j1]).1.rm() != (#[trigger] unit[j2]).1.rm(),
    ensures
        forall|m1: int, m2: int|
            0 <= m1 < m2 < bucket_spec(unit, d, n).len() ==> (#[trigger] bucket_spec(unit, d, n)[m1]).rm()
                != (#[trigger] bucket_spec(unit, d, n)[m2]).rm(),
        forall|m: int|
            0 <= m < bucket_spec(unit, d, n).len() ==> unit_admits(
                unit,
                d,
                n,
                #[trigger] bucket_spec(unit, d, n)[m],
            ),
    decreases n,
{
    lemma_bucket_member(unit, d, n);
    if n > 0 {
        lemma_bucket_distinct(unit, d, n - 1);
        let b = bucket_spec(unit, d, n);
        let bp = bucket_spec(unit, d, n - 1);
        assert forall|m1: int, m2: int| 0 <= m1 < m2 < b.len() implies (#[trigger] b[m1]).rm() != (
        #[trigger] b[m2]).rm() by {
            if m2 < bp.len() {
                assert(b[m1] == bp[m1] && b[m2] == bp[m2]);
            } else {
                assert(b[m2] == unit[n - 1].1);
                assert(b[m1] == bp[m1]);
                assert(unit_admits(unit, d, n - 1, bp[m1]));
                let j = choose|j: int|
                    0 <= j < n - 1 && (#[trigger] unit[j]).1 == bp[m1] && unit[j].0.has_candidate(
                        Digit::spec_from_index(d),
                    );
                assert(unit[j].1.rm() != unit[n - 1].1.rm());
            }
        }
    }
}

/// Per digit, the candidate cells of one unit, and a bit matrix marking the
/// digit pairs whose candidate-cell lists are identical.
#[derive(Debug)]
pub struct HiddenSets {
    pub elts_per_digit: Vec<Vec<CellIdx>>,
    pub eq: BoolMatrix9x9,
}

impl HiddenSets {
    pub open spec fn wf(&self) -> bool {
        &&& self.elts_per_digit@.len() == 9
        &&& self.eq.wf()
    }

    /// Buckets and equality matrix describe `unit` exactly.
    pub open spec fn describes(&self, unit: Seq<(Domain, CellIdx)>) -> bool {
        &&& forall|d: int|
            0 <= d < 9 ==> (#[trigger] self.elts_per_digit@[d])@ == bucket_spec(
                unit,
                d,
                unit.len() as int,
            )
        &&& forall|d1: int, d2: int|
            0 <= d1 < 9 && 0 <= d2 < 9 ==> (#[trigger] self.eq.mbit(d1, d2)) == (
            self.elts_per_digit@[d1]@ == self.elts_per_digit@[d2]@)
    }

    pub fn new() -> (r: HiddenSets)
        ensures
            r.wf(),
    {
        let mut elts_per_digit: Vec<Vec<CellIdx>> = Vec::new();
        let mut k: usize = 0;
        while k < 9
            invariant
                k <= 9,
                elts_per_digit@.len() == k,
            decreases 9 - k,
        {
            elts_per_digit.push(Vec::new());
            k = k + 1;
        }
        HiddenSets { elts_per_digit, eq: BoolMatrix9x9::new() }
    }

    /// Fills the buckets from the unit's `(domain, cell)` entries and marks
    /// each pair of digits whose buckets came out identical, the digit itself
    /// included.
    pub fn init(&mut self, unit: &Vec<(Domain, CellIdx)>)
        ensures
            final (self).wf(),
            final (self).describes(unit@),
    {
        let mut fresh: Vec<Vec<CellIdx>> = Vec::new();
        let mut d: usize = 0;
        while d < 9
            invariant
                d <= 9,
                fresh@.len() == d,
                forall|d2: int|
                    0 <= d2 < d ==> (#[trigger] fresh@[d2])@ == bucket_spec(
                        unit@,
                        d2,
                        unit@.len() as int,
                    ),
            decreases 9 - d,
        {
            let mut bucket: Vec<CellIdx> = Vec::new();
            let mut n: usize = 0;
            while n < unit.len()
                invariant
                    d < 9,
                    n <= unit@.len(),
                    bucket@ == bucket_spec(unit@, d as int, n as int),
                decreases unit@.len() - n,
            {
                let (dom, cell) = unit[n];
                let dig = Digit::from_u8(d as u8);
                proof {
                    crate::grid::lemma_digit_index_inverse();
                    assert(Digit::spec_from_index(d as int) == dig);
                }
                let raw = dom.0.low();
                proof {
                    crate::bits9::lemma_shift_bit(raw, d as u16);
                }
                if (raw >> (d as u16)) & 1 == 0 {
                    bucket.push(cell);
                    proof {
                        assert(unit@[n as int].0.has_candidate(Digit::spec_from_index(d as int)));
                        assert(bucket@ =~= bucket_spec(unit@, d as int, n + 1));
                    }
                } else {
                    proof {
                        assert(!unit@[n as int].0.has_candidate(Digit::spec_from_index(d as int)));
                        assert(bucket@ =~= bucket_spec(unit@, d as int, n + 1));
                    }
                }
                n = n + 1;
            }
            fresh.push(bucket);
            d = d + 1;
        }
        let mut eq = BoolMatrix9x9::new();
        let mut d1: usize = 0;
        while d1 < 9
            invariant
                d1 <= 9,
                fresh@.len() == 9,
                eq.wf(),
                forall|a: int, b: int|
                    0 <= a < 9 && 0 <= b < 9 && a < d1 ==> (#[trigger] eq.mbit(a, b)) == (
                    fresh@[a]@ == fresh@[b]@),
                forall|a: int, b: int|
                    0 <= a < 9 && 0 <= b < 9 && a >= d1 ==> !(#[trigger] eq.mbit(a, b)),
            decreases 9 - d1,
        {
            let mut d2: usize = 0;
            while d2 < 9
                invariant
                    d1 < 9,
                    d2 <= 9,
                    fresh@.len() == 9,
                    eq.wf(),
                    forall|a: int, b: int|
                        0 <= a < 9 && 0 <= b < 9 && a < d1 ==> (#[trigger] eq.mbit(a, b)) == (
                        fresh@[a]@ == fresh@[b]@),
                    forall|b: int|
                        0 <= b < d2 ==> (#[trigger] eq.mbit(d1 as int, b)) == (fresh@[d1 as int]@
                            == fresh@[b]@),
                    forall|b: int| d2 <= b < 9 ==> !(#[trigger] eq.mbit(d1 as int, b)),
                    forall|a: int, b: int|
                        0 <= a < 9 && 0 <= b < 9 && a > d1 ==> !(#[trigger] eq.mbit(a, b)),
                decreases 9 - d2,
            {
                if cells_eq(&fresh[d1], &fresh[d2]) {
                    eq.set((d1 as u8, d2 as u8));
                } else {
                    proof {
                        assert(fresh@[d1 as int]@ != fresh@[d2 as int]@);
                    }
                }
                d2 = d2 + 1;
            }
            d1 = d1 + 1;
        }
        self.elts_per_digit = fresh;
        self.eq = eq;
    }

    /// The number of digits whose candidate-cell list equals that of digit `d`.
    pub open spec fn group_size(&self, d: int) -> nat {
        crate::bits9::ones_below(self.eq.rows@[d], 9)
    }

    /// The first digit whose equal-domain group has exactly `size` members:
    /// returns the group as a domain over those digits together with the
    /// digit's candidate cells; `None` exactly when no digit has a group of
    /// that size.
    pub fn map_first(&self, size: u8) -> (r: Option<(Domain, Vec<CellIdx>)>)
        requires
            self.wf(),
        ensures
            (match r {
                Some((dom, cells)) => {
                    &&& dom.wf()
                    &&& exists|d: int|
                        #![trigger self.elts_per_digit@[d]]
                        0 <= d < 9 && cells@ == self.elts_per_digit@[d]@ && (forall|dd: Digit|
                            #[trigger] dom.has_candidate(dd) == self.eq.mbit(d, dd.as_int()))
                            && self.group_size(d) == size && (forall|d2: int|
                            0 <= d2 < d ==> #[trigger] self.group_size(d2) != size)
                },
                None => forall|d: int| 0 <= d < 9 ==> #[trigger] self.group_size(d) != size,
            }),
    {
        let mut d: usize = 0;
        while d < 9
            invariant
                self.wf(),
                d <= 9,
                forall|d2: int| 0 <= d2 < d ==> #[trigger] self.group_size(d2) != size,
            decreases 9 - d,
        {
            let row = self.eq.row(d as u8);
            if row.count_ones() == size {
                let raw = row.low();
                let inv: u16 = !raw & 0x1ff;
                let dom = Domain(Bits9(inv));
                proof {
                    let a = raw;
                    assert(!a & 0x1ffu16 < 512) by (bit_vector);
                    assert forall|i: u16| i < 9 implies bit(!a & 0x1ffu16, i) == !bit(a, i) by {
                        assert(((!a & 0x1ffu16) & (1u16 << i) != 0u16) == (a & (1u16 << i) == 0u16))
                            by (bit_vector)
                            requires
                                i < 9,
                        ;
                    }
                    assert forall|dd: Digit| #[trigger] dom.has_candidate(dd) == self.eq.mbit(
                        d as int,
                        dd.as_int(),
                    ) by {
                        assert(bit(inv, dd.as_int() as u16) == !bit(raw, dd.as_int() as u16));
                    }
                }
                let cells = clone_cells(&self.elts_per_digit[d]);
                proof {
                    assert(self.group_size(d as int) == size);
                }
                return Some((dom, cells));
            }
            proof {
                assert(self.group_size(d as int) != size);
            }
            d = d + 1;
        }
        None
    }
}

/// Whether two cell lists are identical, entry for entry.
fn cells_eq(a: &Vec<CellIdx>, b: &Vec<CellIdx>) -> (r: bool)
    ensures
        r <==> a@ =~= b@,
{
    if a.len() != b.len() {
        return false;
    }
    let mut k: usize = 0;
    while k < a.len()
        invariant
            a@.len() == b@.len(),
            k <= a@.len(),
            forall|j: int| 0 <= j < k ==> a@[j] == b@[j],
        decreases a@.len() - k,
    {
        let x = a[k];
        let y = b[k];
        if x.row.to_u8() != y.row.to_u8() || x.col.to_u8() != y.col.to_u8() {
            proof {
                assert(a@[k as int].row.as_int() != b@[k as int].row.as_int() || a@[
                    k as int
                ].col.as_int() != b@[k as int].col.as_int());
            }
            return false;
        }
        proof {
            assert(x.row.as_int() == y.row.as_int() && x.col.as_int() == y.col.as_int());
            assert(x.row == y.row && x.col == y.col);
            assert(a@[k as int] == b@[k as int]);
        }
        k = k + 1;
    }
    true
}

/// A copy of a cell list.
fn clone_cells(a: &Vec<CellIdx>) -> (r: Vec<CellIdx>)
    ensures
        r@ == a@,
{
    let mut r: Vec<CellIdx> = Vec::new();
    let mut k: usize = 0;
    while k < a.len()
        invariant
            k <= a@.len(),
            r@ == a@.take(k as int),
        decreases a@.len() - k,
    {
        r.push(a[k]);
        proof {
            assert(r@ =~= a@.take(k + 1));
        }
        k = k + 1;
    }
    proof {
        assert(a@.take(a@.len() as int) =~= a@);
    }
    r
}

} // verus!
