//! Heap's algorithm as a resumable state machine: each `next` call advances
//! the held array to one more permutation of its prefix.
use vstd::prelude::*;
use vstd::seq_lib::group_to_multiset_ensures;

verus! {

#[derive(Debug, Clone, Copy, PartialEq, Eq, Structural)]
pub enum PermPhase {
    Preamble,
    Inner,
}

/// Yields the permutations of up to a handful of elements, one per `next`
/// call, swapping in place; the first call leaves the load order in place.
#[derive(Debug)]
pub struct Permutator<Elt> {
    pub phase: PermPhase,
    pub i: u8,
    pub counters: Vec<u8>,
    pub arr: Vec<Elt>,
}

/// Swapping two slots of a sequence keeps its multiset of elements.
pub proof fn lemma_swap_multiset<T>(s: Seq<T>, i: int, j: int)
    requires
        0 <= i < s.len(),
        0 <= j < s.len(),
    ensures
        s.update(i, s[j]).update(j, s[i]).to_multiset() == s.to_multiset(),
{
    broadcast use group_to_multiset_ensures;
    broadcast use vstd::seq_lib::to_multiset_update;
    broadcast use vstd::multiset::group_multiset_axioms;
    broadcast use vstd::multiset::group_multiset_properties;

    if i == j {
        assert(s.update(i, s[j]).update(j, s[i]) =~= s);
    } else {
        let s1 = s.update(i, s[j]);
        assert(s1[j] == s[j]);
        assert(s1.update(j, s[i]).to_multiset() == s1.to_multiset().insert(s[i]).remove(s[j]));
        assert(s1.to_multiset() == s.to_multiset().insert(s[j]).remove(s[i]));
        assert(s.to_multiset().count(s[i]) > 0);
        assert(s.to_multiset().insert(s[j]).remove(s[i]).insert(s[i]).remove(s[j])
            =~= s.to_multiset());
    }
}

/// One `next` call, as a function of the machine's state: runs the counter
/// scan until it performs a swap, enters the loop phase, or falls off the end.
pub open spec fn advance<Elt>(
    phase: PermPhase,
    i: u8,
    counters: Seq<u8>,
    arr: Seq<Elt>,
) -> (PermPhase, u8, Seq<u8>, Seq<Elt>)
    decreases arr.len() - i,
{
    if i as int >= arr.len() || i >= 120 {
        (phase, i, counters, arr)
    } else {
        match phase {
            PermPhase::Preamble => (PermPhase::Inner, 1u8, counters, arr),
            PermPhase::Inner => {
                if counters[i as int] < i {
                    let other: int = if i % 2 == 0 {
                        0
                    } else {
                        counters[i as int] as int
                    };
                    (
                        PermPhase::Inner,
                        1u8,
                        counters.update(i as int, (counters[i as int] + 1) as u8),
                        arr.update(i as int, arr[other]).update(other, arr[i as int]),
                    )
                } else {
                    advance(PermPhase::Inner, (i + 1) as u8, counters.update(i as int, 0u8), arr)
                }
            },
        }
    }
}

impl<Elt: Copy> Permutator<Elt> {
    /// The elements currently held, in their current order.
    pub open spec fn elements(&self) -> Seq<Elt> {
        self.arr@
    }

    pub open spec fn wf(&self) -> bool {
        self.counters@.len() == self.arr@.len()
    }

    pub fn new() -> (r: Permutator<Elt>)
        ensures
            r.wf(),
            r.elements().len() == 0,
    {
        Permutator { phase: PermPhase::Preamble, i: 0, counters: Vec::new(), arr: Vec::new() }
    }

    /// Loads fresh elements and rewinds the state machine.
    pub fn load(&mut self, elts: &Vec<Elt>)
        requires
            elts@.len() <= 120,
        ensures
            final (self).wf(),
            final (self).elements() == elts@,
    {
        self.phase = PermPhase::Preamble;
        self.i = 0;
        self.arr = Vec::new();
        self.counters = Vec::new();
        let mut k: usize = 0;
        while k < elts.len()
            invariant
                k <= elts@.len(),
                elts@.len() <= 120,
                self.arr@ == elts@.take(k as int),
                self.counters@.len() == k,
            decreases elts@.len() - k,
        {
            self.arr.push(elts[k]);
            self.counters.push(0);
            proof {
                assert(self.arr@ =~= elts@.take(k + 1));
            }
            k = k + 1;
        }
        proof {
            assert(elts@.take(elts@.len() as int) =~= elts@);
        }
    }

    /// Advances to the next permutation in Heap's canonical order; the very
    /// first call returns the elements as loaded.
    pub fn next(&mut self)
        requires
            old(self).wf(),
            old(self).elements().len() <= 120,
        ensures
            final (self).wf(),
            final (self).elements().to_multiset() == old(self).elements().to_multiset(),
            final (self).elements().len() == old(self).elements().len(),
            (final (self).phase, final (self).i, final (self).counters@, final (self).arr@)
                == advance(old(self).phase, old(self).i, old(self).counters@, old(self).arr@),
    {
        proof {
            broadcast use group_to_multiset_ensures;
        }
        let len = self.arr.len();
        while (self.i as usize) < len
            invariant
                self.wf(),
                self.elements().len() == len,
                len == old(self).elements().len(),
                len <= 120,
                self.elements().to_multiset() == old(self).elements().to_multiset(),
                advance(old(self).phase, old(self).i, old(self).counters@, old(self).arr@)
                    == advance(self.phase, self.i, self.counters@, self.arr@),
            decreases len - self.i,
        {
            match self.phase {
                PermPhase::Preamble => {
                    self.i = 1;
                    self.phase = PermPhase::Inner;
                    return ;
                },
                PermPhase::Inner => {
                    let iu = self.i as usize;
                    let c = self.counters[iu];
                    if (c as usize) < iu {
                        let other: usize = if self.i % 2 == 0 {
                            0
                        } else {
                            c as usize
                        };
                        let ghost before = self.arr@;
                        let a = self.arr[iu];
                        let b = self.arr[other];
                        self.arr[iu] = b;
                        self.arr[other] = a;
                        proof {
                            lemma_swap_multiset(before, iu as int, other as int);
                            assert(self.arr@ =~= before.update(iu as int, before[other as int]).update(
                                other as int,
                                before[iu as int],
                            ));
                        }
                        self.counters[iu] = c + 1;
                        self.i = 1;
                        return ;
                    } else {
                        self.counters[iu] = 0;
                        self.i = self.i + 1;
                    }
                },
            }
        }
        proof {
            assert(advance(self.phase, self.i, self.counters@, self.arr@) == (
                self.phase,
                self.i,
                self.counters@,
                self.arr@,
            ));
        }
    }

    /// A copy of the current permutation.
    pub fn current(&self) -> (r: Vec<Elt>)
        ensures
            r@ == self.elements(),
    {
        let mut r: Vec<Elt> = Vec::new();
        let mut k: usize = 0;
        while k < self.arr.len()
            invariant
                k <= self.arr@.len(),
                r@ == self.arr@.take(k as int),
            decreases self.arr@.len() - k,
        {
            r.push(self.arr[k]);
            proof {
                assert(r@ =~= self.arr@.take(k + 1));
            }
            k = k + 1;
        }
        proof {
            assert(self.arr@.take(self.arr@.len() as int) =~= self.arr@);
        }
        r
    }
}

} // verus!
