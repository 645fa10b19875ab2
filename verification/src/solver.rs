//! The backtracking search engine: packed constraints, subset inference,
//! cancellation, and the diff log of tentative placements.
use crate::bits9::{lemma_bits_eq, zeros_below, Bits9};
use crate::bool_matrix::BoolMatrix9x9;
use crate::cancellation_flag::CancellationFlag;
use crate::completion::{
    completes, extends, lemma_completes_fill, lemma_completes_mono, lemma_completion_in_domain,
    no_completion,
};
use crate::domain::Domain;
use crate::grid::{
    apply_placements, box_cell, box_pos, cell_box, cell_col, cell_row, count_none,
    count_none_below, forbidden, grid_full, grid_seq_wf, grid_valid, lemma_box_cell_range,
    lemma_cell_id, lemma_count_none_update, lemma_count_none_zero, lemma_digit_index_inverse,
    lemma_place_keeps_valid, lemma_rm_injective, lemma_unit_cell_range, lemma_unused_elsewhere,
    same_unit, unit_cell, used_in_box, used_in_col, used_in_row, ArrGrid, CellIdx, ColIdx, Digit,
    Grid, GridDiff, GridMut, GridMutWithDefault, RowIdx,
};
use vstd::prelude::*;

verus! {

/// Why a solve gave no placement list.
#[derive(Debug, Clone, Copy, PartialEq, Eq, Structural)]
pub enum SolverError {
    /// The puzzle has no completion.
    Infeasible,
    /// The cancellation flag stopped the search.
    Cancelled,
    /// The input already breaks the rules in a way the search sees at its root.
    ConstraintsViolated,
}

impl SolverError {
    /// A short description of the error.
    pub fn message(&self) -> (r: String)
        ensures
            (match self {
                SolverError::Infeasible => r@ == "infeasible"@,
                SolverError::Cancelled => r@ == "cancelled"@,
                SolverError::ConstraintsViolated => r@ == "constraints are violated"@,
            }),
    {
        match self {
            SolverError::Infeasible => "infeasible".to_owned(),
            SolverError::Cancelled => "cancelled".to_owned(),
            SolverError::ConstraintsViolated => "constraints are violated".to_owned(),
        }
    }

    /// Keeps successes and cancellations; discards infeasibility so a caller
    /// can go on to the next alternative.
    pub fn ok_or_cancelled<T>(res: Result<T, SolverError>) -> (r: Option<Result<T, SolverError>>)
        ensures
            (match res {
                Ok(_) => r == Some(res),
                Err(SolverError::Cancelled) => r == Some(res),
                Err(_) => r is None,
            }),
    {
        match res {
            Ok(v) => Some(Ok(v)),
            Err(SolverError::Cancelled) => Some(Err(SolverError::Cancelled)),
            Err(_) => None,
        }
    }
}

// ---------------------------------------------------------------------------
// Constraints: three bit matrices giving O(1) used-digit queries.
// ---------------------------------------------------------------------------
/// For each placed digit `d` at `(i, j)`, bit `(i, d)` of `rows`, `(j, d)` of
/// `cols` and `(box, d)` of `boxes` is set.
#[derive(Debug)]
pub struct Constraints {
    pub rows: BoolMatrix9x9,
    pub cols: BoolMatrix9x9,
    pub boxes: BoolMatrix9x9,
}

impl Constraints {
    pub open spec fn wf(&self) -> bool {
        &&& self.rows.wf()
        &&& self.cols.wf()
        &&& self.boxes.wf()
    }

    /// The three matrices hold exactly the used-digit sets of grid `g`.
    pub open spec fn matches(&self, g: Seq<Option<Digit>>) -> bool {
        &&& forall|u: int, d: int|
            0 <= u < 9 && 0 <= d < 9 ==> (#[trigger] self.rows.mbit(u, d)) == used_in_row(
                g,
                u,
                Digit::spec_from_index(d),
            )
        &&& forall|u: int, d: int|
            0 <= u < 9 && 0 <= d < 9 ==> (#[trigger] self.cols.mbit(u, d)) == used_in_col(
                g,
                u,
                Digit::spec_from_index(d),
            )
        &&& forall|u: int, d: int|
            0 <= u < 9 && 0 <= d < 9 ==> (#[trigger] self.boxes.mbit(u, d)) == used_in_box(
                g,
                u,
                Digit::spec_from_index(d),
            )
    }

    pub fn new() -> (r: Constraints)
        ensures
            r.wf(),
            forall|u: int, d: int| 0 <= u < 9 && 0 <= d < 9 ==> !(#[trigger] r.rows.mbit(u, d)),
            forall|u: int, d: int| 0 <= u < 9 && 0 <= d < 9 ==> !(#[trigger] r.cols.mbit(u, d)),
            forall|u: int, d: int| 0 <= u < 9 && 0 <= d < 9 ==> !(#[trigger] r.boxes.mbit(u, d)),
    {
        Constraints { rows: BoolMatrix9x9::new(), cols: BoolMatrix9x9::new(), boxes: BoolMatrix9x9::new() }
    }

    /// Marks digit `value` as used by the three units of `idx`, keeping the
    /// matrices in step with the grid that gains the placement.
    pub fn set(&mut self, idx: CellIdx, value: Digit, Ghost(g): Ghost<Seq<Option<Digit>>>)
        requires
            old(self).wf(),
            old(self).matches(g),
            grid_seq_wf(g),
            g[idx.rm()] is None,
        ensures
            final (self).wf(),
            final (self).matches(g.update(idx.rm(), Some(value))),
    {
        let i = idx.row.to_u8();
        let j = idx.col.to_u8();
        let b = idx.box_() as u8;
        let v = value.to_u8();
        self.rows.set((i, v));
        self.cols.set((j, v));
        self.boxes.set((b, v));
        proof {
            lemma_cell_id(idx.rm());
            lemma_used_update_set(g, idx.rm(), value);
            lemma_digit_index_inverse();
            let g2 = g.update(idx.rm(), Some(value));
            assert forall|u: int, d: int|
                0 <= u < 9 && 0 <= d < 9 implies (#[trigger] self.rows.mbit(u, d)) == used_in_row(
                g2,
                u,
                Digit::spec_from_index(d),
            ) by {
                assert(Digit::spec_from_index(d).as_int() == d);
            }
            assert forall|u: int, d: int|
                0 <= u < 9 && 0 <= d < 9 implies (#[trigger] self.cols.mbit(u, d)) == used_in_col(
                g2,
                u,
                Digit::spec_from_index(d),
            ) by {
                assert(Digit::spec_from_index(d).as_int() == d);
            }
            assert forall|u: int, d: int|
                0 <= u < 9 && 0 <= d < 9 implies (#[trigger] self.boxes.mbit(u, d)) == used_in_box(
                g2,
                u,
                Digit::spec_from_index(d),
            ) by {
                assert(Digit::spec_from_index(d).as_int() == d);
            }
        }
    }

    /// Clears the marks of a placement being taken back; sound only when no
    /// other cell of those units holds the digit, which the caller shows.
    #[verifier::rlimit(100)]
    pub fn unset(&mut self, idx: CellIdx, value: Digit, Ghost(g2): Ghost<Seq<Option<Digit>>>)
        requires
            old(self).wf(),
            old(self).matches(g2),
            grid_seq_wf(g2),
            g2[idx.rm()] == Some(value),
            forall|j: int|
                0 <= j < 81 && j != idx.rm() && same_unit(idx.rm(), j) ==> g2[j] != Some(value),
        ensures
            final (self).wf(),
            final (self).matches(g2.update(idx.rm(), None)),
    {
        let i = idx.row.to_u8();
        let j = idx.col.to_u8();
        let b = idx.box_() as u8;
        let v = value.to_u8();
        self.rows.unset((i, v));
        self.cols.unset((j, v));
        self.boxes.unset((b, v));
        proof {
            lemma_cell_id(idx.rm());
            lemma_used_update_unset(g2, idx.rm(), value);
            lemma_digit_index_inverse();
            let g3 = g2.update(idx.rm(), None);
            assert forall|u: int, d: int|
                0 <= u < 9 && 0 <= d < 9 implies (#[trigger] self.rows.mbit(u, d)) == used_in_row(
                g3,
                u,
                Digit::spec_from_index(d),
            ) by {
                assert(Digit::spec_from_index(d).as_int() == d);
            }
            assert forall|u: int, d: int|
                0 <= u < 9 && 0 <= d < 9 implies (#[trigger] self.cols.mbit(u, d)) == used_in_col(
                g3,
                u,
                Digit::spec_from_index(d),
            ) by {
                assert(Digit::spec_from_index(d).as_int() == d);
            }
            assert forall|u: int, d: int|
                0 <= u < 9 && 0 <= d < 9 implies (#[trigger] self.boxes.mbit(u, d)) == used_in_box(
                g3,
                u,
                Digit::spec_from_index(d),
            ) by {
                assert(Digit::spec_from_index(d).as_int() == d);
            }
        }
    }

    /// The domain of cell `idx`: the union of the used-digit sets of its row,
    /// column and box, so that the clear bits are the still-possible digits.
    pub fn domain(&self, idx: CellIdx) -> (r: Domain)
        requires
            self.wf(),
        ensures
            r.wf(),
            forall|d: Digit|
                #[trigger] r.has_candidate(d) == !(self.rows.mbit(idx.row.as_int(), d.as_int())
                    || self.cols.mbit(idx.col.as_int(), d.as_int()) || self.boxes.mbit(
                    cell_box(idx.rm()),
                    d.as_int(),
                )),
    {
        let i = idx.row.to_u8();
        let j = idx.col.to_u8();
        let b = idx.box_() as u8;
        proof {
            lemma_cell_id(idx.rm());
        }
        let bits = self.rows.row(i).union(self.cols.row(j)).union(self.boxes.row(b));
        Domain(bits)
    }

    /// Builds the matrices from every placed digit of `grid`.
    pub fn from_grid(grid: &ArrGrid) -> (r: Constraints)
        requires
            grid.well_formed(),
        ensures
            r.wf(),
            r.matches(grid.cells()),
    {
        let ghost g = grid.cells();
        let mut t = Constraints::new();
        let mut u: usize = 0;
        while u < 9
            invariant
                grid.well_formed(),
                g == grid.cells(),
                t.wf(),
                u <= 9,
                forall|u2: int, d: int|
                    0 <= u2 < 9 && 0 <= d < 9 ==> (#[trigger] t.rows.mbit(u2, d)) == (u2 < u
                        && used_in_row(g, u2, Digit::spec_from_index(d))),
                forall|u2: int, d: int| 0 <= u2 < 9 && 0 <= d < 9 ==> !(#[trigger] t.cols.mbit(u2, d)),
                forall|u2: int, d: int|
                    0 <= u2 < 9 && 0 <= d < 9 ==> !(#[trigger] t.boxes.mbit(u2, d)),
            decreases 9 - u,
        {
            let mut k: usize = 0;
            while k < 9
                invariant
                    grid.well_formed(),
                    g == grid.cells(),
                    t.wf(),
                    u < 9,
                    k <= 9,
                    forall|d: int|
                        0 <= d < 9 ==> (#[trigger] t.rows.mbit(u as int, d)) == exists|j: int|
                            0 <= j < k && #[trigger] g[(u as int) * 9 + j] == Some(
                                Digit::spec_from_index(d),
                            ),
                    forall|u2: int, d: int|
                        0 <= u2 < 9 && 0 <= d < 9 && u2 != u ==> (#[trigger] t.rows.mbit(u2, d)) == (
                        u2 < u && used_in_row(g, u2, Digit::spec_from_index(d))),
                    forall|u2: int, d: int|
                        0 <= u2 < 9 && 0 <= d < 9 ==> !(#[trigger] t.cols.mbit(u2, d)),
                    forall|u2: int, d: int|
                        0 <= u2 < 9 && 0 <= d < 9 ==> !(#[trigger] t.boxes.mbit(u2, d)),
                decreases 9 - k,
            {
                let cell = CellIdx { row: RowIdx::from_u8(u as u8), col: ColIdx::from_u8(k as u8) };
                assert(cell.rm() == (u as int) * 9 + k);
                match grid.get(cell) {
                    None => {
                        proof {
                            assert forall|d: int| 0 <= d < 9 implies (#[trigger] t.rows.mbit(
                                u as int,
                                d,
                            )) == exists|j: int|
                                0 <= j < k + 1 && #[trigger] g[(u as int) * 9 + j] == Some(
                                    Digit::spec_from_index(d),
                                ) by {
                                if t.rows.mbit(u as int, d) {
                                    let j = choose|j: int|
                                        0 <= j < k && #[trigger] g[(u as int) * 9 + j] == Some(
                                            Digit::spec_from_index(d),
                                        );
                                    assert(0 <= j < k + 1 && g[(u as int) * 9 + j] == Some(
                                        Digit::spec_from_index(d),
                                    ));
                                }
                            }
                        }
                    },
                    Some(dv) => {
                        let dvu = dv.to_u8();
                        t.rows.set((u as u8, dvu));
                        proof {
                            lemma_digit_index_inverse();
                            assert forall|d: int| 0 <= d < 9 implies (#[trigger] t.rows.mbit(
                                u as int,
                                d,
                            )) == exists|j: int|
                                0 <= j < k + 1 && #[trigger] g[(u as int) * 9 + j] == Some(
                                    Digit::spec_from_index(d),
                                ) by {
                                if d == dv.as_int() {
                                    assert(g[(u as int) * 9 + k] == Some(Digit::spec_from_index(d)));
                                } else {
                                    if t.rows.mbit(u as int, d) {
                                        let j = choose|j: int|
                                            0 <= j < k && #[trigger] g[(u as int) * 9 + j] == Some(
                                                Digit::spec_from_index(d),
                                            );
                                        assert(0 <= j < k + 1 && g[(u as int) * 9 + j] == Some(
                                            Digit::spec_from_index(d),
                                        ));
                                    } else {
                                        assert forall|j: int|
                                            0 <= j < k + 1 && #[trigger] g[(u as int) * 9 + j]
                                                == Some(Digit::spec_from_index(d)) implies false by {
                                            if j < k {
                                                assert(t.rows.mbit(u as int, d));
                                            } else {
                                                assert(Digit::spec_from_index(d) == dv);
                                            }
                                        }
                                    }
                                }
                            }
                        }
                    },
                }
                k = k + 1;
            }
            u = u + 1;
        }
        let mut u: usize = 0;
        while u < 9
            invariant
                grid.well_formed(),
                g == grid.cells(),
                t.wf(),
                u <= 9,
                forall|u2: int, d: int|
                    0 <= u2 < 9 && 0 <= d < 9 ==> (#[trigger] t.rows.mbit(u2, d)) == used_in_row(
                        g,
                        u2,
                        Digit::spec_from_index(d),
                    ),
                forall|u2: int, d: int|
                    0 <= u2 < 9 && 0 <= d < 9 ==> (#[trigger] t.cols.mbit(u2, d)) == (u2 < u
                        && used_in_col(g, u2, Digit::spec_from_index(d))),
                forall|u2: int, d: int|
                    0 <= u2 < 9 && 0 <= d < 9 ==> !(#[trigger] t.boxes.mbit(u2, d)),
            decreases 9 - u,
        {
            let mut k: usize = 0;
            while k < 9
                invariant
                    grid.well_formed(),
                    g == grid.cells(),
                    t.wf(),
                    u < 9,
                    k <= 9,
                    forall|d: int|
                        0 <= d < 9 ==> (#[trigger] t.cols.mbit(u as int, d)) == exists|i: int|
                            0 <= i < k && #[trigger] g[i * 9 + (u as int)] == Some(
                                Digit::spec_from_index(d),
                            ),
                    forall|u2: int, d: int|
                        0 <= u2 < 9 && 0 <= d < 9 ==> (#[trigger] t.rows.mbit(u2, d)) == used_in_row(
                            g,
                            u2,
                            Digit::spec_from_index(d),
                        ),
                    forall|u2: int, d: int|
                        0 <= u2 < 9 && 0 <= d < 9 && u2 != u ==> (#[trigger] t.cols.mbit(u2, d)) == (
                        u2 < u && used_in_col(g, u2, Digit::spec_from_index(d))),
                    forall|u2: int, d: int|
                        0 <= u2 < 9 && 0 <= d < 9 ==> !(#[trigger] t.boxes.mbit(u2, d)),
                decreases 9 - k,
            {
                let cell = CellIdx { row: RowIdx::from_u8(k as u8), col: ColIdx::from_u8(u as u8) };
                assert(cell.rm() == (k as int) * 9 + u);
                match grid.get(cell) {
                    None => {
                        proof {
                            assert forall|d: int| 0 <= d < 9 implies (#[trigger] t.cols.mbit(
                                u as int,
                                d,
                            )) == exists|i: int|
                                0 <= i < k + 1 && #[trigger] g[i * 9 + (u as int)] == Some(
                                    Digit::spec_from_index(d),
                                ) by {
                                if t.cols.mbit(u as int, d) {
                                    let i = choose|i: int|
                                        0 <= i < k && #[trigger] g[i * 9 + (u as int)] == Some(
                                            Digit::spec_from_index(d),
                                        );
                                    assert(0 <= i < k + 1 && g[i * 9 + (u as int)] == Some(
                                        Digit::spec_from_index(d),
                                    ));
                                }
                            }
                        }
                    },
                    Some(dv) => {
                        let dvu = dv.to_u8();
                        t.cols.set((u as u8, dvu));
                        proof {
                            lemma_digit_index_inverse();
                            assert forall|d: int| 0 <= d < 9 implies (#[trigger] t.cols.mbit(
                                u as int,
                                d,
                            )) == exists|i: int|
                                0 <= i < k + 1 && #[trigger] g[i * 9 + (u as int)] == Some(
                                    Digit::spec_from_index(d),
                                ) by {
                                if d == dv.as_int() {
                                    assert(g[(k as int) * 9 + (u as int)] == Some(
                                        Digit::spec_from_index(d),
                                    ));
                                } else {
                                    if t.cols.mbit(u as int, d) {
                                        let i = choose|i: int|
                                            0 <= i < k && #[trigger] g[i * 9 + (u as int)] == Some(
                                                Digit::spec_from_index(d),
                                            );
                                        assert(0 <= i < k + 1 && g[i * 9 + (u as int)] == Some(
                                            Digit::spec_from_index(d),
                                        ));
                                    } else {
                                        assert forall|i: int|
                                            0 <= i < k + 1 && #[trigger] g[i * 9 + (u as int)]
                                                == Some(Digit::spec_from_index(d)) implies false by {
                                            if i < k {
                                                assert(t.cols.mbit(u as int, d));
                                            } else {
                                                assert(Digit::spec_from_index(d) == dv);
                                            }
                                        }
                                    }
                                }
                            }
                        }
                    },
                }
                k = k + 1;
            }
            u = u + 1;
        }
        let mut u: usize = 0;
        while u < 9
            invariant
                grid.well_formed(),
                g == grid.cells(),
                t.wf(),
                u <= 9,
                forall|u2: int, d: int|
                    0 <= u2 < 9 && 0 <= d < 9 ==> (#[trigger] t.rows.mbit(u2, d)) == used_in_row(
                        g,
                        u2,
                        Digit::spec_from_index(d),
                    ),
                forall|u2: int, d: int|
                    0 <= u2 < 9 && 0 <= d < 9 ==> (#[trigger] t.cols.mbit(u2, d)) == used_in_col(
                        g,
                        u2,
                        Digit::spec_from_index(d),
                    ),
                forall|u2: int, d: int|
                    0 <= u2 < 9 && 0 <= d < 9 ==> (#[trigger] t.boxes.mbit(u2, d)) == (u2 < u
                        && used_in_box(g, u2, Digit::spec_from_index(d))),
            decreases 9 - u,
        {
            let mut k: usize = 0;
            while k < 9
                invariant
                    grid.well_formed(),
                    g == grid.cells(),
                    t.wf(),
                    u < 9,
                    k <= 9,
                    forall|d: int|
                        0 <= d < 9 ==> (#[trigger] t.boxes.mbit(u as int, d)) == exists|k2: int|
                            0 <= k2 < k && #[trigger] g[box_cell(u as int, k2)] == Some(
                                Digit::spec_from_index(d),
                            ),
                    forall|u2: int, d: int|
                        0 <= u2 < 9 && 0 <= d < 9 ==> (#[trigger] t.rows.mbit(u2, d)) == used_in_row(
                            g,
                            u2,
                            Digit::spec_from_index(d),
                        ),
                    forall|u2: int, d: int|
                        0 <= u2 < 9 && 0 <= d < 9 ==> (#[trigger] t.cols.mbit(u2, d)) == used_in_col(
                            g,
                            u2,
                            Digit::spec_from_index(d),
                        ),
                    forall|u2: int, d: int|
                        0 <= u2 < 9 && 0 <= d < 9 && u2 != u ==> (#[trigger] t.boxes.mbit(u2, d))
                            == (u2 < u && used_in_box(g, u2, Digit::spec_from_index(d))),
                decreases 9 - k,
            {
                proof {
                    lemma_box_cell_range(u as int, k as int);
                }
                let b = u;
                let ci = (b / 3 * 3 + k / 3) * 9 + (b % 3 * 3 + k % 3);
                let cell = match CellIdx::try_of_row_major(ci) {
                    Ok(c) => c,
                    Err(_) => CellIdx { row: RowIdx::Row0, col: ColIdx::Col0 },
                };
                assert(cell.rm() == box_cell(u as int, k as int));
                match grid.get(cell) {
                    None => {
                        proof {
                            assert forall|d: int| 0 <= d < 9 implies (#[trigger] t.boxes.mbit(
                                u as int,
                                d,
                            )) == exists|k2: int|
                                0 <= k2 < k + 1 && #[trigger] g[box_cell(u as int, k2)] == Some(
                                    Digit::spec_from_index(d),
                                ) by {
                                if t.boxes.mbit(u as int, d) {
                                    let k2 = choose|k2: int|
                                        0 <= k2 < k && #[trigger] g[box_cell(u as int, k2)] == Some(
                                            Digit::spec_from_index(d),
                                        );
                                    assert(0 <= k2 < k + 1 && g[box_cell(u as int, k2)] == Some(
                                        Digit::spec_from_index(d),
                                    ));
                                }
                            }
                        }
                    },
                    Some(dv) => {
                        let dvu = dv.to_u8();
                        t.boxes.set((u as u8, dvu));
                        proof {
                            lemma_digit_index_inverse();
                            assert forall|d: int| 0 <= d < 9 implies (#[trigger] t.boxes.mbit(
                                u as int,
                                d,
                            )) == exists|k2: int|
                                0 <= k2 < k + 1 && #[trigger] g[box_cell(u as int, k2)] == Some(
                                    Digit::spec_from_index(d),
                                ) by {
                                if d == dv.as_int() {
                                    assert(g[box_cell(u as int, k as int)] == Some(
                                        Digit::spec_from_index(d),
                                    ));
                                } else {
                                    if t.boxes.mbit(u as int, d) {
                                        let k2 = choose|k2: int|
                                            0 <= k2 < k && #[trigger] g[box_cell(u as int, k2)]
                                                == Some(Digit::spec_from_index(d));
                                        assert(0 <= k2 < k + 1 && g[box_cell(u as int, k2)] == Some(
                                            Digit::spec_from_index(d),
                                        ));
                                    } else {
                                        assert forall|k2: int|
                                            0 <= k2 < k + 1 && #[trigger] g[box_cell(u as int, k2)]
                                                == Some(Digit::spec_from_index(d)) implies false by {
                                            if k2 < k {
                                                assert(t.boxes.mbit(u as int, d));
                                            } else {
                                                assert(Digit::spec_from_index(d) == dv);
                                            }
                                        }
                                    }
                                }
                            }
                        }
                    },
                }
                k = k + 1;
            }
            u = u + 1;
        }
        t
    }
}

/// How the three used-digit relations change when a digit lands on an empty cell.
pub proof fn lemma_used_update_set(g: Seq<Option<Digit>>, i: int, d: Digit)
    requires
        grid_seq_wf(g),
        0 <= i < 81,
        g[i] is None,
    ensures
        forall|u: int, dd: Digit|
            0 <= u < 9 ==> #[trigger] used_in_row(g.update(i, Some(d)), u, dd) == (used_in_row(
                g,
                u,
                dd,
            ) || (u == cell_row(i) && dd == d)),
        forall|u: int, dd: Digit|
            0 <= u < 9 ==> #[trigger] used_in_col(g.update(i, Some(d)), u, dd) == (used_in_col(
                g,
                u,
                dd,
            ) || (u == cell_col(i) && dd == d)),
        forall|u: int, dd: Digit|
            0 <= u < 9 ==> #[trigger] used_in_box(g.update(i, Some(d)), u, dd) == (used_in_box(
                g,
                u,
                dd,
            ) || (u == cell_box(i) && dd == d)),
{
    let g2 = g.update(i, Some(d));
    lemma_cell_id(i);
    assert forall|u: int, dd: Digit| 0 <= u < 9 implies #[trigger] used_in_row(g2, u, dd) == (
    used_in_row(g, u, dd) || (u == cell_row(i) && dd == d)) by {
        if used_in_row(g2, u, dd) {
            let j = choose|j: int| 0 <= j < 9 && #[trigger] g2[u * 9 + j] == Some(dd);
            if u * 9 + j == i {
                assert(u == cell_row(i) && dd == d);
            } else {
                assert(g[u * 9 + j] == Some(dd));
            }
        }
        if used_in_row(g, u, dd) {
            let j = choose|j: int| 0 <= j < 9 && #[trigger] g[u * 9 + j] == Some(dd);
            assert(u * 9 + j != i);
            assert(g2[u * 9 + j] == Some(dd));
        }
        if u == cell_row(i) && dd == d {
            assert(g2[u * 9 + cell_col(i)] == Some(dd));
        }
    }
    assert forall|u: int, dd: Digit| 0 <= u < 9 implies #[trigger] used_in_col(g2, u, dd) == (
    used_in_col(g, u, dd) || (u == cell_col(i) && dd == d)) by {
        if used_in_col(g2, u, dd) {
            let j = choose|j: int| 0 <= j < 9 && #[trigger] g2[j * 9 + u] == Some(dd);
            if j * 9 + u == i {
                assert(u == cell_col(i) && dd == d);
            } else {
                assert(g[j * 9 + u] == Some(dd));
            }
        }
        if used_in_col(g, u, dd) {
            let j = choose|j: int| 0 <= j < 9 && #[trigger] g[j * 9 + u] == Some(dd);
            assert(j * 9 + u != i);
            assert(g2[j * 9 + u] == Some(dd));
        }
        if u == cell_col(i) && dd == d {
            assert(g2[cell_row(i) * 9 + u] == Some(dd));
        }
    }
    assert forall|u: int, dd: Digit| 0 <= u < 9 implies #[trigger] used_in_box(g2, u, dd) == (
    used_in_box(g, u, dd) || (u == cell_box(i) && dd == d)) by {
        if used_in_box(g2, u, dd) {
            let k = choose|k: int| 0 <= k < 9 && #[trigger] g2[box_cell(u, k)] == Some(dd);
            lemma_box_cell_range(u, k);
            if box_cell(u, k) == i {
                assert(u == cell_box(i) && dd == d);
            } else {
                assert(g[box_cell(u, k)] == Some(dd));
            }
        }
        if used_in_box(g, u, dd) {
            let k = choose|k: int| 0 <= k < 9 && #[trigger] g[box_cell(u, k)] == Some(dd);
            lemma_box_cell_range(u, k);
            assert(box_cell(u, k) != i);
            assert(g2[box_cell(u, k)] == Some(dd));
        }
        if u == cell_box(i) && dd == d {
            assert(g2[box_cell(u, box_pos(i))] == Some(dd));
        }
    }
}

/// How the used-digit relations change when a digit leaves a cell that held it
/// alone among its units.
pub proof fn lemma_used_update_unset(g2: Seq<Option<Digit>>, i: int, d: Digit)
    requires
        grid_seq_wf(g2),
        0 <= i < 81,
        g2[i] == Some(d),
        forall|j: int| 0 <= j < 81 && j != i && same_unit(i, j) ==> g2[j] != Some(d),
    ensures
        forall|u: int, dd: Digit|
            0 <= u < 9 ==> #[trigger] used_in_row(g2.update(i, None), u, dd) == (used_in_row(
                g2,
                u,
                dd,
            ) && !(u == cell_row(i) && dd == d)),
        forall|u: int, dd: Digit|
            0 <= u < 9 ==> #[trigger] used_in_col(g2.update(i, None), u, dd) == (used_in_col(
                g2,
                u,
                dd,
            ) && !(u == cell_col(i) && dd == d)),
        forall|u: int, dd: Digit|
            0 <= u < 9 ==> #[trigger] used_in_box(g2.update(i, None), u, dd) == (used_in_box(
                g2,
                u,
                dd,
            ) && !(u == cell_box(i) && dd == d)),
{
    lemma_used_update_unset_row(g2, i, d);
    lemma_used_update_unset_col(g2, i, d);
    lemma_used_update_unset_box(g2, i, d);
}

#[verifier::rlimit(100)]
proof fn lemma_used_update_unset_row(g2: Seq<Option<Digit>>, i: int, d: Digit)
    requires
        grid_seq_wf(g2),
        0 <= i < 81,
        g2[i] == Some(d),
        forall|j: int| 0 <= j < 81 && j != i && same_unit(i, j) ==> g2[j] != Some(d),
    ensures
        forall|u: int, dd: Digit|
            0 <= u < 9 ==> #[trigger] used_in_row(g2.update(i, None), u, dd) == (used_in_row(
                g2,
                u,
                dd,
            ) && !(u == cell_row(i) && dd == d)),
{
    let g3 = g2.update(i, None);
    lemma_cell_id(i);
    assert forall|u: int, dd: Digit| 0 <= u < 9 implies #[trigger] used_in_row(g3, u, dd) == (
    used_in_row(g2, u, dd) && !(u == cell_row(i) && dd == d)) by {
        if used_in_row(g3, u, dd) {
            let j = choose|j: int| 0 <= j < 9 && #[trigger] g3[u * 9 + j] == Some(dd);
            assert(u * 9 + j != i);
            assert(g2[u * 9 + j] == Some(dd));
            if u == cell_row(i) && dd == d {
                assert(cell_row(u * 9 + j) == u);
                assert(same_unit(i, u * 9 + j));
                assert(false);
            }
        }
        if used_in_row(g2, u, dd) && !(u == cell_row(i) && dd == d) {
            let j = choose|j: int| 0 <= j < 9 && #[trigger] g2[u * 9 + j] == Some(dd);
            if u * 9 + j == i {
                assert(u == cell_row(i) && dd == d);
                assert(false);
            }
            assert(g3[u * 9 + j] == Some(dd));
        }
    }
}

#[verifier::rlimit(100)]
proof fn lemma_used_update_unset_col(g2: Seq<Option<Digit>>, i: int, d: Digit)
    requires
        grid_seq_wf(g2),
        0 <= i < 81,
        g2[i] == Some(d),
        forall|j: int| 0 <= j < 81 && j != i && same_unit(i, j) ==> g2[j] != Some(d),
    ensures
        forall|u: int, dd: Digit|
            0 <= u < 9 ==> #[trigger] used_in_col(g2.update(i, None), u, dd) == (used_in_col(
                g2,
                u,
                dd,
            ) && !(u == cell_col(i) && dd == d)),
{
    let g3 = g2.update(i, None);
    lemma_cell_id(i);
    assert forall|u: int, dd: Digit| 0 <= u < 9 implies #[trigger] used_in_col(g3, u, dd) == (
    used_in_col(g2, u, dd) && !(u == cell_col(i) && dd == d)) by {
        if used_in_col(g3, u, dd) {
            let j = choose|j: int| 0 <= j < 9 && #[trigger] g3[j * 9 + u] == Some(dd);
            crate::grid::lemma_rowcol_of(j, u);
            assert(j * 9 + u != i);
            assert(g2[j * 9 + u] == Some(dd));
            if u == cell_col(i) && dd == d {
                assert(same_unit(i, j * 9 + u));
                assert(false);
            }
        }
        if used_in_col(g2, u, dd) && !(u == cell_col(i) && dd == d) {
            let j = choose|j: int| 0 <= j < 9 && #[trigger] g2[j * 9 + u] == Some(dd);
            crate::grid::lemma_rowcol_of(j, u);
            if j * 9 + u == i {
                assert(u == cell_col(i) && dd == d);
                assert(false);
            }
            assert(g3[j * 9 + u] == Some(dd));
        }
    }
}

#[verifier::rlimit(100)]
proof fn lemma_used_update_unset_box(g2: Seq<Option<Digit>>, i: int, d: Digit)
    requires
        grid_seq_wf(g2),
        0 <= i < 81,
        g2[i] == Some(d),
        forall|j: int| 0 <= j < 81 && j != i && same_unit(i, j) ==> g2[j] != Some(d),
    ensures
        forall|u: int, dd: Digit|
            0 <= u < 9 ==> #[trigger] used_in_box(g2.update(i, None), u, dd) == (used_in_box(
                g2,
                u,
                dd,
            ) && !(u == cell_box(i) && dd == d)),
{
    let g3 = g2.update(i, None);
    lemma_cell_id(i);
    assert forall|u: int, dd: Digit| 0 <= u < 9 implies #[trigger] used_in_box(g3, u, dd) == (
    used_in_box(g2, u, dd) && !(u == cell_box(i) && dd == d)) by {
        if used_in_box(g3, u, dd) {
            let k = choose|k: int| 0 <= k < 9 && #[trigger] g3[box_cell(u, k)] == Some(dd);
            lemma_box_cell_range(u, k);
            assert(box_cell(u, k) != i);
            assert(g2[box_cell(u, k)] == Some(dd));
            if u == cell_box(i) && dd == d {
                assert(cell_box(box_cell(u, k)) == u);
                assert(same_unit(i, box_cell(u, k)));
                assert(false);
            }
        }
        if used_in_box(g2, u, dd) && !(u == cell_box(i) && dd == d) {
            let k = choose|k: int| 0 <= k < 9 && #[trigger] g2[box_cell(u, k)] == Some(dd);
            lemma_box_cell_range(u, k);
            if box_cell(u, k) == i {
                assert(u == cell_box(i) && dd == d);
                assert(false);
            }
            assert(g3[box_cell(u, k)] == Some(dd));
        }
    }
}


// ---------------------------------------------------------------------------
// Batches of tentative placements: the single commit and rollback point.
// ---------------------------------------------------------------------------
/// A batch the search may commit against grid `g`: distinct empty cells,
/// distinct digits, every digit allowed at its cell.
pub open spec fn batch_ok(g: Seq<Option<Digit>>, ps: Seq<(CellIdx, Digit)>) -> bool {
    &&& forall|k: int| 0 <= k < ps.len() ==> g[(#[trigger] ps[k]).0.rm()] is None
    &&& forall|k: int| 0 <= k < ps.len() ==> !forbidden(g, (#[trigger] ps[k]).0.rm(), ps[k].1)
    &&& forall|k1: int, k2: int|
        0 <= k1 < k2 < ps.len() ==> (#[trigger] ps[k1]).0.rm() != (#[trigger] ps[k2]).0.rm()
    &&& forall|k1: int, k2: int|
        0 <= k1 < k2 < ps.len() ==> (#[trigger] ps[k1]).1 != (#[trigger] ps[k2]).1
}

/// Some entry of `ps` names cell `i`.
pub open spec fn ps_covers(ps: Seq<(CellIdx, Digit)>, i: int) -> bool {
    exists|k: int| 0 <= k < ps.len() && (#[trigger] ps[k]).0.rm() == i
}

/// Placing the first entry of an admissible batch leaves the rest admissible.
pub proof fn lemma_batch_ok_step(g: Seq<Option<Digit>>, ps: Seq<(CellIdx, Digit)>)
    requires
        grid_seq_wf(g),
        batch_ok(g, ps),
        ps.len() > 0,
    ensures
        batch_ok(g.update(ps[0].0.rm(), Some(ps[0].1)), ps.drop_first()),
{
    let i0 = ps[0].0.rm();
    let d0 = ps[0].1;
    let g2 = g.update(i0, Some(d0));
    let rest = ps.drop_first();
    lemma_cell_id(i0);
    lemma_used_update_set(g, i0, d0);
    assert forall|k: int| 0 <= k < rest.len() implies g2[(#[trigger] rest[k]).0.rm()] is None by {
        assert(rest[k] == ps[k + 1]);
        assert(ps[k + 1].0.rm() != i0);
    }
    assert forall|k: int| 0 <= k < rest.len() implies !forbidden(
        g2,
        (#[trigger] rest[k]).0.rm(),
        rest[k].1,
    ) by {
        assert(rest[k] == ps[k + 1]);
        let c = ps[k + 1].0.rm();
        let dd = ps[k + 1].1;
        lemma_cell_id(c);
        assert(dd != d0);
        assert(!forbidden(g, c, dd));
        assert(used_in_row(g2, cell_row(c), dd) == (used_in_row(g, cell_row(c), dd) || (cell_row(c)
            == cell_row(i0) && dd == d0)));
        assert(used_in_col(g2, cell_col(c), dd) == (used_in_col(g, cell_col(c), dd) || (cell_col(c)
            == cell_col(i0) && dd == d0)));
        assert(used_in_box(g2, cell_box(c), dd) == (used_in_box(g, cell_box(c), dd) || (cell_box(c)
            == cell_box(i0) && dd == d0)));
    }
    assert forall|k1: int, k2: int| 0 <= k1 < k2 < rest.len() implies (#[trigger] rest[k1]).0.rm()
        != (#[trigger] rest[k2]).0.rm() by {
        assert(rest[k1] == ps[k1 + 1] && rest[k2] == ps[k2 + 1]);
    }
    assert forall|k1: int, k2: int| 0 <= k1 < k2 < rest.len() implies (#[trigger] rest[k1]).1 != (
    #[trigger] rest[k2]).1 by {
        assert(rest[k1] == ps[k1 + 1] && rest[k2] == ps[k2 + 1]);
    }
}

/// What applying an admissible batch does, cell by cell.
pub proof fn lemma_apply_pointwise(g: Seq<Option<Digit>>, ps: Seq<(CellIdx, Digit)>)
    requires
        grid_seq_wf(g),
        batch_ok(g, ps),
    ensures
        apply_placements(g, ps).len() == g.len(),
        forall|k: int|
            0 <= k < ps.len() ==> apply_placements(g, ps)[(#[trigger] ps[k]).0.rm()] == Some(
                ps[k].1,
            ),
        forall|i: int|
            0 <= i < g.len() && !ps_covers(ps, i) ==> apply_placements(g, ps)[i] == g[i],
    decreases ps.len(),
{
    if ps.len() > 0 {
        let i0 = ps[0].0.rm();
        let d0 = ps[0].1;
        let g2 = g.update(i0, Some(d0));
        let rest = ps.drop_first();
        lemma_cell_id(i0);
        lemma_batch_ok_step(g, ps);
        lemma_apply_pointwise(g2, rest);
        assert(apply_placements(g, ps) == apply_placements(g2, rest));
        assert forall|k: int| 0 <= k < ps.len() implies apply_placements(g, ps)[(
        #[trigger] ps[k]).0.rm()] == Some(ps[k].1) by {
            if k == 0 {
                assert(!ps_covers(rest, i0)) by {
                    if ps_covers(rest, i0) {
                        let k2 = choose|k2: int|
                            0 <= k2 < rest.len() && (#[trigger] rest[k2]).0.rm() == i0;
                        assert(rest[k2] == ps[k2 + 1]);
                        assert(ps[k2 + 1].0.rm() != ps[0].0.rm());
                    }
                }
                assert(apply_placements(g2, rest)[i0] == g2[i0]);
            } else {
                assert(ps[k] == rest[k - 1]);
                assert(apply_placements(g2, rest)[rest[k - 1].0.rm()] == Some(rest[k - 1].1));
            }
        }
        assert forall|i: int| 0 <= i < g.len() && !ps_covers(ps, i) implies apply_placements(
            g,
            ps,
        )[i] == g[i] by {
            assert(!ps_covers(rest, i)) by {
                if ps_covers(rest, i) {
                    let k2 = choose|k2: int|
                        0 <= k2 < rest.len() && (#[trigger] rest[k2]).0.rm() == i;
                    assert(rest[k2] == ps[k2 + 1]);
                    assert(ps_covers(ps, i));
                }
            }
            assert(i != i0) by {
                if i == i0 {
                    assert(ps[0].0.rm() == i);
                    assert(ps_covers(ps, i));
                }
            }
            assert(apply_placements(g2, rest)[i] == g2[i]);
        }
    }
}

/// What applying any distinct-cell placement list does, cell by cell.
pub proof fn lemma_apply_pointwise_distinct(g: Seq<Option<Digit>>, ps: Seq<(CellIdx, Digit)>)
    requires
        grid_seq_wf(g),
        forall|k1: int, k2: int|
            0 <= k1 < k2 < ps.len() ==> (#[trigger] ps[k1]).0.rm() != (#[trigger] ps[k2]).0.rm(),
    ensures
        apply_placements(g, ps).len() == g.len(),
        forall|k: int|
            0 <= k < ps.len() ==> apply_placements(g, ps)[(#[trigger] ps[k]).0.rm()] == Some(
                ps[k].1,
            ),
        forall|i: int|
            0 <= i < g.len() && !ps_covers(ps, i) ==> apply_placements(g, ps)[i] == g[i],
    decreases ps.len(),
{
    if ps.len() > 0 {
        let i0 = ps[0].0.rm();
        let d0 = ps[0].1;
        let g2 = g.update(i0, Some(d0));
        let rest = ps.drop_first();
        lemma_cell_id(i0);
        assert forall|k1: int, k2: int|
            0 <= k1 < k2 < rest.len() implies (#[trigger] rest[k1]).0.rm() != (
        #[trigger] rest[k2]).0.rm() by {
            assert(rest[k1] == ps[k1 + 1] && rest[k2] == ps[k2 + 1]);
        }
        lemma_apply_pointwise_distinct(g2, rest);
        assert(apply_placements(g, ps) == apply_placements(g2, rest));
        assert forall|k: int| 0 <= k < ps.len() implies apply_placements(g, ps)[(
        #[trigger] ps[k]).0.rm()] == Some(ps[k].1) by {
            if k == 0 {
                assert(!ps_covers(rest, i0)) by {
                    if ps_covers(rest, i0) {
                        let k2 = choose|k2: int|
                            0 <= k2 < rest.len() && (#[trigger] rest[k2]).0.rm() == i0;
                        assert(rest[k2] == ps[k2 + 1]);
                        assert(ps[k2 + 1].0.rm() != ps[0].0.rm());
                    }
                }
                assert(apply_placements(g2, rest)[i0] == g2[i0]);
            } else {
                assert(ps[k] == rest[k - 1]);
                assert(apply_placements(g2, rest)[rest[k - 1].0.rm()] == Some(rest[k - 1].1));
            }
        }
        assert forall|i: int| 0 <= i < g.len() && !ps_covers(ps, i) implies apply_placements(
            g,
            ps,
        )[i] == g[i] by {
            assert(!ps_covers(rest, i)) by {
                if ps_covers(rest, i) {
                    let k2 = choose|k2: int|
                        0 <= k2 < rest.len() && (#[trigger] rest[k2]).0.rm() == i;
                    assert(rest[k2] == ps[k2 + 1]);
                    assert(ps_covers(ps, i));
                }
            }
            assert(i != i0) by {
                if i == i0 {
                    assert(ps[0].0.rm() == i);
                    assert(ps_covers(ps, i));
                }
            }
            assert(apply_placements(g2, rest)[i] == g2[i]);
        }
    }
}

/// Appending one placement applies it last.
pub proof fn lemma_apply_snoc(g: Seq<Option<Digit>>, ps: Seq<(CellIdx, Digit)>, x: (CellIdx, Digit))
    ensures
        apply_placements(g, ps.push(x)) == apply_placements(g, ps).update(x.0.rm(), Some(x.1)),
    decreases ps.len(),
{
    if ps.len() == 0 {
        assert(ps.push(x).drop_first() =~= Seq::<(CellIdx, Digit)>::empty());
        assert(apply_placements(g, ps.push(x)) == apply_placements(
            g.update(x.0.rm(), Some(x.1)),
            ps.push(x).drop_first(),
        ));
    } else {
        let g2 = g.update(ps[0].0.rm(), Some(ps[0].1));
        assert(ps.push(x).drop_first() =~= ps.drop_first().push(x));
        lemma_apply_snoc(g2, ps.drop_first(), x);
    }
}

/// Commits a batch: writes the digits into the grid, marks the constraints,
/// and appends the entries to the diff log.
fn commit_batch(
    grid: &mut ArrGrid,
    cons: &mut Constraints,
    diff: &mut Vec<(CellIdx, Digit)>,
    batch: &Vec<(CellIdx, Digit)>,
)
    requires
        old(grid).well_formed(),
        old(cons).wf(),
        old(cons).matches(old(grid).cells()),
        batch_ok(old(grid).cells(), batch@),
    ensures
        final (grid).well_formed(),
        final (cons).wf(),
        final (cons).matches(final (grid).cells()),
        final (grid).cells() == apply_placements(old(grid).cells(), batch@),
        final (diff)@ == old(diff)@ + batch@,
        grid_valid(old(grid).cells()) ==> grid_valid(final (grid).cells()),
        count_none(final (grid).cells()) + batch@.len() == count_none(old(grid).cells()),
{
    let ghost g0 = grid.cells();
    proof {
        assert(batch@.skip(0) =~= batch@);
        assert(batch@.take(0) =~= Seq::<(CellIdx, Digit)>::empty());
        assert(old(diff)@ + batch@.take(0) =~= old(diff)@);
    }
    let mut p: usize = 0;
    while p < batch.len()
        invariant
            grid.well_formed(),
            cons.wf(),
            cons.matches(grid.cells()),
            p <= batch@.len(),
            batch_ok(grid.cells(), batch@.skip(p as int)),
            apply_placements(g0, batch@) == apply_placements(
                grid.cells(),
                batch@.skip(p as int),
            ),
            diff@ == old(diff)@ + batch@.take(p as int),
            grid_valid(g0) ==> grid_valid(grid.cells()),
            count_none(grid.cells()) + p == count_none(g0),
        decreases batch@.len() - p,
    {
        let (idx, d) = batch[p];
        let ghost gc = grid.cells();
        proof {
            assert(batch@.skip(p as int)[0] == (idx, d));
            assert(batch@.skip(p as int).drop_first() =~= batch@.skip(p + 1));
            lemma_cell_id(idx.rm());
            lemma_batch_ok_step(gc, batch@.skip(p as int));
            if grid_valid(gc) {
                lemma_place_keeps_valid(gc, idx.rm(), d);
            }
            lemma_count_none_update(gc, idx.rm(), d, 81);
        }
        cons.set(idx, d, Ghost(gc));
        grid.put(idx, Some(d));
        diff.push((idx, d));
        proof {
            assert(batch@.take(p + 1) =~= batch@.take(p as int).push((idx, d)));
            assert(diff@ =~= old(diff)@ + batch@.take(p + 1));
        }
        p = p + 1;
    }
    proof {
        assert(batch@.skip(batch@.len() as int) =~= Seq::<(CellIdx, Digit)>::empty());
        assert(batch@.take(batch@.len() as int) =~= batch@);
    }
}

/// Takes a committed batch back in reverse order, restoring grid, constraints
/// and diff log to their state before the commit.
fn rollback_batch(
    grid: &mut ArrGrid,
    cons: &mut Constraints,
    diff: &mut Vec<(CellIdx, Digit)>,
    batch: &Vec<(CellIdx, Digit)>,
    Ghost(g0): Ghost<Seq<Option<Digit>>>,
)
    requires
        old(grid).well_formed(),
        old(cons).wf(),
        old(cons).matches(old(grid).cells()),
        grid_seq_wf(g0),
        batch_ok(g0, batch@),
        old(grid).cells() == apply_placements(g0, batch@),
        old(diff)@.len() >= batch@.len(),
    ensures
        final (grid).well_formed(),
        final (cons).wf(),
        final (grid).cells() == g0,
        final (cons).matches(g0),
        final (diff)@ == old(diff)@.take(old(diff)@.len() - batch@.len()),
{
    let mut p: usize = batch.len();
    proof {
        assert(batch@.take(batch@.len() as int) =~= batch@);
        assert(old(diff)@.take(old(diff)@.len() as int) =~= old(diff)@);
    }
    while p > 0
        invariant
            grid.well_formed(),
            cons.wf(),
            cons.matches(grid.cells()),
            p <= batch@.len(),
            batch@.len() <= old(diff)@.len(),
            grid_seq_wf(g0),
            batch_ok(g0, batch@),
            grid.cells() == apply_placements(g0, batch@.take(p as int)),
            diff@ == old(diff)@.take(old(diff)@.len() - (batch@.len() - p)),
        decreases p,
    {
        p = p - 1;
        let (idx, d) = batch[p];
        let ghost gc = grid.cells();
        let ghost pre = batch@.take(p as int);
        proof {
            assert(batch@[p as int] == (idx, d));
            assert(batch@.take(p + 1) =~= pre.push((idx, d)));
            assert(batch_ok(g0, batch@.take(p + 1))) by {
                lemma_batch_sub(g0, batch@, p + 1);
            }
            assert(batch_ok(g0, pre)) by {
                lemma_batch_sub(g0, batch@, p as int);
            }
            lemma_cell_id(idx.rm());
            lemma_apply_pointwise(g0, batch@.take(p + 1));
            assert(gc[idx.rm()] == Some(d)) by {
                assert(batch@.take(p + 1)[p as int] == (idx, d));
            }
            // No other cell of the three units holds `d` in the committed grid.
            assert forall|j: int|
                0 <= j < 81 && j != idx.rm() && same_unit(idx.rm(), j) implies gc[j] != Some(d) by {
                if ps_covers(batch@.take(p + 1), j) {
                    let k = choose|k: int|
                        0 <= k < p + 1 && (#[trigger] batch@.take(p + 1)[k]).0.rm() == j;
                    assert(gc[j] == Some(batch@.take(p + 1)[k].1));
                    assert(batch@.take(p + 1)[k] == batch@[k]);
                    assert(k != p);
                    assert(batch@[k].1 != d);
                } else {
                    assert(gc[j] == g0[j]);
                    lemma_unused_elsewhere(g0, idx.rm(), d);
                }
            }
            // Clearing the cell lands exactly on the shorter prefix.
            lemma_apply_snoc(g0, pre, (idx, d));
            lemma_apply_pointwise(g0, pre);
            assert(!ps_covers(pre, idx.rm())) by {
                if ps_covers(pre, idx.rm()) {
                    let k = choose|k: int|
                        0 <= k < pre.len() && (#[trigger] pre[k]).0.rm() == idx.rm();
                    assert(pre[k] == batch@[k]);
                    assert(batch@[k].0.rm() != batch@[p as int].0.rm());
                }
            }
            assert(apply_placements(g0, pre)[idx.rm()] == g0[idx.rm()]);
            assert(gc.update(idx.rm(), None) =~= apply_placements(g0, pre));
        }
        cons.unset(idx, d, Ghost(gc));
        grid.put(idx, None);
        let _ = diff.pop();
        proof {
            assert(diff@ =~= old(diff)@.take(old(diff)@.len() - (batch@.len() - p)));
        }
    }
    proof {
        assert(batch@.take(0) =~= Seq::<(CellIdx, Digit)>::empty());
    }
}

/// A prefix of an admissible batch is admissible.
pub proof fn lemma_batch_sub(g: Seq<Option<Digit>>, ps: Seq<(CellIdx, Digit)>, n: int)
    requires
        batch_ok(g, ps),
        0 <= n <= ps.len(),
    ensures
        batch_ok(g, ps.take(n)),
{
    assert forall|k: int| 0 <= k < n implies g[(#[trigger] ps.take(n)[k]).0.rm()] is None by {
        assert(ps.take(n)[k] == ps[k]);
    }
    assert forall|k: int| 0 <= k < n implies !forbidden(
        g,
        (#[trigger] ps.take(n)[k]).0.rm(),
        ps.take(n)[k].1,
    ) by {
        assert(ps.take(n)[k] == ps[k]);
    }
    assert forall|k1: int, k2: int| 0 <= k1 < k2 < n implies (#[trigger] ps.take(n)[k1]).0.rm() != (
    #[trigger] ps.take(n)[k2]).0.rm() by {
        assert(ps.take(n)[k1] == ps[k1] && ps.take(n)[k2] == ps[k2]);
    }
    assert forall|k1: int, k2: int| 0 <= k1 < k2 < n implies (#[trigger] ps.take(n)[k1]).1 != (
    #[trigger] ps.take(n)[k2]).1 by {
        assert(ps.take(n)[k1] == ps[k1] && ps.take(n)[k2] == ps[k2]);
    }
}


// ---------------------------------------------------------------------------
// Domains, the root scan, and what the search promises.
// ---------------------------------------------------------------------------
/// How many of the digit indices `0 .. n` are still allowed at cell `c`.
pub open spec fn candidate_count_below(g: Seq<Option<Digit>>, c: int, n: int) -> nat
    decreases n,
{
    if n <= 0 {
        0
    } else {
        candidate_count_below(g, c, n - 1) + (if !forbidden(g, c, Digit::spec_from_index(n - 1)) {
            1nat
        } else {
            0nat
        })
    }
}

proof fn lemma_candidate_count_bound(g: Seq<Option<Digit>>, c: int, n: int)
    requires
        0 <= n,
    ensures
        candidate_count_below(g, c, n) <= n,
    decreases n,
{
    if n > 0 {
        lemma_candidate_count_bound(g, c, n - 1);
    }
}

/// Cells `a` and `b` allow exactly the same digits.
pub open spec fn dom_eq(g: Seq<Option<Digit>>, a: int, b: int) -> bool {
    forall|dd: Digit| forbidden(g, a, dd) == forbidden(g, b, dd)
}

/// How many of slots `0 .. n` of unit `u` are empty with the same domain as
/// cell `c`.
pub open spec fn eqdom_count_below(g: Seq<Option<Digit>>, u: int, c: int, n: int) -> nat
    decreases n,
{
    if n <= 0 {
        0
    } else {
        eqdom_count_below(g, u, c, n - 1) + (if g[unit_cell(u, n - 1)] is None && dom_eq(
            g,
            unit_cell(u, n - 1),
            c,
        ) {
            1nat
        } else {
            0nat
        })
    }
}

/// Some unit holds more empty cells of one shared domain than that domain has
/// digits; the root scan of the search answers infeasible exactly then.
pub open spec fn overconstrained(g: Seq<Option<Digit>>) -> bool {
    exists|u: int, k: int|
        0 <= u < 27 && 0 <= k < 9 && g[#[trigger] unit_cell(u, k)] is None && eqdom_count_below(
            g,
            u,
            unit_cell(u, k),
            9,
        ) > candidate_count_below(g, unit_cell(u, k), 9)
}


/// The digits still allowed at cell `c` among indices below `n`, ascending.
proof fn candidate_seq(g: Seq<Option<Digit>>, c: int, n: int) -> (s: Seq<Digit>)
    requires
        0 <= n <= 9,
    ensures
        s.len() == candidate_count_below(g, c, n),
        forall|m: int|
            0 <= m < s.len() ==> (#[trigger] s[m]).as_int() < n && !forbidden(g, c, s[m]),
        forall|m1: int, m2: int| 0 <= m1 < m2 < s.len() ==> s[m1].as_int() < s[m2].as_int(),
        forall|d: Digit| d.as_int() < n && !forbidden(g, c, d) ==> s.contains(d),
    decreases n,
{
    if n == 0 {
        Seq::empty()
    } else {
        let pre = candidate_seq(g, c, n - 1);
        let d = Digit::spec_from_index(n - 1);
        lemma_digit_index_inverse();
        if !forbidden(g, c, d) {
            let s = pre.push(d);
            assert forall|dd: Digit| dd.as_int() < n && !forbidden(g, c, dd) implies s.contains(
                dd,
            ) by {
                if dd.as_int() < n - 1 {
                    assert(pre.contains(dd));
                    let m = choose|m: int| 0 <= m < pre.len() && pre[m] == dd;
                    assert(s[m] == dd);
                } else {
                    assert(Digit::spec_from_index(dd.as_int()) == dd);
                    assert(dd == d);
                    assert(s[s.len() - 1] == dd);
                }
            }
            s
        } else {
            assert forall|dd: Digit| dd.as_int() < n && !forbidden(g, c, dd) implies pre.contains(
                dd,
            ) by {
                assert(Digit::spec_from_index(dd.as_int()) == dd);
                assert(dd != d);
            }
            pre
        }
    }
}

/// The digits a well-formed domain admits among indices below `n`, ascending.
proof fn domain_digit_seq(dom: Domain, n: int) -> (s: Seq<Digit>)
    requires
        0 <= n <= 9,
        dom.wf(),
    ensures
        s.len() == zeros_below(dom.0.raw(), n as nat),
        forall|m: int|
            0 <= m < s.len() ==> (#[trigger] s[m]).as_int() < n && dom.has_candidate(s[m]),
        forall|m1: int, m2: int| 0 <= m1 < m2 < s.len() ==> s[m1].as_int() < s[m2].as_int(),
        forall|d: Digit| d.as_int() < n && dom.has_candidate(d) ==> s.contains(d),
    decreases n,
{
    if n == 0 {
        Seq::empty()
    } else {
        let pre = domain_digit_seq(dom, n - 1);
        let d = Digit::spec_from_index(n - 1);
        lemma_digit_index_inverse();
        if dom.has_candidate(d) {
            let s = pre.push(d);
            assert forall|dd: Digit| dd.as_int() < n && dom.has_candidate(dd) implies s.contains(
                dd,
            ) by {
                if dd.as_int() < n - 1 {
                    assert(pre.contains(dd));
                    let m = choose|m: int| 0 <= m < pre.len() && pre[m] == dd;
                    assert(s[m] == dd);
                } else {
                    assert(Digit::spec_from_index(dd.as_int()) == dd);
                    assert(s[s.len() - 1] == dd);
                }
            }
            s
        } else {
            assert forall|dd: Digit| dd.as_int() < n && dom.has_candidate(dd) implies pre.contains(
                dd,
            ) by {
                assert(Digit::spec_from_index(dd.as_int()) == dd);
                assert(dd != d);
            }
            pre
        }
    }
}

/// The slots of unit `u` below `n` that are empty with the same domain as
/// cell `c`, ascending.
proof fn eqdom_pos_seq(g: Seq<Option<Digit>>, u: int, c: int, n: int) -> (ks: Seq<int>)
    requires
        0 <= n <= 9,
    ensures
        ks.len() == eqdom_count_below(g, u, c, n),
        forall|m: int| 0 <= m < ks.len() ==> 0 <= #[trigger] ks[m] < n,
        forall|m1: int, m2: int| 0 <= m1 < m2 < ks.len() ==> ks[m1] < ks[m2],
        forall|m: int|
            0 <= m < ks.len() ==> g[unit_cell(u, #[trigger] ks[m])] is None && dom_eq(
                g,
                unit_cell(u, ks[m]),
                c,
            ),
    decreases n,
{
    if n == 0 {
        Seq::empty()
    } else {
        let pre = eqdom_pos_seq(g, u, c, n - 1);
        if g[unit_cell(u, n - 1)] is None && dom_eq(g, unit_cell(u, n - 1), c) {
            pre.push(n - 1)
        } else {
            pre
        }
    }
}

/// An over-constrained unit admits no completion: more cells than their
/// shared domain has digits would need distinct digits from it.
pub proof fn lemma_overconstrained_no_completion(g: Seq<Option<Digit>>)
    requires
        grid_seq_wf(g),
        overconstrained(g),
    ensures
        no_completion(g),
{
    let (u, k) = choose|u: int, k: int|
        0 <= u < 27 && 0 <= k < 9 && g[#[trigger] unit_cell(u, k)] is None && eqdom_count_below(
            g,
            u,
            unit_cell(u, k),
            9,
        ) > candidate_count_below(g, unit_cell(u, k), 9);
    let c = unit_cell(u, k);
    lemma_unit_cell_range(u, k);
    let ks = eqdom_pos_seq(g, u, c, 9);
    let cs = candidate_seq(g, c, 9);
    assert(cs.no_duplicates());
    cs.unique_seq_to_set();
    assert forall|g2: Seq<Option<Digit>>| !completes(g, g2) by {
        if completes(g, g2) {
            crate::completion::lemma_unit_values_distinct(g2, u, ks);
            let vals = crate::completion::unit_values(g2, u, ks);
            vals.unique_seq_to_set();
            assert(vals.to_set().subset_of(cs.to_set())) by {
                assert forall|d: Digit| vals.to_set().contains(d) implies cs.to_set().contains(
                    d,
                ) by {
                    let m = choose|m: int| 0 <= m < vals.len() && vals[m] == d;
                    let cell = unit_cell(u, ks[m]);
                    lemma_unit_cell_range(u, ks[m]);
                    lemma_completion_in_domain(g, g2, cell);
                    assert(!forbidden(g, cell, d));
                    assert(!forbidden(g, c, d));
                    assert(cs.contains(d));
                }
            }
            vstd::set_lib::lemma_len_subset(vals.to_set(), cs.to_set());
            assert(false);
        }
    }
}

/// The row-major index `rmv` names one of the nine slots of unit `u`.
pub open spec fn in_unit(u: int, rmv: int) -> bool {
    exists|k2: int| 0 <= k2 < 9 && rmv == #[trigger] unit_cell(u, k2)
}

/// The placement list a successful solve hands back: one entry for each cell
/// that was empty, no cell twice.
pub open spec fn placements_ok(g0: Seq<Option<Digit>>, ps: Seq<(CellIdx, Digit)>) -> bool {
    &&& forall|k: int| 0 <= k < ps.len() ==> g0[(#[trigger] ps[k]).0.rm()] is None
    &&& forall|k1: int, k2: int|
        0 <= k1 < k2 < ps.len() ==> (#[trigger] ps[k1]).0.rm() != (#[trigger] ps[k2]).0.rm()
    &&& forall|i: int| 0 <= i < 81 && g0[i] is None ==> ps_covers(ps, i)
}

/// The cell whose row-major index is `i`.
fn cell_of(i: usize) -> (r: CellIdx)
    requires
        i < 81,
    ensures
        r.rm() == i,
{
    match CellIdx::try_of_row_major(i) {
        Ok(c) => c,
        Err(_) => CellIdx { row: RowIdx::Row0, col: ColIdx::Col0 },
    }
}

/// The row-major index of slot `k` of unit `u`.
fn solver_unit_cell(u: usize, k: usize) -> (r: usize)
    requires
        u < 27,
        k < 9,
    ensures
        r == unit_cell(u as int, k as int),
        r < 81,
{
    proof {
        lemma_unit_cell_range(u as int, k as int);
    }
    if u < 9 {
        u * 9 + k
    } else if u < 18 {
        k * 9 + (u - 9)
    } else {
        let b = u - 18;
        (b / 3 * 3 + k / 3) * 9 + (b % 3 * 3 + k % 3)
    }
}

/// The domain of `cell`, stated against the grid the constraints mirror.
fn cell_domain(cons: &Constraints, cell: CellIdx, Ghost(g): Ghost<Seq<Option<Digit>>>) -> (r:
    Domain)
    requires
        cons.wf(),
        cons.matches(g),
        grid_seq_wf(g),
    ensures
        r.wf(),
        forall|dd: Digit| #[trigger] r.has_candidate(dd) == !forbidden(g, cell.rm(), dd),
{
    let r = cons.domain(cell);
    proof {
        lemma_cell_id(cell.rm());
        lemma_digit_index_inverse();
        assert forall|dd: Digit| #[trigger] r.has_candidate(dd) == !forbidden(
            g,
            cell.rm(),
            dd,
        ) by {
            let d = dd.as_int();
            assert(Digit::spec_from_index(d) == dd);
            assert(cons.rows.mbit(cell.row.as_int(), d) == used_in_row(g, cell.row.as_int(), dd));
            assert(cons.cols.mbit(cell.col.as_int(), d) == used_in_col(g, cell.col.as_int(), dd));
            assert(cons.boxes.mbit(cell_box(cell.rm()), d) == used_in_box(
                g,
                cell_box(cell.rm()),
                dd,
            ));
            assert(cell_row(cell.rm()) == cell.row.as_int());
            assert(cell_col(cell.rm()) == cell.col.as_int());
        }
    }
    r
}

/// The candidate count of a domain agrees with the spec-level count when the
/// domain reflects the forbidden relation.
proof fn lemma_domain_size(g: Seq<Option<Digit>>, c: int, dom: Domain, n: int)
    requires
        0 <= n <= 9,
        dom.wf(),
        forall|dd: Digit| #[trigger] dom.has_candidate(dd) == !forbidden(g, c, dd),
    ensures
        zeros_below(dom.0.raw(), n as nat) == candidate_count_below(g, c, n),
    decreases n,
{
    if n > 0 {
        lemma_domain_size(g, c, dom, n - 1);
        lemma_digit_index_inverse();
        let dd = Digit::spec_from_index(n - 1);
        assert(dd.as_int() == n - 1);
        assert(dom.has_candidate(dd) == !forbidden(g, c, dd));
        assert(dom.has_candidate(dd) == !dom.0.has((n - 1) as u16));
    }
}

/// Equal masked words mean equal domains at the spec level, and conversely.
proof fn lemma_dom_raw_eq(
    g: Seq<Option<Digit>>,
    a: int,
    b: int,
    da: Domain,
    db: Domain,
)
    requires
        da.wf(),
        db.wf(),
        forall|dd: Digit| #[trigger] da.has_candidate(dd) == !forbidden(g, a, dd),
        forall|dd: Digit| #[trigger] db.has_candidate(dd) == !forbidden(g, b, dd),
    ensures
        (da.0.raw() == db.0.raw()) == dom_eq(g, a, b),
{
    lemma_digit_index_inverse();
    if da.0.raw() == db.0.raw() {
        assert forall|dd: Digit| forbidden(g, a, dd) == forbidden(g, b, dd) by {
            assert(da.has_candidate(dd) == db.has_candidate(dd));
        }
    }
    if dom_eq(g, a, b) {
        assert forall|i: u16| i < 9 implies crate::bits9::bit(da.0.raw(), i) == crate::bits9::bit(
            db.0.raw(),
            i,
        ) by {
            let dd = Digit::spec_from_index(i as int);
            assert(dd.as_int() == i);
            assert(da.has_candidate(dd) == !forbidden(g, a, dd));
            assert(db.has_candidate(dd) == !forbidden(g, b, dd));
            assert(forbidden(g, a, dd) == forbidden(g, b, dd));
        }
        lemma_bits_eq(da.0.raw(), db.0.raw());
    }
}

/// Decides exactly whether the grid is full and whether some unit is
/// over-constrained.
fn scan_units(grid: &ArrGrid, cons: &Constraints) -> (r: (bool, bool))
    requires
        grid.well_formed(),
        cons.wf(),
        cons.matches(grid.cells()),
    ensures
        r.0 == grid_full(grid.cells()),
        r.1 == overconstrained(grid.cells()),
{
    let ghost g = grid.cells();
    let mut full: bool = true;
    let mut i: usize = 0;
    while i < 81
        invariant
            grid.well_formed(),
            g == grid.cells(),
            i <= 81,
            full <==> (forall|j: int| 0 <= j < i ==> g[j] is Some),
        decreases 81 - i,
    {
        let cell = cell_of(i);
        if grid.get(cell).is_none() {
            full = false;
        }
        i = i + 1;
    }
    let mut over: bool = false;
    let mut u: usize = 0;
    while u < 27
        invariant
            grid.well_formed(),
            g == grid.cells(),
            cons.wf(),
            cons.matches(g),
            u <= 27,
            over <==> (exists|u2: int, k: int|
                0 <= u2 < u && 0 <= k < 9 && g[#[trigger] unit_cell(u2, k)] is None
                    && eqdom_count_below(g, u2, unit_cell(u2, k), 9) > candidate_count_below(
                    g,
                    unit_cell(u2, k),
                    9,
                )),
        decreases 27 - u,
    {
        let mut found: bool = false;
        let mut k: usize = 0;
        while k < 9
            invariant
                grid.well_formed(),
                g == grid.cells(),
                cons.wf(),
                cons.matches(g),
                u < 27,
                k <= 9,
                found <==> (exists|k2: int|
                    0 <= k2 < k && g[#[trigger] unit_cell(u as int, k2)] is None
                        && eqdom_count_below(g, u as int, unit_cell(u as int, k2), 9)
                        > candidate_count_below(g, unit_cell(u as int, k2), 9)),
            decreases 9 - k,
        {
            let ci = solver_unit_cell(u, k);
            let cell = cell_of(ci);
            if grid.get(cell).is_none() {
                let dom = cell_domain(cons, cell, Ghost(g));
                let size = dom.size();
                proof {
                    lemma_domain_size(g, ci as int, dom, 9);
                }
                let mut cnt: u8 = 0;
                let mut k2: usize = 0;
                while k2 < 9
                    invariant
                        grid.well_formed(),
                        g == grid.cells(),
                        cons.wf(),
                        cons.matches(g),
                        u < 27,
                        k < 9,
                        k2 <= 9,
                        ci == unit_cell(u as int, k as int),
                        ci < 81,
                        cell.rm() == ci,
                        dom.wf(),
                        forall|dd: Digit| #[trigger] dom.has_candidate(dd) == !forbidden(
                            g,
                            ci as int,
                            dd,
                        ),
                        cnt == eqdom_count_below(g, u as int, ci as int, k2 as int),
                        cnt <= k2,
                    decreases 9 - k2,
                {
                    let ci2 = solver_unit_cell(u, k2);
                    let cell2 = cell_of(ci2);
                    if grid.get(cell2).is_none() {
                        let dom2 = cell_domain(cons, cell2, Ghost(g));
                        proof {
                            lemma_dom_raw_eq(g, ci2 as int, ci as int, dom2, dom);
                        }
                        if dom2.0.low() == dom.0.low() {
                            cnt = cnt + 1;
                        }
                    }
                    k2 = k2 + 1;
                }
                if cnt > size {
                    found = true;
                    proof {
                        assert(g[unit_cell(u as int, k as int)] is None && eqdom_count_below(
                            g,
                            u as int,
                            unit_cell(u as int, k as int),
                            9,
                        ) > candidate_count_below(g, unit_cell(u as int, k as int), 9));
                    }
                }
            }
            k = k + 1;
        }
        if found {
            over = true;
            proof {
                let k2 = choose|k2: int|
                    0 <= k2 < 9 && g[#[trigger] unit_cell(u as int, k2)] is None
                        && eqdom_count_below(g, u as int, unit_cell(u as int, k2), 9)
                        > candidate_count_below(g, unit_cell(u as int, k2), 9);
                assert(0 <= u < 27 && 0 <= k2 < 9 && g[unit_cell(u as int, k2)] is None
                    && eqdom_count_below(g, u as int, unit_cell(u as int, k2), 9)
                    > candidate_count_below(g, unit_cell(u as int, k2), 9));
            }
        }
        u = u + 1;
    }
    proof {
        if over {
            assert(overconstrained(g));
        }
        if !over && overconstrained(g) {
            let (u2, k) = choose|u2: int, k: int|
                0 <= u2 < 27 && 0 <= k < 9 && g[#[trigger] unit_cell(u2, k)] is None
                    && eqdom_count_below(g, u2, unit_cell(u2, k), 9) > candidate_count_below(
                    g,
                    unit_cell(u2, k),
                    9,
                );
            assert(false);
        }
    }
    (full, over)
}

/// The empty cells of unit `u` with their exact domains, in slot order.
#[verifier::rlimit(100)]
fn unit_empties(grid: &ArrGrid, cons: &Constraints, u: usize) -> (r: Vec<(Domain, CellIdx)>)
    requires
        grid.well_formed(),
        cons.wf(),
        cons.matches(grid.cells()),
        u < 27,
    ensures
        forall|m: int|
            0 <= m < r@.len() ==> grid.cells()[(#[trigger] r@[m]).1.rm()] is None,
        forall|m: int| 0 <= m < r@.len() ==> (#[trigger] r@[m]).1.rm() < 81,
        forall|m: int| 0 <= m < r@.len() ==> (#[trigger] r@[m]).0.wf(),
        forall|m: int, dd: Digit|
            0 <= m < r@.len() ==> (#[trigger] r@[m].0.has_candidate(dd)) == !forbidden(
                grid.cells(),
                r@[m].1.rm(),
                dd,
            ),
        forall|m1: int, m2: int|
            0 <= m1 < m2 < r@.len() ==> (#[trigger] r@[m1]).1.rm() != (#[trigger] r@[m2]).1.rm(),
        forall|m: int| 0 <= m < r@.len() ==> in_unit(u as int, (#[trigger] r@[m]).1.rm()),
        forall|k2: int|
            0 <= k2 < 9 && grid.cells()[#[trigger] unit_cell(u as int, k2)] is None
                ==> exists|m: int|
                0 <= m < r@.len() && (#[trigger] r@[m]).1.rm() == unit_cell(u as int, k2),
{
    let ghost g = grid.cells();
    let mut r: Vec<(Domain, CellIdx)> = Vec::new();
    let ghost mut slots: Seq<int> = Seq::empty();
    let mut k: usize = 0;
    while k < 9
        invariant
            grid.well_formed(),
            g == grid.cells(),
            cons.wf(),
            cons.matches(g),
            u < 27,
            k <= 9,
            slots.len() == r@.len(),
            forall|m: int| 0 <= m < slots.len() ==> 0 <= #[trigger] slots[m] < k,
            forall|m1: int, m2: int| 0 <= m1 < m2 < slots.len() ==> slots[m1] < slots[m2],
            forall|m: int|
                0 <= m < r@.len() ==> (#[trigger] r@[m]).1.rm() == unit_cell(u as int, slots[m]),
            forall|m: int| 0 <= m < r@.len() ==> g[(#[trigger] r@[m]).1.rm()] is None,
            forall|m: int| 0 <= m < r@.len() ==> (#[trigger] r@[m]).1.rm() < 81,
            forall|m: int| 0 <= m < r@.len() ==> (#[trigger] r@[m]).0.wf(),
            forall|m: int, dd: Digit|
                0 <= m < r@.len() ==> (#[trigger] r@[m].0.has_candidate(dd)) == !forbidden(
                    g,
                    r@[m].1.rm(),
                    dd,
                ),
            forall|k2: int|
                0 <= k2 < k && g[#[trigger] unit_cell(u as int, k2)] is None ==> exists|m: int|
                    0 <= m < slots.len() && slots[m] == k2,
        decreases 9 - k,
    {
        let ci = solver_unit_cell(u, k);
        let cell = cell_of(ci);
        if grid.get(cell).is_none() {
            let dom = cell_domain(cons, cell, Ghost(g));
            let ghost prevs = slots;
            r.push((dom, cell));
            proof {
                slots = slots.push(k as int);
                assert forall|k2: int|
                    0 <= k2 < k + 1 && g[#[trigger] unit_cell(u as int, k2)] is None
                    implies exists|m: int| 0 <= m < slots.len() && slots[m] == k2 by {
                    if k2 < k {
                        let m = choose|m: int| 0 <= m < prevs.len() && prevs[m] == k2;
                        assert(slots[m] == k2);
                    } else {
                        assert(slots[slots.len() - 1] == k2);
                    }
                }
            }
        } else {
            proof {
                assert forall|k2: int|
                    0 <= k2 < k + 1 && g[#[trigger] unit_cell(u as int, k2)] is None
                    implies exists|m: int| 0 <= m < slots.len() && slots[m] == k2 by {
                    assert(k2 != k);
                }
            }
        }
        k = k + 1;
    }
    proof {
        assert forall|m1: int, m2: int|
            0 <= m1 < m2 < r@.len() implies (#[trigger] r@[m1]).1.rm() != (
        #[trigger] r@[m2]).1.rm() by {
            crate::grid::lemma_unit_cells_distinct(u as int, slots[m1], slots[m2]);
        }
        assert forall|m: int| 0 <= m < r@.len() implies in_unit(
            u as int,
            (#[trigger] r@[m]).1.rm(),
        ) by {
            assert(r@[m].1.rm() == unit_cell(u as int, slots[m]));
        }
        assert forall|k2: int|
            0 <= k2 < 9 && g[#[trigger] unit_cell(u as int, k2)] is None implies exists|m: int|
            0 <= m < r@.len() && (#[trigger] r@[m]).1.rm() == unit_cell(u as int, k2) by {
            let m = choose|m: int| 0 <= m < slots.len() && slots[m] == k2;
            assert(r@[m].1.rm() == unit_cell(u as int, k2));
        }
    }
    r
}

/// Applying a concatenation applies the parts in order.
pub proof fn lemma_apply_concat(
    g: Seq<Option<Digit>>,
    a: Seq<(CellIdx, Digit)>,
    b: Seq<(CellIdx, Digit)>,
)
    ensures
        apply_placements(g, a + b) == apply_placements(apply_placements(g, a), b),
    decreases a.len(),
{
    if a.len() == 0 {
        assert(a + b =~= b);
    } else {
        let g2 = g.update(a[0].0.rm(), Some(a[0].1));
        assert((a + b).drop_first() =~= a.drop_first() + b);
        lemma_apply_concat(g2, a.drop_first(), b);
    }
}

/// A committed batch followed by a full fill of the rest fills exactly the
/// empty cells of the starting grid.
pub proof fn lemma_placements_compose(
    g0: Seq<Option<Digit>>,
    b: Seq<(CellIdx, Digit)>,
    rest: Seq<(CellIdx, Digit)>,
)
    requires
        grid_seq_wf(g0),
        batch_ok(g0, b),
        placements_ok(apply_placements(g0, b), rest),
    ensures
        placements_ok(g0, b + rest),
        apply_placements(g0, b + rest) == apply_placements(apply_placements(g0, b), rest),
{
    lemma_apply_concat(g0, b, rest);
    lemma_apply_pointwise(g0, b);
    let gm = apply_placements(g0, b);
    let t = b + rest;
    assert forall|k: int| 0 <= k < t.len() implies g0[(#[trigger] t[k]).0.rm()] is None by {
        if k < b.len() {
            assert(t[k] == b[k]);
        } else {
            assert(t[k] == rest[k - b.len()]);
            let i = rest[k - b.len()].0.rm();
            assert(gm[i] is None);
            if ps_covers(b, i) {
                let j = choose|j: int| 0 <= j < b.len() && (#[trigger] b[j]).0.rm() == i;
                assert(gm[i] == Some(b[j].1));
                assert(false);
            }
            assert(g0[i] == gm[i]);
        }
    }
    assert forall|k1: int, k2: int| 0 <= k1 < k2 < t.len() implies (#[trigger] t[k1]).0.rm() != (
    #[trigger] t[k2]).0.rm() by {
        if k2 < b.len() {
            assert(t[k1] == b[k1] && t[k2] == b[k2]);
        } else if k1 >= b.len() {
            assert(t[k1] == rest[k1 - b.len()] && t[k2] == rest[k2 - b.len()]);
        } else {
            assert(t[k1] == b[k1] && t[k2] == rest[k2 - b.len()]);
            let i = rest[k2 - b.len()].0.rm();
            assert(gm[i] is None);
            assert(gm[b[k1 as int].0.rm()] == Some(b[k1 as int].1));
        }
    }
    assert forall|i: int| 0 <= i < 81 && g0[i] is None implies ps_covers(t, i) by {
        if ps_covers(b, i) {
            let j = choose|j: int| 0 <= j < b.len() && (#[trigger] b[j]).0.rm() == i;
            assert(t[j] == b[j]);
            assert(ps_covers(t, i));
        } else {
            assert(gm[i] == g0[i]);
            assert(ps_covers(rest, i));
            let j = choose|j: int| 0 <= j < rest.len() && (#[trigger] rest[j]).0.rm() == i;
            assert(t[b.len() + j] == rest[j]);
            assert(ps_covers(t, i));
        }
    }
}

/// The empty cells of the whole grid, grouped by rising domain size, in
/// row-major order within one size.
fn empty_cells_by_domain_size(grid: &ArrGrid, cons: &Constraints) -> (r: Vec<CellIdx>)
    requires
        grid.well_formed(),
        cons.wf(),
        cons.matches(grid.cells()),
    ensures
        forall|m: int|
            0 <= m < r@.len() ==> grid.cells()[(#[trigger] r@[m]).rm()] is None,
        forall|i: int|
            0 <= i < 81 && grid.cells()[i] is None ==> exists|m: int|
                0 <= m < r@.len() && (#[trigger] r@[m]).rm() == i,
{
    let ghost g = grid.cells();
    let mut r: Vec<CellIdx> = Vec::new();
    let mut size: usize = 0;
    while size <= 9
        invariant
            grid.well_formed(),
            g == grid.cells(),
            cons.wf(),
            cons.matches(g),
            size <= 10,
            forall|m: int| 0 <= m < r@.len() ==> g[(#[trigger] r@[m]).rm()] is None,
            forall|i: int|
                0 <= i < 81 && g[i] is None && candidate_count_below(g, i, 9) < size
                    ==> exists|m: int| 0 <= m < r@.len() && (#[trigger] r@[m]).rm() == i,
        decreases 10 - size,
    {
        let mut i: usize = 0;
        while i < 81
            invariant
                grid.well_formed(),
                g == grid.cells(),
                cons.wf(),
                cons.matches(g),
                size <= 9,
                i <= 81,
                forall|m: int| 0 <= m < r@.len() ==> g[(#[trigger] r@[m]).rm()] is None,
                forall|i2: int|
                    0 <= i2 < 81 && g[i2] is None && candidate_count_below(g, i2, 9) < size
                        ==> exists|m: int| 0 <= m < r@.len() && (#[trigger] r@[m]).rm() == i2,
                forall|i2: int|
                    0 <= i2 < i && g[i2] is None && candidate_count_below(g, i2, 9) == size
                        ==> exists|m: int| 0 <= m < r@.len() && (#[trigger] r@[m]).rm() == i2,
            decreases 81 - i,
        {
            let cell = cell_of(i);
            if grid.get(cell).is_none() {
                let dom = cell_domain(cons, cell, Ghost(g));
                proof {
                    lemma_domain_size(g, i as int, dom, 9);
                }
                if dom.size() as usize == size {
                    let ghost prev = r@;
                    r.push(cell);
                    proof {
                        assert(r@[r@.len() - 1].rm() == i);
                        assert forall|i2: int|
                            0 <= i2 < 81 && g[i2] is None && candidate_count_below(g, i2, 9) < size
                                implies exists|m: int|
                                0 <= m < r@.len() && (#[trigger] r@[m]).rm() == i2 by {
                            let m = choose|m: int|
                                0 <= m < prev.len() && (#[trigger] prev[m]).rm() == i2;
                            assert(r@[m].rm() == i2);
                        }
                        assert forall|i2: int|
                            0 <= i2 < i + 1 && g[i2] is None && candidate_count_below(g, i2, 9)
                                == size implies exists|m: int|
                                0 <= m < r@.len() && (#[trigger] r@[m]).rm() == i2 by {
                            if i2 < i {
                                let m = choose|m: int|
                                    0 <= m < prev.len() && (#[trigger] prev[m]).rm() == i2;
                                assert(r@[m].rm() == i2);
                            } else {
                                assert(r@[r@.len() - 1].rm() == i2);
                            }
                        }
                    }
                }
            }
            i = i + 1;
        }
        size = size + 1;
    }
    proof {
        assert forall|i: int|
            0 <= i < 81 && g[i] is None implies exists|m: int|
            0 <= m < r@.len() && (#[trigger] r@[m]).rm() == i by {
            lemma_candidate_count_bound(g, i, 9);
        }
    }
    r
}


// ---------------------------------------------------------------------------
// The recursive search.
// ---------------------------------------------------------------------------
/// What a successful step leaves behind: the grid completed, the appended
/// diff entries filling exactly the cells that were empty.
pub open spec fn step_ok(
    g0: Seq<Option<Digit>>,
    diff0: Seq<(CellIdx, Digit)>,
    n: int,
    grid: ArrGrid,
    cons: Constraints,
    diff: Seq<(CellIdx, Digit)>,
) -> bool {
    &&& grid.well_formed()
    &&& cons.wf()
    &&& cons.matches(grid.cells())
    &&& n == count_none(g0)
    &&& diff.len() == diff0.len() + n
    &&& diff.take(diff0.len() as int) == diff0
    &&& placements_ok(g0, diff.skip(diff0.len() as int))
    &&& grid.cells() == apply_placements(g0, diff.skip(diff0.len() as int))
    &&& grid_full(grid.cells())
    &&& (grid_valid(g0) ==> grid_valid(grid.cells()))
}

/// What a failed step leaves behind: everything restored, and never the
/// constraint-violation error, which only the entry point assigns.
pub open spec fn step_err(
    g0: Seq<Option<Digit>>,
    diff0: Seq<(CellIdx, Digit)>,
    e: SolverError,
    grid: ArrGrid,
    cons: Constraints,
    diff: Seq<(CellIdx, Digit)>,
    flag_const: Option<bool>,
) -> bool {
    &&& grid.well_formed()
    &&& cons.wf()
    &&& grid.cells() == g0
    &&& cons.matches(g0)
    &&& diff == diff0
    &&& e != SolverError::ConstraintsViolated
    &&& (e == SolverError::Cancelled ==> flag_const != Some(false))
}

/// Commits one batch, recurses, and on failure takes the batch back.
fn solve_inner<'a, const RATE: u64, C: CancellationFlag>(
    rl: &mut RateLimitedCancellationFlag<'a, RATE, C>,
    grid: &mut ArrGrid,
    cons: &mut Constraints,
    diff: &mut Vec<(CellIdx, Digit)>,
    batch: &Vec<(CellIdx, Digit)>,
) -> (r: Result<usize, SolverError>)
    requires
        RATE >= 1,
        old(grid).well_formed(),
        old(cons).wf(),
        old(cons).matches(old(grid).cells()),
        batch_ok(old(grid).cells(), batch@),
        1 <= batch@.len(),
    ensures
        final (rl).cancellation_flag == old(rl).cancellation_flag,
        final (rl).count >= old(rl).count,
        (match r {
            Ok(n) => step_ok(
                old(grid).cells(),
                old(diff)@,
                n as int,
                *final (grid),
                *final (cons),
                final (diff)@,
            ),
            Err(e) => step_err(
                old(grid).cells(),
                old(diff)@,
                e,
                *final (grid),
                *final (cons),
                final (diff)@,
                old(rl).cancellation_flag.spec_const(),
            ),
        }),
        r == Err::<usize, SolverError>(SolverError::Infeasible) ==> no_completion(
            apply_placements(old(grid).cells(), batch@),
        ),
    decreases count_none(old(grid).cells()), 0int, 0int,
{
    let ghost g0 = grid.cells();
    let ghost diff0 = diff@;
    proof {
        assert(batch@.len() <= count_none(g0)) by {
            lemma_batch_count(g0, batch@);
        }
    }
    commit_batch(grid, cons, diff, batch);
    let ghost gm = grid.cells();
    let r = solve_step(rl, grid, cons, diff);
    match r {
        Ok(n) => {
            proof {
                crate::grid::lemma_count_none_bound(gm, 81);
                crate::grid::lemma_count_none_bound(g0, 81);
                let d0 = diff0.len() as int;
                let bl = batch@.len() as int;
                let rest = diff@.skip(d0 + bl);
                assert(diff@.take(d0 + bl) == diff0 + batch@);
                assert forall|i: int| 0 <= i < bl implies diff@[d0 + i] == batch@[i] by {
                    assert(diff@.take(d0 + bl)[d0 + i] == (diff0 + batch@)[d0 + i]);
                }
                assert(diff@.skip(d0) =~= batch@ + rest) by {
                    assert forall|i: int| 0 <= i < diff@.len() - d0 implies diff@.skip(d0)[i] == (
                    batch@ + rest)[i] by {
                        if i < bl {
                            assert(diff@[d0 + i] == batch@[i]);
                        } else {
                            assert(rest[i - bl] == diff@[d0 + bl + (i - bl)]);
                        }
                    }
                }
                lemma_placements_compose(g0, batch@, rest);
                assert(diff@.take(d0) =~= diff0);
            }
            Ok(n + batch.len())
        },
        Err(e) => {
            proof {
                if e == SolverError::Infeasible {
                    assert(no_completion(gm));
                    assert(gm == apply_placements(g0, batch@));
                }
            }
            rollback_batch(grid, cons, diff, batch, Ghost(g0));
            proof {
                assert(diff@ =~= diff0);
            }
            Err(e)
        },
    }
}

/// An admissible batch never exceeds the number of empty cells.
proof fn lemma_batch_count(g0: Seq<Option<Digit>>, b: Seq<(CellIdx, Digit)>)
    requires
        grid_seq_wf(g0),
        batch_ok(g0, b),
    ensures
        b.len() + count_none(apply_placements(g0, b)) == count_none(g0),
    decreases b.len(),
{
    if b.len() > 0 {
        let i0 = b[0].0.rm();
        lemma_cell_id(i0);
        let g2 = g0.update(i0, Some(b[0].1));
        lemma_batch_ok_step(g0, b);
        lemma_batch_count(g2, b.drop_first());
        lemma_count_none_update(g0, i0, b[0].1, 81);
    }
}

/// Every completion of `gdet` draws the digits of these cells from `sset`.
pub open spec fn subset_forced(
    gdet: Seq<Option<Digit>>,
    cells: Seq<CellIdx>,
    sset: Set<Digit>,
) -> bool {
    forall|g2: Seq<Option<Digit>>, i: int|
        #[trigger] completes(gdet, g2) && 0 <= i < cells.len() ==> sset.contains(
            g2[(#[trigger] cells[i]).rm()]->0,
        )
}

/// Fills the subset's cells one after the other, each with every digit of the
/// group that its current domain still allows; exhausting them is infeasible
/// because every completion is forced to draw from the group.
fn try_subset<'a, const RATE: u64, C: CancellationFlag>(
    rl: &mut RateLimitedCancellationFlag<'a, RATE, C>,
    grid: &mut ArrGrid,
    cons: &mut Constraints,
    diff: &mut Vec<(CellIdx, Digit)>,
    cells: &Vec<CellIdx>,
    sdigits: &Vec<Digit>,
    m: usize,
    Ghost(sset): Ghost<Set<Digit>>,
    Ghost(gdet): Ghost<Seq<Option<Digit>>>,
) -> (r: Result<usize, SolverError>)
    requires
        RATE >= 1,
        old(grid).well_formed(),
        old(cons).wf(),
        old(cons).matches(old(grid).cells()),
        grid_seq_wf(gdet),
        extends(gdet, old(grid).cells()),
        m < cells@.len() <= 9,
        forall|i: int| 0 <= i < cells@.len() ==> (#[trigger] cells@[i]).rm() < 81,
        forall|i: int|
            m <= i < cells@.len() ==> old(grid).cells()[(#[trigger] cells@[i]).rm()] is None,
        forall|i1: int, i2: int|
            0 <= i1 < i2 < cells@.len() ==> (#[trigger] cells@[i1]).rm() != (
            #[trigger] cells@[i2]).rm(),
        subset_forced(gdet, cells@, sset),
        forall|d: Digit| sset.contains(d) ==> sdigits@.contains(d),
    ensures
        final (rl).cancellation_flag == old(rl).cancellation_flag,
        final (rl).count >= old(rl).count,
        (match r {
            Ok(n) => step_ok(
                old(grid).cells(),
                old(diff)@,
                n as int,
                *final (grid),
                *final (cons),
                final (diff)@,
            ),
            Err(e) => step_err(
                old(grid).cells(),
                old(diff)@,
                e,
                *final (grid),
                *final (cons),
                final (diff)@,
                old(rl).cancellation_flag.spec_const(),
            ),
        }),
        r == Err::<usize, SolverError>(SolverError::Infeasible) ==> no_completion(
            old(grid).cells(),
        ),
    decreases count_none(old(grid).cells()), 1int, cells@.len() - m,
{
    let ghost gc0 = grid.cells();
    let ghost diff0 = diff@;
    let c = cells[m];
    let dom_now = cell_domain(cons, c, Ghost(gc0));
    let mut j: usize = 0;
    while j < sdigits.len()
        invariant
            RATE >= 1,
            grid.well_formed(),
            cons.wf(),
            grid.cells() == gc0,
            cons.matches(gc0),
            diff@ == diff0,
            gc0 == old(grid).cells(),
            diff0 == old(diff)@,
            grid_seq_wf(gc0),
            rl.cancellation_flag == old(rl).cancellation_flag,
            rl.count >= old(rl).count,
            grid_seq_wf(gdet),
            extends(gdet, gc0),
            m < cells@.len() <= 9,
            c == cells@[m as int],
            c.rm() < 81,
            gc0[c.rm()] is None,
            forall|i: int| 0 <= i < cells@.len() ==> (#[trigger] cells@[i]).rm() < 81,
            forall|i: int| m <= i < cells@.len() ==> gc0[(#[trigger] cells@[i]).rm()] is None,
            forall|i1: int, i2: int|
                0 <= i1 < i2 < cells@.len() ==> (#[trigger] cells@[i1]).rm() != (
                #[trigger] cells@[i2]).rm(),
            subset_forced(gdet, cells@, sset),
            forall|d: Digit| sset.contains(d) ==> sdigits@.contains(d),
            dom_now.wf(),
            forall|dd: Digit| #[trigger] dom_now.has_candidate(dd) == !forbidden(gc0, c.rm(), dd),
            j <= sdigits@.len(),
            forall|g2: Seq<Option<Digit>>, jj: int|
                #[trigger] completes(gc0, g2) && 0 <= jj < j ==> g2[c.rm()]->0 != #[trigger] sdigits@[jj],
        decreases sdigits@.len() - j,
    {
        let d = sdigits[j];
        if dom_now.allows(d) {
            let mut batch: Vec<(CellIdx, Digit)> = Vec::new();
            batch.push((c, d));
            proof {
                lemma_cell_id(c.rm());
                assert(batch@.len() == 1 && batch@[0] == (c, d));
            }
            commit_batch(grid, cons, diff, &batch);
            let ghost gc1 = grid.cells();
            proof {
                assert(gc1 == gc0.update(c.rm(), Some(d))) by {
                    assert(batch@.len() == 1 && batch@[0] == (c, d));
                    assert(gc1 == apply_placements(gc0, batch@));
                    let e0: Seq<(CellIdx, Digit)> = Seq::empty();
                    assert(batch@.drop_first() =~= e0);
                    assert(apply_placements(gc0, batch@) == apply_placements(
                        gc0.update(c.rm(), Some(d)),
                        e0,
                    ));
                    assert(apply_placements(gc0.update(c.rm(), Some(d)), e0) == gc0.update(
                        c.rm(),
                        Some(d),
                    ));
                }
                assert(extends(gdet, gc1)) by {
                    assert forall|i: int|
                        0 <= i < 81 && gdet[i] is Some implies gc1[i] == gdet[i] by {
                        assert(gc0[i] == gdet[i]);
                        assert(i != c.rm());
                    }
                }
                assert(count_none(gc1) + 1 == count_none(gc0));
                assert forall|i: int|
                    m + 1 <= i < cells@.len() implies gc1[(#[trigger] cells@[i]).rm()] is None by {
                    assert(cells@[i].rm() != cells@[m as int].rm());
                }
            }
            let r = if m + 1 == cells.len() {
                solve_step(rl, grid, cons, diff)
            } else {
                try_subset(rl, grid, cons, diff, cells, sdigits, m + 1, Ghost(sset), Ghost(gdet))
            };
            match r {
                Ok(n) => {
                    proof {
                        crate::grid::lemma_count_none_bound(gc1, 81);
                        let d0 = diff0.len() as int;
                        let bl = 1int;
                        let rest = diff@.skip(d0 + bl);
                        assert(diff@.take(d0 + bl) == diff0 + batch@);
                        assert forall|i: int| 0 <= i < bl implies diff@[d0 + i] == batch@[i] by {
                            assert(diff@.take(d0 + bl)[d0 + i] == (diff0 + batch@)[d0 + i]);
                        }
                        assert(diff@.skip(d0) =~= batch@ + rest) by {
                            assert forall|i: int|
                                0 <= i < diff@.len() - d0 implies diff@.skip(d0)[i] == (batch@
                                + rest)[i] by {
                                if i < bl {
                                    assert(diff@[d0 + i] == batch@[i]);
                                } else {
                                    assert(rest[i - bl] == diff@[d0 + bl + (i - bl)]);
                                }
                            }
                        }
                        lemma_placements_compose(gc0, batch@, rest);
                        assert(diff@.take(d0) =~= diff0);
                    }
                    return Ok(n + 1);
                },
                Err(SolverError::Cancelled) => {
                    rollback_batch(grid, cons, diff, &batch, Ghost(gc0));
                    proof {
                        assert(diff@ =~= diff0);
                    }
                    return Err(SolverError::Cancelled);
                },
                Err(e) => {
                    proof {
                        assert(e != SolverError::ConstraintsViolated);
                        assert(e == SolverError::Infeasible);
                    }
                    rollback_batch(grid, cons, diff, &batch, Ghost(gc0));
                    proof {
                        assert(diff@ =~= diff0);
                        assert(no_completion(gc1));
                        assert forall|g2: Seq<Option<Digit>>, jj: int|
                            #[trigger] completes(gc0, g2) && 0 <= jj < j + 1 implies g2[c.rm()]->0
                            != #[trigger] sdigits@[jj] by {
                            if jj == j && g2[c.rm()]->0 == sdigits@[jj] {
                                assert(g2[c.rm()] is Some) by {
                                    assert(grid_full(g2));
                                }
                                lemma_completes_fill(gc0, c.rm(), d, g2);
                                assert(completes(gc1, g2));
                                assert(false);
                            }
                        }
                    }
                },
            }
        } else {
            proof {
                assert forall|g2: Seq<Option<Digit>>, jj: int|
                    #[trigger] completes(gc0, g2) && 0 <= jj < j + 1 implies g2[c.rm()]->0
                    != #[trigger] sdigits@[jj] by {
                    if jj == j && g2[c.rm()]->0 == sdigits@[jj] {
                        lemma_completion_in_domain(gc0, g2, c.rm());
                        assert(!forbidden(gc0, c.rm(), d));
                        assert(dom_now.has_candidate(d));
                        assert(false);
                    }
                }
            }
        }
        j = j + 1;
    }
    proof {
        assert forall|g2: Seq<Option<Digit>>| !completes(gc0, g2) by {
            if completes(gc0, g2) {
                lemma_completes_mono(gdet, gc0, g2);
                assert(completes(gdet, g2));
                assert(sset.contains(g2[cells@[m as int].rm()]->0));
                let dstar = g2[c.rm()]->0;
                assert(sdigits@.contains(dstar));
                let jj = choose|jj: int| 0 <= jj < sdigits@.len() && sdigits@[jj] == dstar;
                assert(g2[c.rm()]->0 != sdigits@[jj]);
                assert(false);
            }
        }
    }
    Err(SolverError::Infeasible)
}

/// One recursive step: scan, poll, naked subsets, hidden subsets, then
/// minimum-domain branching.
#[verifier::rlimit(80)]
fn solve_step<'a, const RATE: u64, C: CancellationFlag>(
    rl: &mut RateLimitedCancellationFlag<'a, RATE, C>,
    grid: &mut ArrGrid,
    cons: &mut Constraints,
    diff: &mut Vec<(CellIdx, Digit)>,
) -> (r: Result<usize, SolverError>)
    requires
        RATE >= 1,
        old(grid).well_formed(),
        old(cons).wf(),
        old(cons).matches(old(grid).cells()),
    ensures
        final (rl).cancellation_flag == old(rl).cancellation_flag,
        final (rl).count >= old(rl).count,
        (match r {
            Ok(n) => step_ok(
                old(grid).cells(),
                old(diff)@,
                n as int,
                *final (grid),
                *final (cons),
                final (diff)@,
            ),
            Err(e) => step_err(
                old(grid).cells(),
                old(diff)@,
                e,
                *final (grid),
                *final (cons),
                final (diff)@,
                old(rl).cancellation_flag.spec_const(),
            ),
        }),
        grid_full(old(grid).cells()) ==> r == Ok::<usize, SolverError>(0usize) && final (rl).count == old(rl).count,
        (!grid_full(old(grid).cells()) && overconstrained(old(grid).cells())) ==> r == Err::<usize, SolverError>(
            SolverError::Infeasible,
        ) && final (rl).count == old(rl).count,
        (!grid_full(old(grid).cells()) && !overconstrained(old(grid).cells()) && old(rl).count
            < u64::MAX) ==> final (rl).count > old(rl).count,
        (!grid_full(old(grid).cells()) && !overconstrained(old(grid).cells()) && old(rl).count
            % RATE == 0 && old(rl).cancellation_flag.spec_const() == Some(true)) ==> r == Err::<usize, SolverError>(
            SolverError::Cancelled,
        ),
        r == Err::<usize, SolverError>(SolverError::Infeasible) ==> no_completion(
            old(grid).cells(),
        ),
    decreases count_none(old(grid).cells()), 2int, 0int,
{
    let ghost g0 = grid.cells();
    let ghost diff0 = diff@;
    // Steps 1 and 2: snapshot the units; done or locally impossible?
    let (full, over) = scan_units(grid, cons);
    if full {
        proof {
            lemma_count_none_zero(g0, 81);
            assert(diff@.skip(diff0.len() as int) =~= Seq::<(CellIdx, Digit)>::empty());
            assert(diff@.take(diff0.len() as int) =~= diff0);
        }
        return Ok(0);
    }
    if over {
        proof {
            lemma_overconstrained_no_completion(g0);
        }
        return Err(SolverError::Infeasible);
    }
    // Step 3: the cancellation probe, strictly after the scan so that a count
    // of zero still identifies a root that never got past it.
    if rl.cancelled() {
        return Err(SolverError::Cancelled);
    }
    // Step 4: naked subsets, smallest size first.
    let mut k: usize = 1;
    while k <= 5
        invariant
            RATE >= 1,
            grid.well_formed(),
            cons.wf(),
            grid.cells() == g0,
            cons.matches(g0),
            diff@ == diff0,
            g0 == old(grid).cells(),
            diff0 == old(diff)@,
            rl.cancellation_flag == old(rl).cancellation_flag,
            rl.count >= old(rl).count,
            old(rl).count < u64::MAX ==> rl.count > old(rl).count,
            !(old(rl).count % RATE == 0 && old(rl).cancellation_flag.spec_const() == Some(true)),
            !grid_full(g0),
            !overconstrained(g0),
            1 <= k <= 6,
        decreases 6 - k,
    {
        let mut u: usize = 0;
        while u < 27
            invariant
                RATE >= 1,
                grid.well_formed(),
                cons.wf(),
                grid.cells() == g0,
                cons.matches(g0),
                diff@ == diff0,
                g0 == old(grid).cells(),
                diff0 == old(diff)@,
                rl.cancellation_flag == old(rl).cancellation_flag,
                rl.count >= old(rl).count,
                old(rl).count < u64::MAX ==> rl.count > old(rl).count,
                !(old(rl).count % RATE == 0 && old(rl).cancellation_flag.spec_const() == Some(
                    true,
                )),
                !grid_full(g0),
                !overconstrained(g0),
                1 <= k <= 5,
                u <= 27,
            decreases 27 - u,
        {
            let unit = unit_empties(grid, cons, u);
            let mut m: usize = 0;
            while m < unit.len()
                invariant
                    RATE >= 1,
                    grid.well_formed(),
                    cons.wf(),
                    grid.cells() == g0,
                    cons.matches(g0),
                    diff@ == diff0,
                    g0 == old(grid).cells(),
                    diff0 == old(diff)@,
                    rl.cancellation_flag == old(rl).cancellation_flag,
                    rl.count >= old(rl).count,
                    old(rl).count < u64::MAX ==> rl.count > old(rl).count,
                    !(old(rl).count % RATE == 0 && old(rl).cancellation_flag.spec_const() == Some(
                        true,
                    )),
                    !grid_full(g0),
                    !overconstrained(g0),
                    1 <= k <= 5,
                    u < 27,
                    m <= unit@.len(),
                    forall|m2: int| 0 <= m2 < unit@.len() ==> g0[(#[trigger] unit@[m2]).1.rm()] is None,
                    forall|m2: int| 0 <= m2 < unit@.len() ==> (#[trigger] unit@[m2]).1.rm() < 81,
                    forall|m2: int| 0 <= m2 < unit@.len() ==> (#[trigger] unit@[m2]).0.wf(),
                    forall|m2: int, dd: Digit|
                        0 <= m2 < unit@.len() ==> (#[trigger] unit@[m2].0.has_candidate(dd))
                            == !forbidden(g0, unit@[m2].1.rm(), dd),
                    forall|m1: int, m2: int|
                        0 <= m1 < m2 < unit@.len() ==> (#[trigger] unit@[m1]).1.rm() != (
                        #[trigger] unit@[m2]).1.rm(),
                decreases unit@.len() - m,
            {
                let (dm, _cell_here) = unit[m];
                if dm.size() as usize == k {
                    let mut cells: Vec<CellIdx> = Vec::new();
                    let mut m2: usize = 0;
                    while m2 < unit.len()
                        invariant
                            m < unit@.len(),
                            m2 <= unit@.len(),
                            dm == unit@[m as int].0,
                            dm.wf(),
                            forall|i: int| 0 <= i < unit@.len() ==> g0[(#[trigger] unit@[i]).1.rm()] is None,
                            forall|i: int| 0 <= i < unit@.len() ==> (#[trigger] unit@[i]).1.rm() < 81,
                            forall|i: int| 0 <= i < unit@.len() ==> (#[trigger] unit@[i]).0.wf(),
                            forall|i: int, dd: Digit|
                                0 <= i < unit@.len() ==> (#[trigger] unit@[i].0.has_candidate(dd))
                                    == !forbidden(g0, unit@[i].1.rm(), dd),
                            forall|i1: int, i2: int|
                                0 <= i1 < i2 < unit@.len() ==> (#[trigger] unit@[i1]).1.rm() != (
                                #[trigger] unit@[i2]).1.rm(),
                            forall|i: int|
                                0 <= i < cells@.len() ==> exists|j: int|
                                    0 <= j < m2 && (#[trigger] cells@[i]) == unit@[j].1
                                        && unit@[j].0 == dm,
                            forall|i1: int, i2: int|
                                0 <= i1 < i2 < cells@.len() ==> (#[trigger] cells@[i1]).rm() != (
                                #[trigger] cells@[i2]).rm(),
                            cells@.len() <= m2,
                        decreases unit@.len() - m2,
                    {
                        let (dm2, c2) = unit[m2];
                        if dm2.0.low() == dm.0.low() {
                            proof {
                                assert(dm2.0.raw() == dm.0.raw());
                                assert(dm2 == dm);
                            }
                            let ghost prev = cells@;
                            cells.push(c2);
                            proof {
                                assert forall|i: int| 0 <= i < cells@.len() implies exists|j: int|
                                    0 <= j < m2 + 1 && (#[trigger] cells@[i]) == unit@[j].1
                                        && unit@[j].0 == dm by {
                                    if i < prev.len() {
                                        assert(cells@[i] == prev[i]);
                                        let j = choose|j: int|
                                            0 <= j < m2 && (#[trigger] prev[i]) == unit@[j].1
                                                && unit@[j].0 == dm;
                                        assert(0 <= j < m2 + 1 && cells@[i] == unit@[j].1
                                            && unit@[j].0 == dm);
                                    } else {
                                        assert(cells@[i] == unit@[m2 as int].1);
                                        assert(0 <= m2 < m2 + 1 && cells@[i] == unit@[
                                            m2 as int
                                        ].1 && unit@[m2 as int].0 == dm);
                                    }
                                }
                                assert forall|i1: int, i2: int|
                                    0 <= i1 < i2 < cells@.len() implies (#[trigger] cells@[i1]).rm()
                                    != (#[trigger] cells@[i2]).rm() by {
                                    if i2 == cells@.len() - 1 {
                                        assert(cells@[i1] == prev[i1]);
                                        let j = choose|j: int|
                                            0 <= j < m2 && (#[trigger] prev[i1]) == unit@[j].1
                                                && unit@[j].0 == dm;
                                        assert(cells@[i2] == unit@[m2 as int].1);
                                        assert(unit@[j].1.rm() != unit@[m2 as int].1.rm());
                                    } else {
                                        assert(cells@[i1] == prev[i1] && cells@[i2] == prev[i2]);
                                    }
                                }
                            }
                        }
                        m2 = m2 + 1;
                    }
                    if cells.len() == k {
                        let ghost sset = Set::new(|d: Digit| dm.has_candidate(d));
                        let sdigits = dm.iter();
                        proof {
                            assert forall|i: int|
                                0 <= i < cells@.len() implies g0[(#[trigger] cells@[i]).rm()]
                                is None && (#[trigger] cells@[i]).rm() < 81 by {
                                let j = choose|j: int|
                                    0 <= j < unit@.len() && (#[trigger] cells@[i]) == unit@[j].1
                                        && unit@[j].0 == dm;
                            }
                            assert(subset_forced(g0, cells@, sset)) by {
                                assert forall|g2: Seq<Option<Digit>>, i: int|
                                    #[trigger] completes(g0, g2) && 0 <= i < cells@.len() implies sset.contains(
                                    g2[(#[trigger] cells@[i]).rm()]->0,
                                ) by {
                                    let j = choose|j: int|
                                        0 <= j < unit@.len() && (#[trigger] cells@[i]) == unit@[
                                            j
                                        ].1 && unit@[j].0 == dm;
                                    lemma_completion_in_domain(g0, g2, cells@[i].rm());
                                    let dd = g2[cells@[i].rm()]->0;
                                    assert(unit@[j].0.has_candidate(dd) == !forbidden(
                                        g0,
                                        unit@[j].1.rm(),
                                        dd,
                                    ));
                                    assert(dm.has_candidate(dd));
                                }
                            }
                            assert forall|d: Digit| sset.contains(d) implies sdigits@.contains(
                                d,
                            ) by {
                                assert(dm.has_candidate(d));
                            }
                        }
                        let r = try_subset(
                            rl,
                            grid,
                            cons,
                            diff,
                            &cells,
                            &sdigits,
                            0,
                            Ghost(sset),
                            Ghost(g0),
                        );
                        return r;
                    }
                }
                m = m + 1;
            }
            u = u + 1;
        }
        k = k + 1;
    }
    // Step 5: hidden subsets, unit by unit.
    let mut u: usize = 0;
    while u < 27
        invariant
            RATE >= 1,
            grid.well_formed(),
            cons.wf(),
            grid.cells() == g0,
            cons.matches(g0),
            diff@ == diff0,
            g0 == old(grid).cells(),
            diff0 == old(diff)@,
            rl.cancellation_flag == old(rl).cancellation_flag,
            rl.count >= old(rl).count,
            old(rl).count < u64::MAX ==> rl.count > old(rl).count,
            !(old(rl).count % RATE == 0 && old(rl).cancellation_flag.spec_const() == Some(true)),
            !grid_full(g0),
            !overconstrained(g0),
            u <= 27,
        decreases 27 - u,
    {
        let unit = unit_empties(grid, cons, u);
        let mut hs = crate::hidden_sets::HiddenSets::new();
        hs.init(&unit);
        let mut k: usize = 1;
        while k <= 5
            invariant
                RATE >= 1,
                grid.well_formed(),
                cons.wf(),
                grid.cells() == g0,
                cons.matches(g0),
                diff@ == diff0,
                g0 == old(grid).cells(),
                diff0 == old(diff)@,
                rl.cancellation_flag == old(rl).cancellation_flag,
                rl.count >= old(rl).count,
                old(rl).count < u64::MAX ==> rl.count > old(rl).count,
                !(old(rl).count % RATE == 0 && old(rl).cancellation_flag.spec_const() == Some(
                    true,
                )),
                !grid_full(g0),
                !overconstrained(g0),
                u < 27,
                1 <= k <= 6,
                hs.wf(),
                hs.describes(unit@),
                forall|m2: int| 0 <= m2 < unit@.len() ==> g0[(#[trigger] unit@[m2]).1.rm()] is None,
                forall|m2: int| 0 <= m2 < unit@.len() ==> (#[trigger] unit@[m2]).1.rm() < 81,
                forall|m2: int| 0 <= m2 < unit@.len() ==> (#[trigger] unit@[m2]).0.wf(),
                forall|m2: int, dd: Digit|
                    0 <= m2 < unit@.len() ==> (#[trigger] unit@[m2].0.has_candidate(dd))
                        == !forbidden(g0, unit@[m2].1.rm(), dd),
                forall|m1: int, m2: int|
                    0 <= m1 < m2 < unit@.len() ==> (#[trigger] unit@[m1]).1.rm() != (
                    #[trigger] unit@[m2]).1.rm(),
                forall|m2: int|
                    0 <= m2 < unit@.len() ==> in_unit(u as int, (#[trigger] unit@[m2]).1.rm()),
                forall|k2: int|
                    0 <= k2 < 9 && g0[#[trigger] unit_cell(u as int, k2)] is None ==> exists|m2: int|
                        0 <= m2 < unit@.len() && (#[trigger] unit@[m2]).1.rm() == unit_cell(
                            u as int,
                            k2,
                        ),
            decreases 6 - k,
        {
            match hs.map_first(k as u8) {
                None => {},
                Some((hdom, hcells)) => {
                    if 1 <= hcells.len() && hcells.len() <= 5 && hdom.size() as usize
                        == hcells.len() {
                        let ghost sset = Set::new(|dd: Digit| hdom.has_candidate(dd));
                        let sdigits = hdom.iter();
                        proof {
                            lemma_digit_index_inverse();
                            let d = choose|d: int|
                                0 <= d < 9 && hcells@ == (#[trigger] hs.elts_per_digit@[d])@ && (
                                forall|dd: Digit|
                                    #[trigger] hdom.has_candidate(dd) == hs.eq.mbit(
                                        d,
                                        dd.as_int(),
                                    ));
                            crate::hidden_sets::lemma_bucket_distinct(
                                unit@,
                                d,
                                unit@.len() as int,
                            );
                            assert forall|i: int|
                                0 <= i < hcells@.len() implies g0[(#[trigger] hcells@[i]).rm()]
                                is None && (#[trigger] hcells@[i]).rm() < 81 by {
                                assert(crate::hidden_sets::unit_admits(
                                    unit@,
                                    d,
                                    unit@.len() as int,
                                    hcells@[i],
                                ));
                                let j = choose|j: int|
                                    0 <= j < unit@.len() && (#[trigger] unit@[j]).1 == hcells@[i]
                                        && unit@[j].0.has_candidate(Digit::spec_from_index(d));
                            }
                            // Each hidden cell sits at some slot of unit u.
                            let ks = Seq::new(
                                hcells@.len() as nat,
                                |i: int|
                                    choose|k2: int|
                                        0 <= k2 < 9 && hcells@[i].rm() == unit_cell(u as int, k2),
                            );
                            assert forall|i: int|
                                0 <= i < ks.len() implies 0 <= #[trigger] ks[i] < 9 && unit_cell(
                                u as int,
                                ks[i],
                            ) == hcells@[i].rm() by {
                                assert(crate::hidden_sets::unit_admits(
                                    unit@,
                                    d,
                                    unit@.len() as int,
                                    hcells@[i],
                                ));
                                let j = choose|j: int|
                                    0 <= j < unit@.len() && (#[trigger] unit@[j]).1 == hcells@[i]
                                        && unit@[j].0.has_candidate(Digit::spec_from_index(d));
                                assert(in_unit(u as int, unit@[j].1.rm()));
                                let k2 = choose|k2: int|
                                    0 <= k2 < 9 && unit@[j].1.rm() == unit_cell(u as int, k2);
                                assert(0 <= k2 < 9 && hcells@[i].rm() == unit_cell(u as int, k2));
                            }
                            assert forall|i1: int, i2: int|
                                0 <= i1 < i2 < ks.len() implies ks[i1] != ks[i2] by {
                                assert(hcells@[i1].rm() != hcells@[i2].rm());
                            }
                            assert(ks.no_duplicates());
                            // The candidate set has exactly as many digits as cells.
                            let ds = domain_digit_seq(hdom, 9);
                            assert(ds.no_duplicates());
                            ds.unique_seq_to_set();
                            assert(sset =~= ds.to_set()) by {
                                assert forall|dd: Digit| sset.contains(dd) implies ds.to_set().contains(
                                    dd,
                                ) by {
                                    assert(ds.contains(dd));
                                }
                                assert forall|dd: Digit| ds.to_set().contains(dd) implies sset.contains(
                                    dd,
                                ) by {
                                    let mm = choose|mm: int| 0 <= mm < ds.len() && ds[mm] == dd;
                                    assert(hdom.has_candidate(ds[mm]));
                                }
                            }
                            assert(sset.finite() && sset.len() == ks.len());
                            // Any empty slot of the unit that admits a digit of the
                            // group is one of the hidden cells.
                            assert forall|dd: Digit, k2: int|
                                #![trigger sset.contains(dd), unit_cell(u as int, k2)]
                                sset.contains(dd) && 0 <= k2 < 9 && g0[unit_cell(u as int, k2)]
                                    is None && !forbidden(g0, unit_cell(u as int, k2), dd)
                                implies ks.contains(k2) by {
                                let m2 = choose|m2: int|
                                    0 <= m2 < unit@.len() && (#[trigger] unit@[m2]).1.rm()
                                        == unit_cell(u as int, k2);
                                assert(unit@[m2].0.has_candidate(dd));
                                assert(Digit::spec_from_index(dd.as_int()) == dd);
                                crate::hidden_sets::lemma_bucket_complete(
                                    unit@,
                                    dd.as_int(),
                                    unit@.len() as int,
                                );
                                assert(crate::hidden_sets::bucket_spec(
                                    unit@,
                                    dd.as_int(),
                                    unit@.len() as int,
                                ).contains(unit@[m2].1));
                                assert(hs.eq.mbit(d, dd.as_int()));
                                assert(hcells@ == crate::hidden_sets::bucket_spec(
                                    unit@,
                                    dd.as_int(),
                                    unit@.len() as int,
                                ));
                                let i = choose|i: int|
                                    0 <= i < hcells@.len() && hcells@[i] == unit@[m2].1;
                                assert(unit_cell(u as int, ks[i]) == hcells@[i].rm());
                                assert(hcells@[i].rm() == unit_cell(u as int, k2));
                                if ks[i] != k2 {
                                    crate::grid::lemma_unit_cells_distinct(u as int, ks[i], k2);
                                }
                                assert(ks[i] == k2);
                            }
                            // No digit of the group is already placed in the unit.
                            assert forall|dd: Digit, k2: int|
                                #![trigger sset.contains(dd), unit_cell(u as int, k2)]
                                sset.contains(dd) && 0 <= k2 < 9 implies g0[unit_cell(
                                u as int,
                                k2,
                            )] != Some(dd) by {
                                if g0[unit_cell(u as int, k2)] == Some(dd) {
                                    assert(hs.eq.mbit(d, dd.as_int()));
                                    assert(hcells@ == crate::hidden_sets::bucket_spec(
                                        unit@,
                                        dd.as_int(),
                                        unit@.len() as int,
                                    ));
                                    crate::hidden_sets::lemma_bucket_member(
                                        unit@,
                                        dd.as_int(),
                                        unit@.len() as int,
                                    );
                                    assert(crate::hidden_sets::unit_admits(
                                        unit@,
                                        dd.as_int(),
                                        unit@.len() as int,
                                        hcells@[0],
                                    ));
                                    let j = choose|j: int|
                                        0 <= j < unit@.len() && (#[trigger] unit@[j]).1 == hcells@[
                                            0
                                        ] && unit@[j].0.has_candidate(
                                            Digit::spec_from_index(dd.as_int()),
                                        );
                                    assert(unit@[j].0.has_candidate(dd) == !forbidden(
                                        g0,
                                        unit@[j].1.rm(),
                                        dd,
                                    ));
                                    let c0 = hcells@[0].rm();
                                    assert(!forbidden(g0, c0, dd));
                                    let b = unit_cell(u as int, k2);
                                    lemma_unit_cell_range(u as int, k2);
                                    assert(c0 == unit_cell(u as int, ks[0]));
                                    if ks[0] == k2 {
                                        assert(g0[c0] is None);
                                        assert(false);
                                    } else {
                                        crate::grid::lemma_unit_cells_same_unit(
                                            u as int,
                                            ks[0],
                                            k2,
                                        );
                                        crate::grid::lemma_unit_cells_distinct(
                                            u as int,
                                            ks[0],
                                            k2,
                                        );
                                        crate::completion::lemma_forbidden_neighbor(g0, c0, dd);
                                        assert(forbidden(g0, c0, dd));
                                        assert(false);
                                    }
                                }
                            }
                            // The hidden-subset law forces every completion to draw
                            // these cells' digits from the group.
                            assert(subset_forced(g0, hcells@, sset)) by {
                                assert forall|g2: Seq<Option<Digit>>, i: int|
                                    #[trigger] completes(g0, g2) && 0 <= i < hcells@.len()
                                    implies sset.contains(g2[(#[trigger] hcells@[i]).rm()]->0) by {
                                    crate::completion::law_hidden_subset(g0, g2, u as int, ks, sset);
                                    assert(g2[unit_cell(u as int, ks[i])] is Some && sset.contains(
                                        g2[unit_cell(u as int, ks[i])]->0,
                                    ));
                                    assert(unit_cell(u as int, ks[i]) == hcells@[i].rm());
                                }
                            }
                            assert forall|dd: Digit| sset.contains(dd) implies sdigits@.contains(
                                dd,
                            ) by {
                                assert(hdom.has_candidate(dd));
                            }
                        }
                        let r = try_subset(
                            rl,
                            grid,
                            cons,
                            diff,
                            &hcells,
                            &sdigits,
                            0,
                            Ghost(sset),
                            Ghost(g0),
                        );
                        return r;
                    }
                },
            }
            k = k + 1;
        }
        u = u + 1;
    }
    // Step 6: branch on the empty cells, smallest domains first.
    let empties = empty_cells_by_domain_size(grid, cons);
    let mut m: usize = 0;
    while m < empties.len()
        invariant
            RATE >= 1,
            grid.well_formed(),
            cons.wf(),
            grid.cells() == g0,
            cons.matches(g0),
            diff@ == diff0,
            g0 == old(grid).cells(),
            diff0 == old(diff)@,
            rl.cancellation_flag == old(rl).cancellation_flag,
            rl.count >= old(rl).count,
            old(rl).count < u64::MAX ==> rl.count > old(rl).count,
            !(old(rl).count % RATE == 0 && old(rl).cancellation_flag.spec_const() == Some(true)),
            !grid_full(g0),
            !overconstrained(g0),
            m <= empties@.len(),
            forall|i: int| 0 <= i < empties@.len() ==> g0[(#[trigger] empties@[i]).rm()] is None,
            m >= 1 ==> no_completion(g0),
        decreases empties@.len() - m,
    {
        let cell = empties[m];
        let dom = cell_domain(cons, cell, Ghost(g0));
        let digits = dom.iter();
        let mut j: usize = 0;
        while j < digits.len()
            invariant
                RATE >= 1,
                grid.well_formed(),
                cons.wf(),
                grid.cells() == g0,
                cons.matches(g0),
                diff@ == diff0,
                g0 == old(grid).cells(),
                diff0 == old(diff)@,
                rl.cancellation_flag == old(rl).cancellation_flag,
                rl.count >= old(rl).count,
                old(rl).count < u64::MAX ==> rl.count > old(rl).count,
                !(old(rl).count % RATE == 0 && old(rl).cancellation_flag.spec_const() == Some(
                    true,
                )),
                !grid_full(g0),
                !overconstrained(g0),
                m < empties@.len(),
                cell == empties@[m as int],
                g0[cell.rm()] is None,
                cell.rm() < 81,
                grid_seq_wf(g0),
                j <= digits@.len(),
                forall|i: int| 0 <= i < digits@.len() ==> dom.has_candidate(#[trigger] digits@[i]),
                forall|dd: Digit|
                    dom.has_candidate(dd) ==> exists|i: int|
                        0 <= i < digits@.len() && digits@[i] == dd,
                dom.wf(),
                forall|dd: Digit| #[trigger] dom.has_candidate(dd) == !forbidden(g0, cell.rm(), dd),
                forall|g2: Seq<Option<Digit>>, jj: int|
                    #[trigger] completes(g0, g2) && 0 <= jj < j ==> g2[cell.rm()]->0
                        != #[trigger] digits@[jj],
            decreases digits@.len() - j,
        {
            let mut batch: Vec<(CellIdx, Digit)> = Vec::new();
            batch.push((cell, digits[j]));
            proof {
                assert(batch@.len() == 1);
                assert(batch@[0] == (cell, digits@[j as int]));
                assert(dom.has_candidate(digits@[j as int]));
            }
            let r = solve_inner(rl, grid, cons, diff, &batch);
            match r {
                Ok(n) => {
                    return Ok(n);
                },
                Err(SolverError::Cancelled) => {
                    return Err(SolverError::Cancelled);
                },
                Err(e) => {
                    proof {
                        assert(e != SolverError::ConstraintsViolated);
                        assert(e == SolverError::Infeasible);
                        let d = digits@[j as int];
                        let g1 = g0.update(cell.rm(), Some(d));
                        assert(apply_placements(g0, batch@) == g1) by {
                            assert(batch@.len() == 1 && batch@[0] == (cell, d));
                            let e0: Seq<(CellIdx, Digit)> = Seq::empty();
                            assert(batch@.drop_first() =~= e0);
                            assert(apply_placements(g0, batch@) == apply_placements(g1, e0));
                            assert(apply_placements(g1, e0) == g1);
                        }
                        assert(no_completion(g1));
                        assert forall|g2: Seq<Option<Digit>>, jj: int|
                            #[trigger] completes(g0, g2) && 0 <= jj < j + 1 implies g2[cell.rm()]->0
                            != #[trigger] digits@[jj] by {
                            if jj == j && g2[cell.rm()]->0 == digits@[jj] {
                                assert(g2[cell.rm()] is Some) by {
                                    assert(grid_full(g2));
                                }
                                lemma_completes_fill(g0, cell.rm(), d, g2);
                                assert(completes(g1, g2));
                                assert(false);
                            }
                        }
                    }
                },
            }
            j = j + 1;
        }
        proof {
            assert forall|g2: Seq<Option<Digit>>| !completes(g0, g2) by {
                if completes(g0, g2) {
                    lemma_completion_in_domain(g0, g2, cell.rm());
                    let dstar = g2[cell.rm()]->0;
                    assert(dom.has_candidate(dstar));
                    let i = choose|i: int| 0 <= i < digits@.len() && digits@[i] == dstar;
                    assert(g2[cell.rm()]->0 != digits@[i]);
                    assert(false);
                }
            }
        }
        m = m + 1;
    }
    proof {
        assert(empties@.len() >= 1) by {
            let i = choose|i: int| 0 <= i < 81 && !(g0[i] is Some);
            assert(g0[i] is None);
            let mm = choose|mm: int|
                0 <= mm < empties@.len() && (#[trigger] empties@[mm]).rm() == i;
        }
        assert(no_completion(g0));
    }
    Err(SolverError::Infeasible)
}
// ---------------------------------------------------------------------------
/// Counts the polls and consults the wrapped flag only on every `RATE`-th one,
/// starting with the very first.
#[derive(Debug)]
pub struct RateLimitedCancellationFlag<'a, const RATE: u64, C: CancellationFlag> {
    pub count: u64,
    pub cancellation_flag: &'a C,
}

impl<'a, const RATE: u64, C: CancellationFlag> RateLimitedCancellationFlag<'a, RATE, C> {
    pub fn new(cancellation_flag: &'a C) -> (r: Self)
        ensures
            r.count == 0,
            r.cancellation_flag == cancellation_flag,
    {
        RateLimitedCancellationFlag { count: 0, cancellation_flag }
    }

    /// Polls: every `RATE`-th call reaches the wrapped flag, the others answer
    /// `false` without looking.
    pub fn cancelled(&mut self) -> (r: bool)
        requires
            RATE >= 1,
        ensures
            final (self).cancellation_flag == old(self).cancellation_flag,
            old(self).count < u64::MAX ==> final (self).count == old(self).count + 1,
            old(self).count == u64::MAX ==> final (self).count == u64::MAX,
            final (self).count > 0,
            r ==> old(self).count % RATE == 0,
            r ==> old(self).cancellation_flag.spec_const() != Some(false),
            (old(self).count % RATE == 0 && old(self).cancellation_flag.spec_const() == Some(true))
                ==> r,
    {
        let consult = self.count % RATE == 0;
        if self.count < u64::MAX {
            self.count = self.count + 1;
        }
        consult && self.cancellation_flag.cancelled()
    }

    /// How many times the solver has polled.
    pub fn count(&self) -> (r: u64)
        ensures
            r == self.count,
    {
        self.count
    }

    /// Whether the solver never even polled; the solve entry reads a root-level
    /// infeasibility with this still true as a constraint violation.
    pub fn never_checked(&self) -> (r: bool)
        ensures
            r == (self.count == 0),
    {
        self.count == 0
    }
}


// ---------------------------------------------------------------------------
// The solver entry.
// ---------------------------------------------------------------------------
/// The `(cell, digit)` pairs named by a diff's `Place` entries.
pub open spec fn diff_pairs(ds: Seq<GridDiff>) -> Seq<(CellIdx, Digit)> {
    Seq::new(
        ds.len(),
        |k: int|
            match ds[k] {
                GridDiff::Place(c, v) => (c, v),
                GridDiff::Unset(c) => (c, Digit::D1),
            },
    )
}

/// Anything that can try to complete a grid under a cancellation flag.
///
/// On success the placement list covers exactly the initially empty cells and
/// completes the grid into a full valid Sudoku. `ConstraintsViolated` comes
/// exactly when the input already repeats a digit in some unit, checked
/// before the search. `Infeasible` comes only when no completion exists at
/// all, so under a never-raised flag success is owed on every solvable,
/// rule-abiding input. A constantly raised flag cancels every other search
/// that must actually recurse.
pub trait Solver {
    fn solve<C: CancellationFlag, T: Grid>(&self, cancellation_flag: &C, grid: &T) -> (res: Result<
        Vec<GridDiff>,
        SolverError,
    >)
        requires
            grid.well_formed(),
        ensures
            (match res {
                Ok(ds) => {
                    &&& forall|k: int| 0 <= k < ds@.len() ==> (#[trigger] ds@[k]) is Place
                    &&& ds@.len() == count_none(grid.cells())
                    &&& placements_ok(grid.cells(), diff_pairs(ds@))
                    &&& grid_valid(grid.cells())
                    &&& grid_full(apply_placements(grid.cells(), diff_pairs(ds@)))
                    &&& grid_valid(apply_placements(grid.cells(), diff_pairs(ds@)))
                    &&& (forall|k1: int, k2: int|
                        0 <= k1 < k2 < ds@.len() ==> (#[trigger] diff_pairs(ds@)[k1]).0.rm() < (
                        #[trigger] diff_pairs(ds@)[k2]).0.rm())
                },
                Err(SolverError::ConstraintsViolated) => !grid_valid(grid.cells()),
                Err(SolverError::Cancelled) => cancellation_flag.spec_const() != Some(false)
                    && grid_valid(grid.cells()) && !grid_full(grid.cells()),
                Err(SolverError::Infeasible) => grid_valid(grid.cells()) && !grid_full(
                    grid.cells(),
                ) && no_completion(grid.cells()),
            }),
            !grid_valid(grid.cells()) ==> res == Err::<Vec<GridDiff>, SolverError>(
                SolverError::ConstraintsViolated,
            ),
            (grid_valid(grid.cells()) && grid_full(grid.cells())) ==> res is Ok,
            (cancellation_flag.spec_const() == Some(true) && grid_valid(grid.cells())
                && !grid_full(grid.cells()) && !overconstrained(grid.cells())) ==> res == Err::<
                Vec<GridDiff>,
                SolverError,
            >(SolverError::Cancelled),
            (cancellation_flag.spec_const() == Some(false) && grid_valid(grid.cells()) && (
            exists|g2: Seq<Option<Digit>>| completes(grid.cells(), g2))) ==> res is Ok,
    ;
}

/// The constraint-propagation backtracking solver.
#[derive(Debug)]
pub struct GreedySolver;

impl GreedySolver {
    pub fn new() -> (r: GreedySolver)
    {
        GreedySolver
    }
}

impl Solver for GreedySolver {
    fn solve<C: CancellationFlag, T: Grid>(&self, cancellation_flag: &C, grid: &T) -> (res: Result<
        Vec<GridDiff>,
        SolverError,
    >) {
        proof {
            grid.wf_len();
        }
        let ghost gv = grid.cells();
        let mut work: ArrGrid = crate::grid::copy_into(grid);
        proof {
            assert(work.cells() =~= gv);
        }
        let mut cons = Constraints::from_grid(&work);
        match crate::status::eval_status(&work) {
            Err(_) => {
                return Err(SolverError::ConstraintsViolated);
            },
            Ok(_) => {},
        }
        let mut rl: RateLimitedCancellationFlag<1024, C> = RateLimitedCancellationFlag::new(
            cancellation_flag,
        );
        let mut diff: Vec<(CellIdx, Digit)> = Vec::new();
        let r = solve_step(&mut rl, &mut work, &mut cons, &mut diff);
        match r {
            Ok(n) => {
                proof {
                    assert(diff@.skip(0) =~= diff@);
                }
                let ghost ps0 = diff@;
                let ghost gv2 = gv;
                let mut out: Vec<GridDiff> = Vec::new();
                let mut i: usize = 0;
                while i < 81
                    invariant
                        grid.well_formed(),
                        gv == grid.cells(),
                        gv.len() == 81,
                        diff@ == ps0,
                        placements_ok(gv, ps0),
                        i <= 81,
                        out@.len() == count_none_below(gv, i as int),
                        forall|k: int| 0 <= k < out@.len() ==> (#[trigger] out@[k]) is Place,
                        forall|k: int|
                            0 <= k < out@.len() ==> exists|k2: int|
                                0 <= k2 < ps0.len() && #[trigger] diff_pairs(out@)[k] == ps0[k2],
                        forall|k: int|
                            0 <= k < out@.len() ==> (#[trigger] diff_pairs(out@)[k]).0.rm() < i,
                        forall|k1: int, k2: int|
                            0 <= k1 < k2 < out@.len() ==> (#[trigger] diff_pairs(out@)[k1]).0.rm()
                                < (#[trigger] diff_pairs(out@)[k2]).0.rm(),
                        forall|i2: int|
                            0 <= i2 < i && gv[i2] is None ==> exists|k: int|
                                0 <= k < out@.len() && (#[trigger] diff_pairs(out@)[k]).0.rm()
                                    == i2,
                        forall|k: int|
                            0 <= k < out@.len() ==> gv[(#[trigger] diff_pairs(out@)[k]).0.rm()]
                                is None,
                    decreases 81 - i,
                {
                    let cell = cell_of(i);
                    if grid.get(cell).is_none() {
                        let ghost prev = out@;
                        let mut k: usize = 0;
                        let mut found = false;
                        while k < diff.len() && !found
                            invariant
                                diff@ == ps0,
                                k <= ps0.len(),
                                i < 81,
                                !found ==> forall|k2: int|
                                    0 <= k2 < k ==> (#[trigger] ps0[k2]).0.rm() != i,
                                found ==> out@.len() == prev.len() + 1 && out@.take(
                                    prev.len() as int,
                                ) == prev && (exists|k2: int|
                                    0 <= k2 < ps0.len() && #[trigger] out@[prev.len() as int]
                                        == GridDiff::Place(ps0[k2].0, ps0[k2].1) && ps0[k2].0.rm()
                                        == i),
                                !found ==> out@ == prev,
                            decreases ps0.len() - k,
                        {
                            let (cc, vv) = diff[k];
                            if cc.row_major() == i {
                                out.push(GridDiff::Place(cc, vv));
                                proof {
                                    assert(out@.take(prev.len() as int) =~= prev);
                                    assert(out@[prev.len() as int] == GridDiff::Place(
                                        ps0[k as int].0,
                                        ps0[k as int].1,
                                    ) && ps0[k as int].0.rm() == i);
                                }
                                found = true;
                            }
                            k = k + 1;
                        }
                        proof {
                            assert(gv[i as int] is None);
                            if !found {
                                assert(k == ps0.len());
                                assert(ps_covers(ps0, i as int));
                                let k2 = choose|k2: int|
                                    0 <= k2 < ps0.len() && (#[trigger] ps0[k2]).0.rm() == i;
                                assert(ps0[k2].0.rm() != i);
                                assert(false);
                            }
                            assert(out@.len() == prev.len() + 1);
                            assert(diff_pairs(out@)[out@.len() - 1].0.rm() == i);
                            assert forall|k1: int, k2: int|
                                0 <= k1 < k2 < out@.len() implies (#[trigger] diff_pairs(
                                out@,
                            )[k1]).0.rm() < (#[trigger] diff_pairs(out@)[k2]).0.rm() by {
                                if k2 < prev.len() {
                                    assert(out@[k1] == prev[k1] && out@[k2] == prev[k2]);
                                    assert(diff_pairs(prev)[k1].0.rm() < diff_pairs(
                                        prev,
                                    )[k2].0.rm());
                                } else {
                                    assert(out@[k1] == prev[k1]);
                                    assert(diff_pairs(prev)[k1].0.rm() < i);
                                    assert(diff_pairs(out@)[k1].0.rm() == diff_pairs(
                                        prev,
                                    )[k1].0.rm());
                                }
                            }
                            assert forall|k2: int|
                                0 <= k2 < out@.len() implies (#[trigger] diff_pairs(
                                out@,
                            )[k2]).0.rm() < i + 1 by {
                                if k2 < prev.len() {
                                    assert(out@[k2] == prev[k2]);
                                } else {
                                    assert(diff_pairs(out@)[k2].0.rm() == i);
                                }
                            }
                            assert forall|k2: int|
                                0 <= k2 < out@.len() implies exists|k3: int|
                                0 <= k3 < ps0.len() && #[trigger] diff_pairs(out@)[k2]
                                    == ps0[k3] by {
                                if k2 < prev.len() {
                                    assert(out@[k2] == prev[k2]);
                                    let k3 = choose|k3: int|
                                        0 <= k3 < ps0.len() && #[trigger] diff_pairs(prev)[k2]
                                            == ps0[k3];
                                    assert(diff_pairs(out@)[k2] == ps0[k3]);
                                } else {
                                    let k3 = choose|k3: int|
                                        0 <= k3 < ps0.len() && #[trigger] out@[prev.len() as int]
                                            == GridDiff::Place(ps0[k3].0, ps0[k3].1) && ps0[
                                            k3
                                        ].0.rm() == i;
                                    assert(diff_pairs(out@)[k2] == ps0[k3]);
                                }
                            }
                            assert forall|i2: int|
                                0 <= i2 < i + 1 && gv[i2] is None implies exists|k2: int|
                                0 <= k2 < out@.len() && (#[trigger] diff_pairs(out@)[k2]).0.rm()
                                    == i2 by {
                                if i2 < i {
                                    let k2 = choose|k2: int|
                                        0 <= k2 < prev.len() && (#[trigger] diff_pairs(
                                            prev,
                                        )[k2]).0.rm() == i2;
                                    assert(diff_pairs(out@)[k2] == diff_pairs(prev)[k2]);
                                    assert(diff_pairs(out@)[k2].0.rm() == i2);
                                } else {
                                    assert(diff_pairs(out@)[out@.len() - 1].0.rm() == i2);
                                }
                            }
                            assert(out@.len() == count_none_below(gv, i + 1));
                            assert forall|k2: int|
                                0 <= k2 < out@.len() implies (#[trigger] out@[k2]) is Place by {
                                if k2 < prev.len() {
                                    assert(out@[k2] == prev[k2]);
                                } else {
                                    let k3 = choose|k3: int|
                                        0 <= k3 < ps0.len() && #[trigger] out@[prev.len() as int]
                                            == GridDiff::Place(ps0[k3].0, ps0[k3].1) && ps0[
                                            k3
                                        ].0.rm() == i;
                                }
                            }
                        }
                    } else {
                        proof {
                            assert(gv[i as int] is Some);
                            assert(count_none_below(gv, i + 1) == count_none_below(gv, i as int));
                        }
                    }
                    i = i + 1;
                }
                proof {
                    let newps = diff_pairs(out@);
                    assert(out@.len() == count_none(gv));
                    assert(placements_ok(gv, newps)) by {
                        assert forall|k1: int, k2: int|
                            0 <= k1 < k2 < newps.len() implies (#[trigger] newps[k1]).0.rm() != (
                        #[trigger] newps[k2]).0.rm() by {
                            assert(newps[k1].0.rm() < newps[k2].0.rm());
                        }
                    }
                    lemma_apply_pointwise_distinct(gv, ps0);
                    lemma_apply_pointwise_distinct(gv, newps);
                    assert(apply_placements(gv, newps) =~= apply_placements(gv, ps0)) by {
                        assert forall|i2: int|
                            0 <= i2 < 81 implies apply_placements(gv, newps)[i2]
                            == apply_placements(gv, ps0)[i2] by {
                            if gv[i2] is None {
                                let k = choose|k: int|
                                    0 <= k < newps.len() && (#[trigger] newps[k]).0.rm() == i2;
                                let k3 = choose|k3: int|
                                    0 <= k3 < ps0.len() && #[trigger] newps[k] == ps0[k3];
                                assert(apply_placements(gv, newps)[i2] == Some(newps[k].1));
                                assert(apply_placements(gv, ps0)[ps0[k3].0.rm()] == Some(
                                    ps0[k3].1,
                                ));
                            } else {
                                assert(!ps_covers(newps, i2)) by {
                                    if ps_covers(newps, i2) {
                                        let k = choose|k: int|
                                            0 <= k < newps.len() && (#[trigger] newps[k]).0.rm()
                                                == i2;
                                        assert(gv[newps[k].0.rm()] is None);
                                    }
                                }
                                assert(!ps_covers(ps0, i2)) by {
                                    if ps_covers(ps0, i2) {
                                        let k = choose|k: int|
                                            0 <= k < ps0.len() && (#[trigger] ps0[k]).0.rm() == i2;
                                        assert(gv[ps0[k].0.rm()] is None);
                                    }
                                }
                                assert(apply_placements(gv, newps)[i2] == gv[i2]);
                                assert(apply_placements(gv, ps0)[i2] == gv[i2]);
                            }
                        }
                    }
                }
                Ok(out)
            },
            Err(e) => Err(e),
        }
    }
}

} // verus!
