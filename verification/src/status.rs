//! Classifies a grid as complete, incomplete, or in violation of the rules.
use crate::grid::{
    grid_full, grid_seq_wf, grid_valid, lemma_same_unit_witness, lemma_unit_cell_range,
    lemma_unit_cells_distinct, lemma_unit_cells_same_unit, unit_cell, CellIdx, Digit, Grid,
};
use vstd::prelude::*;

verus! {

/// What the checker says of a grid it accepts.
#[derive(Debug, Clone, Copy, PartialEq, Eq, Structural)]
pub enum SudokuStatus {
    Incomplete,
    Complete,
}

/// Raised when some unit holds a digit twice.
#[derive(Debug, Clone, Copy, PartialEq, Eq, Structural)]
pub struct SudokuStatusError;

/// What `eval_status` answers, at the spec level: `None` stands for the error.
pub open spec fn spec_status(g: Seq<Option<Digit>>) -> Option<SudokuStatus> {
    if !grid_valid(g) {
        None
    } else if grid_full(g) {
        Some(SudokuStatus::Complete)
    } else {
        Some(SudokuStatus::Incomplete)
    }
}

/// How many of slots `0 .. n` of unit `u` hold digit `d`.
pub open spec fn unit_digit_count(g: Seq<Option<Digit>>, u: int, d: Digit, n: int) -> nat
    decreases n,
{
    if n <= 0 {
        0
    } else {
        unit_digit_count(g, u, d, n - 1) + (if g[unit_cell(u, n - 1)] == Some(d) {
            1nat
        } else {
            0nat
        })
    }
}

proof fn lemma_count_ge_two(g: Seq<Option<Digit>>, u: int, d: Digit, n: int)
    requires
        unit_digit_count(g, u, d, n) >= 2,
    ensures
        exists|k1: int, k2: int|
            0 <= k1 < k2 < n && g[#[trigger] unit_cell(u, k1)] == Some(d) && g[
                #[trigger] unit_cell(u, k2)
            ] == Some(d),
    decreases n,
{
    lemma_count_positions(g, u, d, n - 1);
    if g[unit_cell(u, n - 1)] == Some(d) && unit_digit_count(g, u, d, n - 1) >= 1 {
        let k1 = choose|k1: int| 0 <= k1 < n - 1 && g[#[trigger] unit_cell(u, k1)] == Some(d);
        assert(0 <= k1 < n - 1 && g[unit_cell(u, k1)] == Some(d) && g[unit_cell(u, n - 1)] == Some(
            d,
        ));
    } else {
        lemma_count_ge_two(g, u, d, n - 1);
    }
}

proof fn lemma_count_positions(g: Seq<Option<Digit>>, u: int, d: Digit, n: int)
    ensures
        unit_digit_count(g, u, d, n) >= 1 ==> exists|k: int|
            0 <= k < n && g[#[trigger] unit_cell(u, k)] == Some(d),
    decreases n,
{
    if n > 0 {
        lemma_count_positions(g, u, d, n - 1);
    }
}

proof fn lemma_two_positions_count(g: Seq<Option<Digit>>, u: int, d: Digit, k1: int, k2: int, n: int)
    requires
        0 <= k1 < k2 < n,
        g[unit_cell(u, k1)] == Some(d),
        g[unit_cell(u, k2)] == Some(d),
    ensures
        unit_digit_count(g, u, d, n) >= 2,
    decreases n,
{
    if k2 == n - 1 {
        lemma_one_position_count(g, u, d, k1, n - 1);
    } else {
        lemma_two_positions_count(g, u, d, k1, k2, n - 1);
    }
}

proof fn lemma_one_position_count(g: Seq<Option<Digit>>, u: int, d: Digit, k: int, n: int)
    requires
        0 <= k < n,
        g[unit_cell(u, k)] == Some(d),
    ensures
        unit_digit_count(g, u, d, n) >= 1,
    decreases n,
{
    if k < n - 1 {
        lemma_one_position_count(g, u, d, k, n - 1);
    }
}

/// Checks every row, column and box: an error when some unit repeats a digit,
/// otherwise whether the grid is completely filled.
pub fn eval_status<T: Grid>(grid: &T) -> (r: Result<SudokuStatus, SudokuStatusError>)
    requires
        grid.well_formed(),
    ensures
        (match r {
            Err(_) => !grid_valid(grid.cells()),
            Ok(s) => Some(s) == spec_status(grid.cells()),
        }),
{
    proof {
        grid.wf_len();
    }
    let ghost g = grid.cells();
    let mut all_full: bool = true;
    let mut u: usize = 0;
    while u < 27
        invariant
            grid.well_formed(),
            g == grid.cells(),
            g.len() == 81,
            u <= 27,
            all_full <==> (forall|u2: int, k: int|
                0 <= u2 < u && 0 <= k < 9 ==> g[#[trigger] unit_cell(u2, k)] is Some),
            forall|u2: int, d: Digit| 0 <= u2 < u ==> unit_digit_count(g, u2, d, 9) <= 1,
        decreases 27 - u,
    {
        let mut counts: Vec<u8> = Vec::new();
        let mut z: usize = 0;
        while z < 9
            invariant
                z <= 9,
                counts@.len() == z,
                forall|j: int| 0 <= j < z ==> counts@[j] == 0u8,
            decreases 9 - z,
        {
            counts.push(0);
            z = z + 1;
        }
        let mut unit_full: bool = true;
        let mut k: usize = 0;
        while k < 9
            invariant
                grid.well_formed(),
                g == grid.cells(),
                g.len() == 81,
                u < 27,
                k <= 9,
                counts@.len() == 9,
                forall|d: Digit| #[trigger]
                    counts@[d.as_int()] == unit_digit_count(g, u as int, d, k as int),
                forall|j: int| 0 <= j < 9 ==> counts@[j] <= k,
                unit_full <==> (forall|k2: int|
                    0 <= k2 < k ==> g[#[trigger] unit_cell(u as int, k2)] is Some),
            decreases 9 - k,
        {
            proof {
                lemma_unit_cell_range(u as int, k as int);
            }
            let ci = unit_cell_exec(u, k);
            let cell = match CellIdx::try_of_row_major(ci) {
                Ok(c) => c,
                Err(_) => CellIdx { row: crate::grid::RowIdx::Row0, col: crate::grid::ColIdx::Col0 },
            };
            match grid.get(cell) {
                None => {
                    unit_full = false;
                },
                Some(d) => {
                    let di = d.to_u8() as usize;
                    let c = counts[di];
                    counts[di] = c + 1;
                    proof {
                        crate::grid::lemma_digit_index_inverse();
                        assert forall|dd: Digit| #[trigger]
                            counts@[dd.as_int()] == unit_digit_count(
                                g,
                                u as int,
                                dd,
                                k + 1,
                            ) by {
                            if dd.as_int() != d.as_int() {
                                assert(counts@[dd.as_int()] == unit_digit_count(
                                    g,
                                    u as int,
                                    dd,
                                    k as int,
                                ));
                                assert(g[unit_cell(u as int, k as int)] != Some(dd));
                            } else {
                                assert(dd == d);
                            }
                        }
                    }
                },
            }
            k = k + 1;
        }
        let mut di: usize = 0;
        while di < 9
            invariant
                grid.well_formed(),
                g == grid.cells(),
                g.len() == 81,
                u < 27,
                counts@.len() == 9,
                di <= 9,
                forall|d: Digit| #[trigger]
                    counts@[d.as_int()] == unit_digit_count(g, u as int, d, 9),
                forall|j: int| 0 <= j < di ==> counts@[j] <= 1,
            decreases 9 - di,
        {
            if counts[di] > 1 {
                proof {
                    crate::grid::lemma_digit_index_inverse();
                    let d = Digit::spec_from_index(di as int);
                    assert(counts@[d.as_int()] == unit_digit_count(g, u as int, d, 9));
                    lemma_count_ge_two(g, u as int, d, 9);
                    let (k1, k2) = choose|k1: int, k2: int|
                        0 <= k1 < k2 < 9 && g[#[trigger] unit_cell(u as int, k1)] == Some(d) && g[
                            #[trigger] unit_cell(u as int, k2)
                        ] == Some(d);
                    lemma_unit_cell_range(u as int, k1);
                    lemma_unit_cell_range(u as int, k2);
                    lemma_unit_cells_distinct(u as int, k1, k2);
                    lemma_unit_cells_same_unit(u as int, k1, k2);
                    assert(!grid_valid(g));
                }
                return Err(SudokuStatusError);
            }
            di = di + 1;
        }
        proof {
            assert forall|d: Digit| unit_digit_count(g, u as int, d, 9) <= 1 by {
                assert(counts@[d.as_int()] <= 1);
            }
        }
        all_full = all_full && unit_full;
        u = u + 1;
    }
    proof {
        assert forall|a: int, b: int|
            0 <= a < 81 && 0 <= b < 81 && a != b && crate::grid::same_unit(a, b) && g[a] is Some
            implies g[a] != g[b] by {
            if g[a] == g[b] {
                let d = g[a]->0;
                lemma_same_unit_witness(a, b);
                let (uu, k1, k2) = choose|uu: int, k1: int, k2: int|
                    0 <= uu < 27 && 0 <= k1 < 9 && 0 <= k2 < 9 && k1 != k2 && a == unit_cell(
                        uu,
                        k1,
                    ) && b == unit_cell(uu, k2);
                if k1 < k2 {
                    lemma_two_positions_count(g, uu, d, k1, k2, 9);
                } else {
                    lemma_two_positions_count(g, uu, d, k2, k1, 9);
                }
            }
        }
        assert(grid_valid(g));
        if all_full {
            assert forall|i: int| 0 <= i < 81 implies g[i] is Some by {
                crate::grid::lemma_cell_id(i);
                assert(i == unit_cell(crate::grid::cell_row(i), crate::grid::cell_col(i)));
                assert(g[unit_cell(crate::grid::cell_row(i), crate::grid::cell_col(i))] is Some);
            }
        } else {
            let (u2, k) = choose|u2: int, k: int|
                !(0 <= u2 < 27 && 0 <= k < 9 ==> g[#[trigger] unit_cell(u2, k)] is Some);
            lemma_unit_cell_range(u2, k);
            assert(!grid_full(g));
        }
    }
    if all_full {
        Ok(SudokuStatus::Complete)
    } else {
        Ok(SudokuStatus::Incomplete)
    }
}

/// Whether the grid is a finished, rule-abiding Sudoku: every cell filled and
/// no digit repeated in any row, column or box.
pub fn is_complete<T: Grid>(grid: &T) -> (r: bool)
    requires
        grid.well_formed(),
    ensures
        r == (grid_full(grid.cells()) && grid_valid(grid.cells())),
{
    match eval_status(grid) {
        Ok(SudokuStatus::Complete) => true,
        _ => false,
    }
}

/// The row-major index of slot `k` of unit `u`.
fn unit_cell_exec(u: usize, k: usize) -> (r: usize)
    requires
        u < 27,
        k < 9,
    ensures
        r == unit_cell(u as int, k as int),
        r < 81,
{
    proof {
        lemma_unit_cell_range(u as int, k as int);
    }
    if u < 9 {
        u * 9 + k
    } else if u < 18 {
        k * 9 + (u - 9)
    } else {
        let b = u - 18;
        (b / 3 * 3 + k / 3) * 9 + (b % 3 * 3 + k % 3)
    }
}

} // verus!
