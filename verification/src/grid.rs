//! Cell indices, digits, the 81-slot grid, and the spec-level model of Sudoku
//! validity that the rest of the crate reasons about.
use vstd::prelude::*;

verus! {

/// A row index, `Row0` through `Row8`.
#[derive(Debug, Clone, Copy, PartialEq, Eq, Structural)]
pub enum RowIdx {
    Row0,
    Row1,
    Row2,
    Row3,
    Row4,
    Row5,
    Row6,
    Row7,
    Row8,
}

/// Raised when a number does not name one of the nine rows.
#[derive(Debug, Clone, Copy, PartialEq, Eq, Structural)]
pub struct IntoRowIdxError;

impl RowIdx {
    /// The row number, `0` through `8`.
    pub open spec fn as_int(self) -> int {
        match self {
            RowIdx::Row0 => 0,
            RowIdx::Row1 => 1,
            RowIdx::Row2 => 2,
            RowIdx::Row3 => 3,
            RowIdx::Row4 => 4,
            RowIdx::Row5 => 5,
            RowIdx::Row6 => 6,
            RowIdx::Row7 => 7,
            RowIdx::Row8 => 8,
        }
    }

    pub fn to_u8(self) -> (r: u8)
        ensures
            r == self.as_int(),
    {
        match self {
            RowIdx::Row0 => 0,
            RowIdx::Row1 => 1,
            RowIdx::Row2 => 2,
            RowIdx::Row3 => 3,
            RowIdx::Row4 => 4,
            RowIdx::Row5 => 5,
            RowIdx::Row6 => 6,
            RowIdx::Row7 => 7,
            RowIdx::Row8 => 8,
        }
    }

    pub fn from_u8(v: u8) -> (r: RowIdx)
        requires
            v < 9,
        ensures
            r.as_int() == v,
    {
        if v == 0 {
            RowIdx::Row0
        } else if v == 1 {
            RowIdx::Row1
        } else if v == 2 {
            RowIdx::Row2
        } else if v == 3 {
            RowIdx::Row3
        } else if v == 4 {
            RowIdx::Row4
        } else if v == 5 {
            RowIdx::Row5
        } else if v == 6 {
            RowIdx::Row6
        } else if v == 7 {
            RowIdx::Row7
        } else {
            RowIdx::Row8
        }
    }

    pub fn try_from_usize(v: usize) -> (r: Result<RowIdx, IntoRowIdxError>)
        ensures
            v < 9 <==> r is Ok,
            r is Ok ==> r->Ok_0.as_int() == v,
    {
        if v < 9 {
            Ok(RowIdx::from_u8(v as u8))
        } else {
            Err(IntoRowIdxError)
        }
    }
}

/// A column index, `Col0` through `Col8`.
#[derive(Debug, Clone, Copy, PartialEq, Eq, Structural)]
pub enum ColIdx {
    Col0,
    Col1,
    Col2,
    Col3,
    Col4,
    Col5,
    Col6,
    Col7,
    Col8,
}

/// Raised when a number does not name one of the nine columns.
#[derive(Debug, Clone, Copy, PartialEq, Eq, Structural)]
pub struct IntoColIdxError;

impl ColIdx {
    /// The column number, `0` through `8`.
    pub open spec fn as_int(self) -> int {
        match self {
            ColIdx::Col0 => 0,
            ColIdx::Col1 => 1,
            ColIdx::Col2 => 2,
            ColIdx::Col3 => 3,
            ColIdx::Col4 => 4,
            ColIdx::Col5 => 5,
            ColIdx::Col6 => 6,
            ColIdx::Col7 => 7,
            ColIdx::Col8 => 8,
        }
    }

    pub fn to_u8(self) -> (r: u8)
        ensures
            r == self.as_int(),
    {
        match self {
            ColIdx::Col0 => 0,
            ColIdx::Col1 => 1,
            ColIdx::Col2 => 2,
            ColIdx::Col3 => 3,
            ColIdx::Col4 => 4,
            ColIdx::Col5 => 5,
            ColIdx::Col6 => 6,
            ColIdx::Col7 => 7,
            ColIdx::Col8 => 8,
        }
    }

    pub fn from_u8(v: u8) -> (r: ColIdx)
        requires
            v < 9,
        ensures
            r.as_int() == v,
    {
        if v == 0 {
            ColIdx::Col0
        } else if v == 1 {
            ColIdx::Col1
        } else if v == 2 {
            ColIdx::Col2
        } else if v == 3 {
            ColIdx::Col3
        } else if v == 4 {
            ColIdx::Col4
        } else if v == 5 {
            ColIdx::Col5
        } else if v == 6 {
            ColIdx::Col6
        } else if v == 7 {
            ColIdx::Col7
        } else {
            ColIdx::Col8
        }
    }

    pub fn try_from_usize(v: usize) -> (r: Result<ColIdx, IntoColIdxError>)
        ensures
            v < 9 <==> r is Ok,
            r is Ok ==> r->Ok_0.as_int() == v,
    {
        if v < 9 {
            Ok(ColIdx::from_u8(v as u8))
        } else {
            Err(IntoColIdxError)
        }
    }
}

/// A placed value, `D1` through `D9`.
#[derive(Debug, Clone, Copy, PartialEq, Eq, Structural)]
pub enum Digit {
    D1,
    D2,
    D3,
    D4,
    D5,
    D6,
    D7,
    D8,
    D9,
}

/// Raised when a number or character does not name one of the nine digits.
#[derive(Debug, Clone, Copy, PartialEq, Eq, Structural)]
pub struct IntoDigitError;

impl Digit {
    /// The bitset slot of the digit: `D1` is `0`, `D9` is `8`.
    pub open spec fn as_int(self) -> int {
        match self {
            Digit::D1 => 0,
            Digit::D2 => 1,
            Digit::D3 => 2,
            Digit::D4 => 3,
            Digit::D5 => 4,
            Digit::D6 => 5,
            Digit::D7 => 6,
            Digit::D8 => 7,
            Digit::D9 => 8,
        }
    }

    pub fn to_u8(self) -> (r: u8)
        ensures
            r == self.as_int(),
    {
        match self {
            Digit::D1 => 0,
            Digit::D2 => 1,
            Digit::D3 => 2,
            Digit::D4 => 3,
            Digit::D5 => 4,
            Digit::D6 => 5,
            Digit::D7 => 6,
            Digit::D8 => 7,
            Digit::D9 => 8,
        }
    }

    pub fn from_u8(v: u8) -> (r: Digit)
        requires
            v < 9,
        ensures
            r.as_int() == v,
    {
        if v == 0 {
            Digit::D1
        } else if v == 1 {
            Digit::D2
        } else if v == 2 {
            Digit::D3
        } else if v == 3 {
            Digit::D4
        } else if v == 4 {
            Digit::D5
        } else if v == 5 {
            Digit::D6
        } else if v == 6 {
            Digit::D7
        } else if v == 7 {
            Digit::D8
        } else {
            Digit::D9
        }
    }

    pub fn try_from_usize(v: usize) -> (r: Result<Digit, IntoDigitError>)
        ensures
            v < 9 <==> r is Ok,
            r is Ok ==> r->Ok_0.as_int() == v,
    {
        if v < 9 {
            Ok(Digit::from_u8(v as u8))
        } else {
            Err(IntoDigitError)
        }
    }

    /// The ASCII form, `'1'` through `'9'`.
    pub fn as_ascii(&self) -> (r: u8)
        ensures
            r == 0x31 + self.as_int(),
    {
        0x31 + self.to_u8()
    }

    /// Reads the ASCII form back; exactly `'1'` through `'9'` are accepted.
    pub fn try_from_ascii(ascii: u8) -> (r: Result<Digit, IntoDigitError>)
        ensures
            (0x31 <= ascii <= 0x39) <==> r is Ok,
            r is Ok ==> r->Ok_0.as_int() == ascii - 0x31,
    {
        if 0x31 <= ascii && ascii <= 0x39 {
            Ok(Digit::from_u8(ascii - 0x31))
        } else {
            Err(IntoDigitError)
        }
    }

    /// Inverse of `as_int`, at the spec level.
    pub open spec fn spec_from_index(v: int) -> Digit {
        if v == 0 {
            Digit::D1
        } else if v == 1 {
            Digit::D2
        } else if v == 2 {
            Digit::D3
        } else if v == 3 {
            Digit::D4
        } else if v == 4 {
            Digit::D5
        } else if v == 5 {
            Digit::D6
        } else if v == 6 {
            Digit::D7
        } else if v == 7 {
            Digit::D8
        } else {
            Digit::D9
        }
    }
}

pub proof fn lemma_digit_index_inverse()
    ensures
        forall|d: Digit| Digit::spec_from_index(d.as_int()) == d,
        forall|v: int| 0 <= v < 9 ==> (#[trigger] Digit::spec_from_index(v)).as_int() == v,
{
}

/// A cell position: a row and a column.
#[derive(Debug, Clone, Copy, PartialEq, Eq, Structural)]
pub struct CellIdx {
    pub row: RowIdx,
    pub col: ColIdx,
}

/// Raised when a number does not name one of the 81 cells.
#[derive(Debug, Clone, Copy, PartialEq, Eq, Structural)]
pub enum IntoCellIdxError {
    Row(IntoRowIdxError),
    Col(IntoColIdxError),
}

impl CellIdx {
    /// The row-major position, `row * 9 + column`.
    pub open spec fn rm(self) -> int {
        self.row.as_int() * 9 + self.col.as_int()
    }

    pub fn row_major(&self) -> (r: usize)
        ensures
            r == self.rm(),
            r < 81,
    {
        (self.row.to_u8() as usize) * 9 + (self.col.to_u8() as usize)
    }

    pub fn try_of_row_major(idx: usize) -> (r: Result<CellIdx, IntoCellIdxError>)
        ensures
            idx < 81 <==> r is Ok,
            r is Ok ==> r->Ok_0.rm() == idx,
    {
        if idx < 81 {
            let row = RowIdx::from_u8((idx / 9) as u8);
            let col = ColIdx::from_u8((idx % 9) as u8);
            Ok(CellIdx { row, col })
        } else {
            Err(IntoCellIdxError::Row(IntoRowIdxError))
        }
    }

    /// The column-major position, `column * 9 + row`.
    pub open spec fn cm(self) -> int {
        self.col.as_int() * 9 + self.row.as_int()
    }

    pub fn col_major(&self) -> (r: usize)
        ensures
            r == self.cm(),
            r < 81,
    {
        (self.col.to_u8() as usize) * 9 + (self.row.to_u8() as usize)
    }

    pub fn try_of_col_major(idx: usize) -> (r: Result<CellIdx, IntoCellIdxError>)
        ensures
            idx < 81 <==> r is Ok,
            r is Ok ==> r->Ok_0.cm() == idx,
    {
        if idx < 81 {
            let col = ColIdx::from_u8((idx / 9) as u8);
            let row = RowIdx::from_u8((idx % 9) as u8);
            Ok(CellIdx { row, col })
        } else {
            Err(IntoCellIdxError::Col(IntoColIdxError))
        }
    }

    /// Which of the nine 3 by 3 boxes holds the cell.
    pub fn box_(&self) -> (r: usize)
        ensures
            r == cell_box(self.rm()),
            r < 9,
    {
        let i = self.row.to_u8() as usize;
        let j = self.col.to_u8() as usize;
        proof {
            lemma_cell_id(self.rm());
            assert(cell_row(self.rm()) == self.row.as_int());
            assert(cell_col(self.rm()) == self.col.as_int());
        }
        (i / 3 * 3) + j / 3
    }

    /// All 81 cells in row-major order.
    pub fn iter_row_wise() -> (r: Vec<CellIdx>)
        ensures
            r@.len() == 81,
            forall|k: int| 0 <= k < 81 ==> (#[trigger] r@[k]).rm() == k,
    {
        let mut r: Vec<CellIdx> = Vec::new();
        let mut k: usize = 0;
        while k < 81
            invariant
                k <= 81,
                r@.len() == k,
                forall|j: int| 0 <= j < k ==> (#[trigger] r@[j]).rm() == j,
            decreases 81 - k,
        {
            let cell = match CellIdx::try_of_row_major(k) {
                Ok(c) => c,
                Err(_) => CellIdx { row: RowIdx::Row0, col: ColIdx::Col0 },
            };
            r.push(cell);
            k = k + 1;
        }
        r
    }

    /// All 81 cells in column-major order.
    pub fn iter_col_wise() -> (r: Vec<CellIdx>)
        ensures
            r@.len() == 81,
            forall|k: int| 0 <= k < 81 ==> (#[trigger] r@[k]).cm() == k,
    {
        let mut r: Vec<CellIdx> = Vec::new();
        let mut k: usize = 0;
        while k < 81
            invariant
                k <= 81,
                r@.len() == k,
                forall|j: int| 0 <= j < k ==> (#[trigger] r@[j]).cm() == j,
            decreases 81 - k,
        {
            let cell = match CellIdx::try_of_col_major(k) {
                Ok(c) => c,
                Err(_) => CellIdx { row: RowIdx::Row0, col: ColIdx::Col0 },
            };
            r.push(cell);
            k = k + 1;
        }
        r
    }
}

/// One recorded change to a grid; the solver only ever emits `Place`.
#[derive(Debug, Clone, Copy, PartialEq, Eq, Structural)]
pub enum GridDiff {
    Place(CellIdx, Digit),
    Unset(CellIdx),
}

// ---------------------------------------------------------------------------
// The spec-level model: a grid is a row-major sequence of 81 optional digits.
// ---------------------------------------------------------------------------
/// The row holding row-major cell `i`.
pub open spec fn cell_row(i: int) -> int {
    i / 9
}

/// The column holding row-major cell `i`.
pub open spec fn cell_col(i: int) -> int {
    i % 9
}

/// The 3 by 3 box holding row-major cell `i`.
pub open spec fn cell_box(i: int) -> int {
    (i / 9) / 3 * 3 + (i % 9) / 3
}

/// The position of cell `i` within its box.
pub open spec fn box_pos(i: int) -> int {
    (i / 9) % 3 * 3 + (i % 9) % 3
}

/// The row-major index of slot `k` of box `b`.
pub open spec fn box_cell(b: int, k: int) -> int {
    (b / 3 * 3 + k / 3) * 9 + (b % 3 * 3 + k % 3)
}

pub proof fn lemma_cell_id(i: int)
    requires
        0 <= i < 81,
    ensures
        cell_row(i) * 9 + cell_col(i) == i,
        0 <= cell_row(i) < 9,
        0 <= cell_col(i) < 9,
        0 <= cell_box(i) < 9,
        0 <= box_pos(i) < 9,
        box_cell(cell_box(i), box_pos(i)) == i,
{
}

pub proof fn lemma_box_cell_range(b: int, k: int)
    requires
        0 <= b < 9,
        0 <= k < 9,
    ensures
        0 <= box_cell(b, k) < 81,
        cell_box(box_cell(b, k)) == b,
        box_pos(box_cell(b, k)) == k,
{
}

/// The row-major index of slot `k` of unit `u`: units 0..9 are the rows,
/// 9..18 the columns, 18..27 the boxes.
pub open spec fn unit_cell(u: int, k: int) -> int {
    if u < 9 {
        u * 9 + k
    } else if u < 18 {
        k * 9 + (u - 9)
    } else {
        box_cell(u - 18, k)
    }
}

pub proof fn lemma_unit_cell_range(u: int, k: int)
    requires
        0 <= u < 27,
        0 <= k < 9,
    ensures
        0 <= unit_cell(u, k) < 81,
{
    if u >= 18 {
        lemma_box_cell_range(u - 18, k);
    }
}

pub proof fn lemma_unit_cells_distinct(u: int, k1: int, k2: int)
    requires
        0 <= u < 27,
        0 <= k1 < 9,
        0 <= k2 < 9,
        k1 != k2,
    ensures
        unit_cell(u, k1) != unit_cell(u, k2),
{
    if u >= 18 {
        lemma_box_cell_range(u - 18, k1);
        lemma_box_cell_range(u - 18, k2);
    }
}

/// Two cells of one unit share that unit in the `same_unit` sense.
pub proof fn lemma_unit_cells_same_unit(u: int, k1: int, k2: int)
    requires
        0 <= u < 27,
        0 <= k1 < 9,
        0 <= k2 < 9,
    ensures
        same_unit(unit_cell(u, k1), unit_cell(u, k2)),
{
    if u >= 18 {
        lemma_box_cell_range(u - 18, k1);
        lemma_box_cell_range(u - 18, k2);
    }
}

/// Two cells that share a unit are two slots of one of the 27 units.
pub proof fn lemma_same_unit_witness(a: int, b: int)
    requires
        0 <= a < 81,
        0 <= b < 81,
        a != b,
        same_unit(a, b),
    ensures
        exists|u: int, k1: int, k2: int|
            0 <= u < 27 && 0 <= k1 < 9 && 0 <= k2 < 9 && k1 != k2 && a == unit_cell(u, k1) && b
                == unit_cell(u, k2),
{
    lemma_cell_id(a);
    lemma_cell_id(b);
    if cell_row(a) == cell_row(b) {
        let u = cell_row(a);
        assert(a == unit_cell(u, cell_col(a)) && b == unit_cell(u, cell_col(b)));
        assert(cell_col(a) != cell_col(b));
    } else if cell_col(a) == cell_col(b) {
        let u = 9 + cell_col(a);
        assert(a == unit_cell(u, cell_row(a)) && b == unit_cell(u, cell_row(b)));
    } else {
        let u = 18 + cell_box(a);
        assert(a == unit_cell(u, box_pos(a)) && b == unit_cell(u, box_pos(b)));
        assert(box_pos(a) != box_pos(b));
    }
}

/// Row and column recovered from a row-major index built from them.
pub proof fn lemma_rowcol_of(r: int, c: int)
    requires
        0 <= r < 9,
        0 <= c < 9,
    ensures
        0 <= r * 9 + c < 81,
        cell_row(r * 9 + c) == r,
        cell_col(r * 9 + c) == c,
{
}

/// The row-major index determines the cell.
pub proof fn lemma_rm_injective(a: CellIdx, b: CellIdx)
    requires
        a.rm() == b.rm(),
    ensures
        a == b,
{
    assert(a.row.as_int() == b.row.as_int() && a.col.as_int() == b.col.as_int());
    assert(a.row == b.row);
    assert(a.col == b.col);
}

/// A grid view has exactly 81 slots.
pub open spec fn grid_seq_wf(g: Seq<Option<Digit>>) -> bool {
    g.len() == 81
}

/// Digit `d` is already placed somewhere in row `r`.
pub open spec fn used_in_row(g: Seq<Option<Digit>>, r: int, d: Digit) -> bool {
    exists|j: int| 0 <= j < 9 && #[trigger] g[r * 9 + j] == Some(d)
}

/// Digit `d` is already placed somewhere in column `c`.
pub open spec fn used_in_col(g: Seq<Option<Digit>>, c: int, d: Digit) -> bool {
    exists|i: int| 0 <= i < 9 && #[trigger] g[i * 9 + c] == Some(d)
}

/// Digit `d` is already placed somewhere in box `b`.
pub open spec fn used_in_box(g: Seq<Option<Digit>>, b: int, d: Digit) -> bool {
    exists|k: int| 0 <= k < 9 && #[trigger] g[box_cell(b, k)] == Some(d)
}

/// Digit `d` may not be placed at cell `i`: its row, column or box already holds it.
pub open spec fn forbidden(g: Seq<Option<Digit>>, i: int, d: Digit) -> bool {
    ||| used_in_row(g, cell_row(i), d)
    ||| used_in_col(g, cell_col(i), d)
    ||| used_in_box(g, cell_box(i), d)
}

/// Cells `a` and `b` share a row, a column or a box.
pub open spec fn same_unit(a: int, b: int) -> bool {
    ||| cell_row(a) == cell_row(b)
    ||| cell_col(a) == cell_col(b)
    ||| cell_box(a) == cell_box(b)
}

/// No two distinct cells of one unit hold the same digit.
pub open spec fn grid_valid(g: Seq<Option<Digit>>) -> bool {
    forall|a: int, b: int|
        0 <= a < 81 && 0 <= b < 81 && a != b && same_unit(a, b) && g[a] is Some ==> g[a] != g[b]
}

/// Every cell holds a digit.
pub open spec fn grid_full(g: Seq<Option<Digit>>) -> bool {
    forall|i: int| 0 <= i < 81 ==> g[i] is Some
}

/// How many of the first `n` slots are empty.
pub open spec fn count_none_below(g: Seq<Option<Digit>>, n: int) -> nat
    decreases n,
{
    if n <= 0 {
        0
    } else {
        count_none_below(g, n - 1) + (if g[n - 1] is None {
            1nat
        } else {
            0nat
        })
    }
}

/// How many of the 81 slots are empty.
pub open spec fn count_none(g: Seq<Option<Digit>>) -> nat {
    count_none_below(g, 81)
}

pub proof fn lemma_count_none_update(g: Seq<Option<Digit>>, i: int, d: Digit, n: int)
    requires
        0 <= i < g.len(),
        n <= g.len(),
        g[i] is None,
    ensures
        count_none_below(g, n) == count_none_below(g.update(i, Some(d)), n) + (if i < n {
            1nat
        } else {
            0nat
        }),
    decreases n,
{
    if n > 0 {
        lemma_count_none_update(g, i, d, n - 1);
    }
}

pub proof fn lemma_count_none_same(g1: Seq<Option<Digit>>, g2: Seq<Option<Digit>>, n: int)
    requires
        forall|i: int| 0 <= i < n ==> ((#[trigger] g1[i]) is None <==> (#[trigger] g2[i]) is None),
    ensures
        count_none_below(g1, n) == count_none_below(g2, n),
    decreases n,
{
    if n > 0 {
        lemma_count_none_same(g1, g2, n - 1);
    }
}

pub proof fn lemma_count_none_bound(g: Seq<Option<Digit>>, n: int)
    requires
        0 <= n,
    ensures
        count_none_below(g, n) <= n,
    decreases n,
{
    if n > 0 {
        lemma_count_none_bound(g, n - 1);
    }
}

pub proof fn lemma_count_none_zero(g: Seq<Option<Digit>>, n: int)
    ensures
        (count_none_below(g, n) == 0) <==> (forall|i: int| 0 <= i < n ==> g[i] is Some),
    decreases n,
{
    if n > 0 {
        lemma_count_none_zero(g, n - 1);
    }
}

/// Placing an allowed digit at an empty cell keeps the grid free of duplicates.
pub proof fn lemma_place_keeps_valid(g: Seq<Option<Digit>>, i: int, d: Digit)
    requires
        grid_seq_wf(g),
        0 <= i < 81,
        g[i] is None,
        !forbidden(g, i, d),
        grid_valid(g),
    ensures
        grid_valid(g.update(i, Some(d))),
{
    let g2 = g.update(i, Some(d));
    assert forall|a: int, b: int|
        0 <= a < 81 && 0 <= b < 81 && a != b && same_unit(a, b) && g2[a] is Some implies g2[a]
        != g2[b] by {
        if a == i || b == i {
            let o = if a == i {
                b
            } else {
                a
            };
            if g2[o] == Some(d) {
                lemma_cell_id(i);
                lemma_cell_id(o);
                if cell_row(o) == cell_row(i) {
                    assert(g[cell_row(i) * 9 + cell_col(o)] == Some(d));
                    assert(used_in_row(g, cell_row(i), d));
                } else if cell_col(o) == cell_col(i) {
                    assert(g[cell_row(o) * 9 + cell_col(i)] == Some(d));
                    assert(used_in_col(g, cell_col(i), d));
                } else {
                    assert(g[box_cell(cell_box(i), box_pos(o))] == Some(d));
                    assert(used_in_box(g, cell_box(i), d));
                }
            }
        }
    }
}

/// A placed digit that no other cell of its units holds can be erased without
/// disturbing what the rest of the grid forbids.
pub proof fn lemma_unused_elsewhere(g: Seq<Option<Digit>>, i: int, d: Digit)
    requires
        grid_seq_wf(g),
        0 <= i < 81,
        g[i] is None,
        !forbidden(g, i, d),
    ensures
        forall|j: int|
            0 <= j < 81 && j != i && same_unit(i, j) ==> g[j] != Some(d) && g.update(i, Some(d))[j]
                != Some(d),
{
    assert forall|j: int| 0 <= j < 81 && j != i && same_unit(i, j) implies g[j] != Some(d) by {
        if g[j] == Some(d) {
            lemma_cell_id(i);
            lemma_cell_id(j);
            if cell_row(j) == cell_row(i) {
                assert(g[cell_row(i) * 9 + cell_col(j)] == Some(d));
                assert(used_in_row(g, cell_row(i), d));
            } else if cell_col(j) == cell_col(i) {
                assert(g[cell_row(j) * 9 + cell_col(i)] == Some(d));
                assert(used_in_col(g, cell_col(i), d));
            } else {
                assert(g[box_cell(cell_box(i), box_pos(j))] == Some(d));
                assert(used_in_box(g, cell_box(i), d));
            }
        }
    }
}

// ---------------------------------------------------------------------------
// Grid capabilities and the canonical 81-slot array grid.
// ---------------------------------------------------------------------------
/// Read access to a 9 by 9 grid of optional digits.
pub trait Grid {
    /// The row-major sequence of the 81 slots.
    spec fn cells(&self) -> Seq<Option<Digit>>;

    /// The representation invariant of the implementing store.
    spec fn well_formed(&self) -> bool;

    proof fn wf_len(&self)
        requires
            self.well_formed(),
        ensures
            self.cells().len() == 81,
    ;

    fn get(&self, idx: CellIdx) -> (r: Option<Digit>)
        requires
            self.well_formed(),
        ensures
            r == self.cells()[idx.rm()],
    ;
}

/// Write access to a 9 by 9 grid of optional digits.
pub trait GridMut: Grid {
    fn put(&mut self, idx: CellIdx, v: Option<Digit>)
        requires
            old(self).well_formed(),
        ensures
            final (self).well_formed(),
            final (self).cells() == old(self).cells().update(idx.rm(), v),
    ;
}

/// A mutable grid that can also be created empty.
pub trait GridMutWithDefault: GridMut + Sized {
    fn new_empty() -> (r: Self)
        ensures
            r.well_formed(),
            r.cells().len() == 81,
            forall|i: int| 0 <= i < 81 ==> r.cells()[i] is None,
    ;
}

/// The canonical store: 81 optional digits in row-major order.
#[derive(Debug)]
pub struct ArrGrid {
    pub slots: Vec<Option<Digit>>,
}

impl ArrGrid {
    /// An empty grid.
    pub fn new() -> (r: ArrGrid)
        ensures
            r.well_formed(),
            forall|i: int| 0 <= i < 81 ==> r.cells()[i] is None,
    {
        let mut slots: Vec<Option<Digit>> = Vec::new();
        let mut k: usize = 0;
        while k < 81
            invariant
                k <= 81,
                slots@.len() == k,
                forall|i: int| 0 <= i < k ==> slots@[i] is None,
            decreases 81 - k,
        {
            slots.push(None);
            k = k + 1;
        }
        ArrGrid { slots }
    }
}

impl Grid for ArrGrid {
    open spec fn cells(&self) -> Seq<Option<Digit>> {
        self.slots@
    }

    open spec fn well_formed(&self) -> bool {
        self.slots@.len() == 81
    }

    proof fn wf_len(&self) {
    }

    fn get(&self, idx: CellIdx) -> (r: Option<Digit>) {
        self.slots[idx.row_major()]
    }
}

impl GridMut for ArrGrid {
    fn put(&mut self, idx: CellIdx, v: Option<Digit>) {
        let i = idx.row_major();
        self.slots[i] = v;
    }
}

impl GridMutWithDefault for ArrGrid {
    fn new_empty() -> (r: ArrGrid) {
        ArrGrid::new()
    }
}

// ---------------------------------------------------------------------------
// Grid-to-grid helpers.
// ---------------------------------------------------------------------------
/// Copies every slot of `src` into `dst`.
pub fn copy<S: Grid, D: GridMut>(src: &S, dst: &mut D)
    requires
        src.well_formed(),
        old(dst).well_formed(),
    ensures
        final (dst).well_formed(),
        final (dst).cells().len() == 81,
        forall|i: int| 0 <= i < 81 ==> final (dst).cells()[i] == src.cells()[i],
{
    proof {
        src.wf_len();
        old(dst).wf_len();
    }
    let idxs = CellIdx::iter_row_wise();
    let mut k: usize = 0;
    while k < 81
        invariant
            src.well_formed(),
            dst.well_formed(),
            src.cells().len() == 81,
            idxs@.len() == 81,
            forall|j: int| 0 <= j < 81 ==> (#[trigger] idxs@[j]).rm() == j,
            k <= 81,
            dst.cells().len() == 81,
            forall|i: int| 0 <= i < k ==> dst.cells()[i] == src.cells()[i],
        decreases 81 - k,
    {
        let idx = idxs[k];
        let v = src.get(idx);
        dst.put(idx, v);
        k = k + 1;
    }
}

/// Copies `src` into a freshly created grid of another store type.
pub fn copy_into<S: Grid, D: GridMutWithDefault>(src: &S) -> (r: D)
    requires
        src.well_formed(),
    ensures
        r.well_formed(),
        r.cells().len() == 81,
        forall|i: int| 0 <= i < 81 ==> r.cells()[i] == src.cells()[i],
{
    let mut dst = D::new_empty();
    copy(src, &mut dst);
    dst
}

/// Places every `(cell, digit)` pair of `placement` into `grid`.
pub fn apply<G: GridMut>(grid: &mut G, placement: &Vec<(CellIdx, Digit)>)
    requires
        old(grid).well_formed(),
    ensures
        final (grid).well_formed(),
        final (grid).cells() == apply_placements(old(grid).cells(), placement@),
{
    proof {
        old(grid).wf_len();
        assert(placement@.skip(0) =~= placement@);
    }
    let mut k: usize = 0;
    while k < placement.len()
        invariant
            grid.well_formed(),
            k <= placement@.len(),
            apply_placements(old(grid).cells(), placement@) == apply_placements(
                grid.cells(),
                placement@.skip(k as int),
            ),
        decreases placement@.len() - k,
    {
        let (idx, d) = placement[k];
        proof {
            assert(placement@.skip(k as int)[0] == (idx, d));
            assert(placement@.skip(k as int).drop_first() =~= placement@.skip(k + 1));
        }
        grid.put(idx, Some(d));
        k = k + 1;
    }
    proof {
        assert(placement@.skip(placement@.len() as int) =~= Seq::<(CellIdx, Digit)>::empty());
    }
}

/// The grid reached from `g` by placing each pair of `ps` in order.
pub open spec fn apply_placements(g: Seq<Option<Digit>>, ps: Seq<(CellIdx, Digit)>) -> Seq<
    Option<Digit>,
>
    decreases ps.len(),
{
    if ps.len() == 0 {
        g
    } else {
        apply_placements(g.update(ps[0].0.rm(), Some(ps[0].1)), ps.drop_first())
    }
}

/// Copies `src` and then applies a placement list to the copy.
pub fn copy_and_apply<S: Grid, D: GridMutWithDefault>(src: &S, placement: &Vec<(CellIdx, Digit)>)
    -> (r: D)
    requires
        src.well_formed(),
    ensures
        r.well_formed(),
        forall|i: int|
            0 <= i < 81 ==> r.cells()[i] == apply_placements(
                src.cells().take(81),
                placement@,
            )[i],
{
    let mut dst: D = copy_into(src);
    proof {
        src.wf_len();
        assert(dst.cells() =~= src.cells().take(81));
    }
    apply(&mut dst, placement);
    dst
}

/// Applies a recorded diff: `Set` places a digit, `Unset` clears the cell.
pub fn with_diff<S: Grid, D: GridMutWithDefault>(src: &S, diff: &Vec<GridDiff>) -> (r: D)
    requires
        src.well_formed(),
    ensures
        r.well_formed(),
        r.cells() == apply_diffs(src.cells().take(81), diff@),
{
    let mut dst: D = copy_into(src);
    proof {
        src.wf_len();
        assert(dst.cells() =~= src.cells().take(81));
        assert(diff@.skip(0) =~= diff@);
    }
    let mut k: usize = 0;
    while k < diff.len()
        invariant
            dst.well_formed(),
            k <= diff@.len(),
            apply_diffs(src.cells().take(81), diff@) == apply_diffs(
                dst.cells(),
                diff@.skip(k as int),
            ),
        decreases diff@.len() - k,
    {
        let entry = diff[k];
        proof {
            assert(diff@.skip(k as int)[0] == entry);
            assert(diff@.skip(k as int).drop_first() =~= diff@.skip(k + 1));
        }
        match entry {
            GridDiff::Place(idx, d) => dst.put(idx, Some(d)),
            GridDiff::Unset(idx) => dst.put(idx, None),
        }
        k = k + 1;
    }
    proof {
        assert(diff@.skip(diff@.len() as int) =~= Seq::<GridDiff>::empty());
    }
    dst
}

/// The grid reached from `g` by replaying each diff entry in order.
pub open spec fn apply_diffs(g: Seq<Option<Digit>>, ds: Seq<GridDiff>) -> Seq<Option<Digit>>
    decreases ds.len(),
{
    if ds.len() == 0 {
        g
    } else {
        let g2 = match ds[0] {
            GridDiff::Place(idx, d) => g.update(idx.rm(), Some(d)),
            GridDiff::Unset(idx) => g.update(idx.rm(), None),
        };
        apply_diffs(g2, ds.drop_first())
    }
}

/// The rank used to order cell contents: an empty cell sorts before any
/// digit, digits sort by value.
pub open spec fn cell_rank(v: Option<Digit>) -> int {
    match v {
        None => 0,
        Some(d) => 1 + d.as_int(),
    }
}

/// Lexicographic comparison of two grids in row-major order, empty cells
/// first.
pub fn cmp<T: Grid, U: Grid>(this: &T, other: &U) -> (r: core::cmp::Ordering)
    requires
        this.well_formed(),
        other.well_formed(),
    ensures
        (r == core::cmp::Ordering::Equal) <==> (forall|i: int|
            0 <= i < 81 ==> cell_rank(this.cells()[i]) == cell_rank(other.cells()[i])),
        (r == core::cmp::Ordering::Less) <==> (exists|i: int|
            0 <= i < 81 && cell_rank(this.cells()[i]) < cell_rank(#[trigger] other.cells()[i]) && (
            forall|j: int| 0 <= j < i ==> cell_rank(this.cells()[j]) == cell_rank(other.cells()[j]))),
        (r == core::cmp::Ordering::Greater) <==> (exists|i: int|
            0 <= i < 81 && cell_rank(this.cells()[i]) > cell_rank(#[trigger] other.cells()[i]) && (
            forall|j: int| 0 <= j < i ==> cell_rank(this.cells()[j]) == cell_rank(other.cells()[j]))),
{
    let idxs = CellIdx::iter_row_wise();
    let mut k: usize = 0;
    while k < 81
        invariant
            this.well_formed(),
            other.well_formed(),
            idxs@.len() == 81,
            forall|j: int| 0 <= j < 81 ==> (#[trigger] idxs@[j]).rm() == j,
            k <= 81,
            forall|j: int| 0 <= j < k ==> cell_rank(this.cells()[j]) == cell_rank(other.cells()[j]),
        decreases 81 - k,
    {
        let idx = idxs[k];
        let a = rank_of(this.get(idx));
        let b = rank_of(other.get(idx));
        if a < b {
            return core::cmp::Ordering::Less;
        }
        if a > b {
            return core::cmp::Ordering::Greater;
        }
        k = k + 1;
    }
    core::cmp::Ordering::Equal
}

/// The rank of a cell's contents, matching `cell_rank`.
fn rank_of(v: Option<Digit>) -> (r: u8)
    ensures
        r == cell_rank(v),
{
    match v {
        None => 0,
        Some(d) => 1 + d.to_u8(),
    }
}

/// Whether two grids hold the same digits everywhere.
pub fn eq<T: Grid, U: Grid>(this: &T, other: &U) -> (r: bool)
    requires
        this.well_formed(),
        other.well_formed(),
    ensures
        r <==> (forall|i: int| 0 <= i < 81 ==> this.cells()[i] == other.cells()[i]),
{
    let idxs = CellIdx::iter_row_wise();
    let mut k: usize = 0;
    let mut r = true;
    while k < 81
        invariant
            this.well_formed(),
            other.well_formed(),
            idxs@.len() == 81,
            forall|j: int| 0 <= j < 81 ==> (#[trigger] idxs@[j]).rm() == j,
            k <= 81,
            r <==> (forall|i: int| 0 <= i < k ==> this.cells()[i] == other.cells()[i]),
        decreases 81 - k,
    {
        let idx = idxs[k];
        let a = this.get(idx);
        let b = other.get(idx);
        let same = match (a, b) {
            (None, None) => true,
            (Some(x), Some(y)) => x.to_u8() == y.to_u8(),
            _ => false,
        };
        proof {
            if a is Some && b is Some && a->0.as_int() == b->0.as_int() {
                lemma_digit_index_inverse();
                assert(Digit::spec_from_index(a->0.as_int()) == a->0);
                assert(Digit::spec_from_index(b->0.as_int()) == b->0);
            }
        }
        r = r && same;
        k = k + 1;
    }
    r
}

} // verus!
