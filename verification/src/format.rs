//! The ASCII codec: nine rows of nine characters, a digit or the empty-cell
//! mark, with an optional separator after each full row but the last.
use crate::grid::{
    cell_col, cell_row, copy, grid_seq_wf, ArrGrid, CellIdx, Digit, Grid, GridMut,
    GridMutWithDefault,
};
use vstd::prelude::*;
use vstd::string::*;

verus! {

/// Raised when the reader meets a byte it cannot place, or runs out of input
/// before the 81st cell.
#[derive(Debug, Clone, Copy, PartialEq, Eq, Structural)]
pub struct ReadError;

/// The codec configuration: the empty-cell byte and the optional row
/// separator, `'_'` and a line feed by default.
#[derive(Debug, Clone, Copy, PartialEq, Eq, Structural)]
pub struct RowMajorAscii {
    pub empty_cell: u8,
    pub row_sep: Option<u8>,
}

/// An ASCII whitespace byte: space, tab, line feed, form feed or carriage
/// return.
pub open spec fn is_ws(c: u8) -> bool {
    c == 0x20 || c == 0x09 || c == 0x0a || c == 0x0c || c == 0x0d
}

/// A digit byte, `'1'` through `'9'`.
pub open spec fn is_digit_byte(c: u8) -> bool {
    0x31 <= c <= 0x39
}

/// The byte the writer emits for one slot.
pub open spec fn cell_char(v: Option<Digit>, empty: u8) -> u8 {
    match v {
        Some(d) => (0x31 + d.as_int()) as u8,
        None => empty,
    }
}

/// The bytes the writer emits from slot `i` on.
pub open spec fn write_from(g: Seq<Option<Digit>>, empty: u8, sep: Option<u8>, i: int) -> Seq<u8>
    decreases 81 - i,
{
    if i < 0 || i >= 81 {
        Seq::empty()
    } else {
        seq![cell_char(g[i], empty)] + (if i + 1 < 81 && (i + 1) % 9 == 0 {
            match sep {
                Some(s) => seq![s],
                None => Seq::<u8>::empty(),
            }
        } else {
            Seq::<u8>::empty()
        }) + write_from(g, empty, sep, i + 1)
    }
}

/// Everything the writer emits for a grid.
pub open spec fn write_bytes(g: Seq<Option<Digit>>, empty: u8, sep: Option<u8>) -> Seq<u8> {
    write_from(g, empty, sep, 0)
}

/// One step of the reader, mirroring its state machine: `idx` is the next
/// slot to fill, `sep_exp` whether a row separator is still owed.
pub open spec fn parse_rec(
    bytes: Seq<u8>,
    empty: u8,
    sep: Option<u8>,
    g: Seq<Option<Digit>>,
    idx: int,
    sep_exp: bool,
) -> Option<Seq<Option<Digit>>>
    decreases bytes.len(),
{
    if bytes.len() == 0 {
        None
    } else {
        let c = bytes[0];
        let rest = bytes.drop_first();
        if sep is Some && sep_exp {
            if Some(c) == sep {
                parse_rec(rest, empty, sep, g, idx, false)
            } else if is_ws(c) {
                parse_rec(rest, empty, sep, g, idx, true)
            } else {
                None
            }
        } else if is_ws(c) {
            parse_rec(rest, empty, sep, g, idx, sep_exp)
        } else if is_digit_byte(c) {
            let g2 = g.update(idx, Some(Digit::spec_from_index(c - 0x31)));
            if idx + 1 >= 81 {
                Some(g2)
            } else {
                parse_rec(rest, empty, sep, g2, idx + 1, cell_col(idx) == 8)
            }
        } else if c == empty {
            let g2 = g.update(idx, None);
            if idx + 1 >= 81 {
                Some(g2)
            } else {
                parse_rec(rest, empty, sep, g2, idx + 1, cell_col(idx) == 8)
            }
        } else {
            None
        }
    }
}

/// The 81 empty slots the reader starts from.
pub open spec fn empty_grid_seq() -> Seq<Option<Digit>> {
    Seq::new(81, |i: int| None::<Digit>)
}

/// What the reader makes of a byte string: a grid, or nothing on bad input.
pub open spec fn parse_spec(bytes: Seq<u8>, empty: u8, sep: Option<u8>) -> Option<
    Seq<Option<Digit>>,
> {
    parse_rec(bytes, empty, sep, empty_grid_seq(), 0, false)
}

/// Something that can read grids out of strings.
pub trait ReadFormatter {
    /// The byte the reader takes for an empty cell.
    spec fn spec_empty_cell(&self) -> u8;

    /// The row separator the reader expects at row boundaries, if any.
    spec fn spec_row_sep(&self) -> Option<u8>;

    fn read_from_string_into<G: GridMut>(&self, s: &str, grid: &mut G) -> (r: Result<
        (),
        ReadError,
    >)
        requires
            old(grid).well_formed(),
        ensures
            final (grid).well_formed(),
            (match r {
                Ok(_) => {
                    &&& parse_spec(s.spec_bytes(), self.spec_empty_cell(), self.spec_row_sep())
                        is Some
                    &&& (forall|i: int|
                        0 <= i < 81 ==> final (grid).cells()[i] == parse_spec(
                            s.spec_bytes(),
                            self.spec_empty_cell(),
                            self.spec_row_sep(),
                        )->0[i])
                },
                Err(_) => {
                    &&& parse_spec(s.spec_bytes(), self.spec_empty_cell(), self.spec_row_sep())
                        is None
                    &&& final (grid).cells() == old(grid).cells()
                },
            }),
    ;
}

/// Something that can render grids into strings.
pub trait WriteFormatter {
    /// The configuration is sound enough to emit.
    spec fn spec_write_wf(&self) -> bool;

    /// The byte the writer emits for an empty cell.
    spec fn spec_empty_cell(&self) -> u8;

    /// The row separator the writer emits after each full row but the last.
    spec fn spec_row_sep(&self) -> Option<u8>;

    fn write_to_string<G: Grid>(&self, grid: &G) -> (r: String)
        requires
            self.spec_write_wf(),
            grid.well_formed(),
        ensures
            string_bytes(&r) == write_bytes(
                grid.cells(),
                self.spec_empty_cell(),
                self.spec_row_sep(),
            ),
    ;
}

impl RowMajorAscii {
    /// The configuration bytes are ASCII.
    pub open spec fn wf(&self) -> bool {
        &&& self.empty_cell < 128
        &&& (match self.row_sep {
            Some(s) => s < 128,
            None => true,
        })
    }

    /// The configuration can round-trip: its empty-cell mark cannot be read
    /// as a digit or skipped as whitespace.
    pub open spec fn unambiguous(&self) -> bool {
        &&& self.wf()
        &&& !is_digit_byte(self.empty_cell)
        &&& !is_ws(self.empty_cell)
    }

    /// A codec with the given empty-cell mark (default `'_'`) and row
    /// separator (default a line feed; `Some(None)` switches it off).
    pub fn new(empty_cell: Option<char>, row_sep: Option<Option<char>>) -> (r: RowMajorAscii)
        requires
            (match empty_cell {
                Some(c) => (c as u32) < 128,
                None => true,
            }),
            (match row_sep {
                Some(Some(c)) => (c as u32) < 128,
                _ => true,
            }),
        ensures
            r.wf(),
            (match empty_cell {
                Some(c) => r.empty_cell as u32 == c as u32,
                None => r.empty_cell == 0x5fu8,
            }),
            (match row_sep {
                Some(Some(c)) => r.row_sep is Some && (r.row_sep->0 as u32) == c as u32,
                Some(None) => r.row_sep is None,
                None => r.row_sep == Some(0x0au8),
            }),
    {
        let e: u8 = match empty_cell {
            Some(c) => {
                let v = c as u32;
                proof {
                    assert(v < 128 ==> (v as u8) as u32 == v) by (bit_vector);
                }
                v as u8
            },
            None => 0x5f,
        };
        let s: Option<u8> = match row_sep {
            Some(Some(c)) => {
                let v = c as u32;
                proof {
                    assert(v < 128 ==> (v as u8) as u32 == v) by (bit_vector);
                }
                Some(v as u8)
            },
            Some(None) => None,
            None => Some(0x0a),
        };
        RowMajorAscii { empty_cell: e, row_sep: s }
    }


    /// Reads a grid from bytes, mirroring `parse_spec` exactly.
    pub fn read_from_bytes(&self, b: &[u8]) -> (r: Result<ArrGrid, ReadError>)
        ensures
            (match r {
                Ok(g) => {
                    &&& g.well_formed()
                    &&& parse_spec(b@, self.empty_cell, self.row_sep) == Some(g.cells())
                },
                Err(_) => parse_spec(b@, self.empty_cell, self.row_sep) is None,
            }),
    {
        let ghost e = self.empty_cell;
        let ghost sep = self.row_sep;
        let mut out = ArrGrid::new();
        proof {
            assert(out.cells() =~= empty_grid_seq());
            assert(b@.skip(0) =~= b@);
        }
        let mut p: usize = 0;
        let mut idx: usize = 0;
        let mut sep_exp: bool = false;
        while p < b.len()
            invariant
                out.well_formed(),
                p <= b@.len(),
                idx < 81,
                parse_spec(b@, e, sep) == parse_rec(
                    b@.skip(p as int),
                    e,
                    sep,
                    out.cells(),
                    idx as int,
                    sep_exp,
                ),
                e == self.empty_cell,
                sep == self.row_sep,
            decreases b@.len() - p,
        {
            let c = b[p];
            proof {
                assert(b@.skip(p as int)[0] == c);
                assert(b@.skip(p as int).drop_first() =~= b@.skip(p + 1));
            }
            let sep_is_some = match self.row_sep {
                Some(_) => true,
                None => false,
            };
            if sep_is_some && sep_exp {
                let s = match self.row_sep {
                    Some(s) => s,
                    None => 0,
                };
                if c == s {
                    sep_exp = false;
                } else if c == 0x20 || c == 0x09 || c == 0x0a || c == 0x0c || c == 0x0d {
                    // tolerated whitespace before the separator
                } else {
                    return Err(ReadError);
                }
            } else if c == 0x20 || c == 0x09 || c == 0x0a || c == 0x0c || c == 0x0d {
                // tolerated whitespace between cells
            } else if 0x31 <= c && c <= 0x39 {
                let cell = match CellIdx::try_of_row_major(idx) {
                    Ok(cc) => cc,
                    Err(_) => CellIdx {
                        row: crate::grid::RowIdx::Row0,
                        col: crate::grid::ColIdx::Col0,
                    },
                };
                let d = Digit::from_u8(c - 0x31);
                proof {
                    crate::grid::lemma_digit_index_inverse();
                    assert(Digit::spec_from_index((c - 0x31) as int) == d);
                    crate::grid::lemma_cell_id(idx as int);
                }
                out.put(cell, Some(d));
                if idx + 1 >= 81 {
                    return Ok(out);
                }
                sep_exp = cell.col.to_u8() == 8;
                idx = idx + 1;
            } else if c == self.empty_cell {
                let cell = match CellIdx::try_of_row_major(idx) {
                    Ok(cc) => cc,
                    Err(_) => CellIdx {
                        row: crate::grid::RowIdx::Row0,
                        col: crate::grid::ColIdx::Col0,
                    },
                };
                proof {
                    crate::grid::lemma_cell_id(idx as int);
                }
                out.put(cell, None);
                if idx + 1 >= 81 {
                    return Ok(out);
                }
                sep_exp = cell.col.to_u8() == 8;
                idx = idx + 1;
            } else {
                return Err(ReadError);
            }
            p = p + 1;
        }
        proof {
            assert(b@.skip(b@.len() as int) =~= Seq::<u8>::empty());
        }
        Err(ReadError)
    }

    /// The writer's output for a grid, as bytes.
    pub fn write_to_bytes<G: Grid>(&self, grid: &G) -> (r: Vec<u8>)
        requires
            grid.well_formed(),
        ensures
            r@ == write_bytes(grid.cells(), self.empty_cell, self.row_sep),
            self.wf() ==> forall|i: int| 0 <= i < r@.len() ==> r@[i] < 128,
    {
        proof {
            grid.wf_len();
        }
        let ghost g = grid.cells();
        let ghost e = self.empty_cell;
        let ghost sep = self.row_sep;
        let mut out: Vec<u8> = Vec::new();
        let mut i: usize = 0;
        while i < 81
            invariant
                grid.well_formed(),
                g == grid.cells(),
                g.len() == 81,
                e == self.empty_cell,
                sep == self.row_sep,
                i <= 81,
                write_bytes(g, e, sep) == out@ + write_from(g, e, sep, i as int),
                self.wf() ==> forall|j: int| 0 <= j < out@.len() ==> out@[j] < 128,
            decreases 81 - i,
        {
            let cell = match CellIdx::try_of_row_major(i) {
                Ok(cc) => cc,
                Err(_) => CellIdx { row: crate::grid::RowIdx::Row0, col: crate::grid::ColIdx::Col0 },
            };
            let ghost out0 = out@;
            let b: u8 = match grid.get(cell) {
                Some(d) => d.as_ascii(),
                None => self.empty_cell,
            };
            proof {
                assert(b == cell_char(g[i as int], e));
            }
            out.push(b);
            if i + 1 < 81 && (i + 1) % 9 == 0 {
                match self.row_sep {
                    Some(s) => {
                        out.push(s);
                        proof {
                            assert(out@ =~= out0 + seq![b, s]);
                            assert(seq![cell_char(g[i as int], e)] + seq![s] =~= seq![b, s]);
                        }
                    },
                    None => {
                        proof {
                            assert(out@ =~= out0 + seq![b]);
                        }
                    },
                }
            } else {
                proof {
                    assert(out@ =~= out0 + seq![b]);
                }
            }
            proof {
                assert(write_bytes(g, e, sep) == out@ + write_from(g, e, sep, i + 1)) by {
                    assert(write_from(g, e, sep, i as int) == seq![cell_char(g[i as int], e)] + (
                    if i + 1 < 81 && (i + 1) % 9 == 0 {
                        match sep {
                            Some(s) => seq![s],
                            None => Seq::<u8>::empty(),
                        }
                    } else {
                        Seq::<u8>::empty()
                    }) + write_from(g, e, sep, i + 1));
                    assert(out0 + write_from(g, e, sep, i as int) =~= out@ + write_from(
                        g,
                        e,
                        sep,
                        i + 1,
                    ));
                }
            }
            i = i + 1;
        }
        proof {
            assert(write_from(g, e, sep, 81) =~= Seq::<u8>::empty());
            assert(out@ + write_from(g, e, sep, 81) =~= out@);
        }
        out
    }
}

/// The default codec: `'_'` for empty cells, a line feed between rows.
impl Default for RowMajorAscii {
    fn default() -> (r: RowMajorAscii)
        ensures
            r.unambiguous(),
            r.empty_cell == 0x5fu8,
            r.row_sep == Some(0x0au8),
    {
        RowMajorAscii { empty_cell: 0x5f, row_sep: Some(0x0a) }
    }
}

impl ReadFormatter for RowMajorAscii {
    open spec fn spec_empty_cell(&self) -> u8 {
        self.empty_cell
    }

    open spec fn spec_row_sep(&self) -> Option<u8> {
        self.row_sep
    }

    /// Reads a grid from a string's bytes; the grid changes only on success.
    fn read_from_string_into<G: GridMut>(&self, s: &str, grid: &mut G) -> (r: Result<
        (),
        ReadError,
    >) {
        let b = s.as_bytes();
        match self.read_from_bytes(b) {
            Ok(arr) => {
                copy(&arr, grid);
                Ok(())
            },
            Err(e) => Err(e),
        }
    }
}

impl WriteFormatter for RowMajorAscii {
    open spec fn spec_write_wf(&self) -> bool {
        self.wf()
    }

    open spec fn spec_empty_cell(&self) -> u8 {
        self.empty_cell
    }

    open spec fn spec_row_sep(&self) -> Option<u8> {
        self.row_sep
    }

    /// Renders the grid into a freshly built string.
    fn write_to_string<G: Grid>(&self, grid: &G) -> (r: String) {
        let bytes = self.write_to_bytes(grid);
        let mut s = String::new();
        proof {
            assert(s@ =~= Seq::<char>::empty());
            assert(string_bytes(&s) =~= Seq::<u8>::empty());
            assert(bytes@.take(0) =~= Seq::<u8>::empty());
        }
        let mut k: usize = 0;
        while k < bytes.len()
            invariant
                k <= bytes@.len(),
                forall|i: int| 0 <= i < bytes@.len() ==> bytes@[i] < 128,
                string_bytes(&s) == bytes@.take(k as int),
            decreases bytes@.len() - k,
        {
            push_ascii(&mut s, bytes[k]);
            proof {
                assert(string_bytes(&s) =~= bytes@.take(k + 1));
            }
            k = k + 1;
        }
        proof {
            assert(bytes@.take(bytes@.len() as int) =~= bytes@);
        }
        s
    }
}

/// The UTF-8 bytes of a string.
pub open spec fn string_bytes(s: &String) -> Seq<u8> {
    vstd::utf8::encode_utf8(s@)
}

/// Relies on `String::push`: pushing an ASCII character appends exactly the
/// one byte of its UTF-8 form.
#[verifier::external_body]
fn push_ascii(s: &mut String, c: u8)
    requires
        c < 128,
    ensures
        string_bytes(final (s)) == string_bytes(old(s)).push(c),
{
    s.push(c as char);
}

/// Reads a grid from a string; the inverse of `write_string` on well-formed
/// input.
pub fn read_from_string<F: ReadFormatter, G: GridMutWithDefault>(f: &F, s: &str) -> (r: Result<
    G,
    ReadError,
>)
    ensures
        (match r {
            Ok(g) => {
                &&& g.well_formed()
                &&& parse_spec(s.spec_bytes(), f.spec_empty_cell(), f.spec_row_sep()) is Some
                &&& (forall|i: int|
                    0 <= i < 81 ==> g.cells()[i] == parse_spec(
                        s.spec_bytes(),
                        f.spec_empty_cell(),
                        f.spec_row_sep(),
                    )->0[i])
            },
            Err(_) => parse_spec(s.spec_bytes(), f.spec_empty_cell(), f.spec_row_sep()) is None,
        }),
{
    let mut grid = G::new_empty();
    match f.read_from_string_into(s, &mut grid) {
        Ok(_) => Ok(grid),
        Err(e) => Err(e),
    }
}

/// Renders a grid through the codec into a string.
pub fn write_string<F: WriteFormatter, G: Grid>(f: &F, grid: &G) -> (r: String)
    requires
        f.spec_write_wf(),
        grid.well_formed(),
    ensures
        string_bytes(&r) == write_bytes(grid.cells(), f.spec_empty_cell(), f.spec_row_sep()),
{
    f.write_to_string(grid)
}

} // verus!
