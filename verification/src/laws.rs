//! The crate's stated laws: codec round trips, what a successful solve means
//! to the status checker, and the correctness of the two subset inference
//! rules.
use crate::format::{
    cell_char, is_digit_byte, is_ws, parse_rec, parse_spec, write_bytes, write_from, RowMajorAscii,
};
use crate::grid::{
    apply_placements, box_cell, cell_box, cell_col, cell_row, forbidden, grid_full, grid_seq_wf,
    grid_valid, lemma_box_cell_range, lemma_cell_id, lemma_digit_index_inverse, lemma_rowcol_of,
    lemma_unit_cell_range, lemma_unit_cells_distinct, lemma_unit_cells_same_unit,
    lemma_unused_elsewhere, same_unit, unit_cell, used_in_box, used_in_col, used_in_row, CellIdx,
    Digit,
};
use crate::completion::{
    completes, extends, law_hidden_subset, law_naked_subset, lemma_completion_in_domain,
    no_completion, unit_has,
};
use crate::solver::{lemma_apply_pointwise_distinct, placements_ok, ps_covers};
use crate::status::{spec_status, SudokuStatus};
use vstd::prelude::*;
use vstd::set_lib::lemma_len_subset;

verus! {

// ---------------------------------------------------------------------------
// Codec round trips.
// ---------------------------------------------------------------------------
/// Grid `h` overwritten with the slots of `g` from position `i` on.
pub open spec fn merge_from(h: Seq<Option<Digit>>, g: Seq<Option<Digit>>, i: int) -> Seq<
    Option<Digit>,
> {
    Seq::new(
        81,
        |j: int|
            if j >= i {
                g[j]
            } else {
                h[j]
            },
    )
}

proof fn lemma_parse_of_write(
    g: Seq<Option<Digit>>,
    e: u8,
    sep: Option<u8>,
    h: Seq<Option<Digit>>,
    i: int,
    se: bool,
)
    requires
        grid_seq_wf(g),
        h.len() == 81,
        0 <= i < 81,
        !is_digit_byte(e),
        !is_ws(e),
        sep is Some ==> se == false,
    ensures
        parse_rec(write_from(g, e, sep, i), e, sep, h, i, se) == Some(merge_from(h, g, i)),
    decreases 81 - i,
{
    let bytes = write_from(g, e, sep, i);
    let c = cell_char(g[i], e);
    assert(bytes[0] == c);
    let boundary = i + 1 < 81 && (i + 1) % 9 == 0;
    let sepseq: Seq<u8> = if boundary {
        match sep {
            Some(s) => seq![s],
            None => Seq::<u8>::empty(),
        }
    } else {
        Seq::<u8>::empty()
    };
    assert(bytes.drop_first() =~= sepseq + write_from(g, e, sep, i + 1));
    assert(!is_ws(c) && (g[i] is Some ==> is_digit_byte(c) && c - 0x31 == g[i]->0.as_int())) by {
        if g[i] is Some {
            let d = g[i]->0;
            assert(0 <= d.as_int() < 9);
        }
    }
    let g2 = if g[i] is Some {
        h.update(i, Some(Digit::spec_from_index(c - 0x31)))
    } else {
        h.update(i, None)
    };
    lemma_digit_index_inverse();
    assert(g2 == h.update(i, g[i]));
    if i == 80 {
        assert(parse_rec(bytes, e, sep, h, i, se) == Some(g2));
        assert(g2 =~= merge_from(h, g, i));
    } else {
        let se2 = cell_col(i) == 8;
        assert(boundary == (se2 && i + 1 < 81));
        let rest = write_from(g, e, sep, i + 1);
        assert(parse_rec(bytes, e, sep, h, i, se) == parse_rec(
            sepseq + rest,
            e,
            sep,
            g2,
            i + 1,
            se2,
        ));
        match sep {
            None => {
                assert(sepseq + rest =~= rest);
                lemma_parse_of_write(g, e, sep, g2, i + 1, se2);
            },
            Some(s) => {
                if boundary {
                    assert((sepseq + rest)[0] == s);
                    assert((sepseq + rest).drop_first() =~= rest);
                    assert(parse_rec(sepseq + rest, e, sep, g2, i + 1, true) == parse_rec(
                        rest,
                        e,
                        sep,
                        g2,
                        i + 1,
                        false,
                    ));
                    lemma_parse_of_write(g, e, sep, g2, i + 1, false);
                } else {
                    assert(sepseq + rest =~= rest);
                    assert(se2 == false);
                    lemma_parse_of_write(g, e, sep, g2, i + 1, false);
                }
            },
        }
        assert(merge_from(g2, g, i + 1) =~= merge_from(h, g, i));
    }
}

/// Writing a well-formed grid and reading the result back yields the same
/// grid, whenever the codec's empty-cell mark cannot be mistaken for a digit
/// or for whitespace.
pub proof fn law_write_read_identity(g: Seq<Option<Digit>>, f: RowMajorAscii)
    requires
        grid_seq_wf(g),
        f.unambiguous(),
    ensures
        parse_spec(write_bytes(g, f.empty_cell, f.row_sep), f.empty_cell, f.row_sep) == Some(g),
{
    lemma_parse_of_write(
        g,
        f.empty_cell,
        f.row_sep,
        crate::format::empty_grid_seq(),
        0,
        false,
    );
    assert(merge_from(crate::format::empty_grid_seq(), g, 0) =~= g);
}

/// The grid a parse yields always has the 81 slots.
pub proof fn lemma_parse_len(
    bytes: Seq<u8>,
    e: u8,
    sep: Option<u8>,
    h: Seq<Option<Digit>>,
    idx: int,
    se: bool,
)
    requires
        h.len() == 81,
        0 <= idx < 81,
        parse_rec(bytes, e, sep, h, idx, se) is Some,
    ensures
        parse_rec(bytes, e, sep, h, idx, se)->0.len() == 81,
    decreases bytes.len(),
{
    let c = bytes[0];
    let rest = bytes.drop_first();
    if sep is Some && se {
        if Some(c) == sep {
            lemma_parse_len(rest, e, sep, h, idx, false);
        } else {
            lemma_parse_len(rest, e, sep, h, idx, true);
        }
    } else if is_ws(c) {
        lemma_parse_len(rest, e, sep, h, idx, se);
    } else if is_digit_byte(c) {
        let g2 = h.update(idx, Some(Digit::spec_from_index(c - 0x31)));
        if idx + 1 < 81 {
            lemma_parse_len(rest, e, sep, g2, idx + 1, cell_col(idx) == 8);
        }
    } else {
        let g2 = h.update(idx, None);
        if idx + 1 < 81 {
            lemma_parse_len(rest, e, sep, g2, idx + 1, cell_col(idx) == 8);
        }
    }
}

/// Read-then-write, modulo normalisation: writing back any grid the reader
/// accepted yields a string the reader reads to the very same grid, so the
/// writer's output is a normal form of the input.
pub proof fn law_read_write_normalises(bytes: Seq<u8>, g: Seq<Option<Digit>>, f: RowMajorAscii)
    requires
        f.unambiguous(),
        parse_spec(bytes, f.empty_cell, f.row_sep) == Some(g),
    ensures
        parse_spec(write_bytes(g, f.empty_cell, f.row_sep), f.empty_cell, f.row_sep) == Some(g),
{
    lemma_parse_len(
        bytes,
        f.empty_cell,
        f.row_sep,
        crate::format::empty_grid_seq(),
        0,
        false,
    );
    law_write_read_identity(g, f);
}

/// Reading a string already in the writer's shape and writing the grid back
/// reproduces the string byte for byte: read-then-write is the identity on
/// normalised strings.
pub proof fn law_read_write_identity(
    bytes: Seq<u8>,
    g: Seq<Option<Digit>>,
    g2: Seq<Option<Digit>>,
    f: RowMajorAscii,
)
    requires
        f.unambiguous(),
        grid_seq_wf(g2),
        bytes == write_bytes(g2, f.empty_cell, f.row_sep),
        parse_spec(bytes, f.empty_cell, f.row_sep) == Some(g),
    ensures
        g == g2,
        write_bytes(g, f.empty_cell, f.row_sep) == bytes,
{
    law_write_read_identity(g2, f);
}

// ---------------------------------------------------------------------------
// What a successful solve means.
// ---------------------------------------------------------------------------
/// Applying placements never changes the number of slots.
pub proof fn lemma_apply_len(g: Seq<Option<Digit>>, ps: Seq<(CellIdx, Digit)>)
    requires
        grid_seq_wf(g),
    ensures
        apply_placements(g, ps).len() == g.len(),
    decreases ps.len(),
{
    if ps.len() > 0 {
        assert(0 <= ps[0].0.rm() < 81);
        lemma_apply_len(g.update(ps[0].0.rm(), Some(ps[0].1)), ps.drop_first());
    }
}

/// If the checker accepts the input and the solver succeeds, the grid reached
/// by applying the returned placements is classified as complete.
pub proof fn law_solution_is_complete(g: Seq<Option<Digit>>, ps: Seq<(CellIdx, Digit)>)
    requires
        grid_seq_wf(g),
        spec_status(g) is Some,
        grid_valid(g) ==> grid_full(apply_placements(g, ps)) && grid_valid(
            apply_placements(g, ps),
        ),
    ensures
        spec_status(apply_placements(g, ps)) == Some(SudokuStatus::Complete),
{
    assert(grid_valid(g));
}

/// The cells of a successful solve's placement list are exactly the cells
/// that were empty in the input.
pub proof fn law_diff_covers_empties(g: Seq<Option<Digit>>, ps: Seq<(CellIdx, Digit)>)
    requires
        grid_seq_wf(g),
        placements_ok(g, ps),
    ensures
        forall|i: int| 0 <= i < 81 ==> (ps_covers(ps, i) <==> g[i] is None),
{
    assert forall|i: int| 0 <= i < 81 implies (ps_covers(ps, i) <==> g[i] is None) by {
        if ps_covers(ps, i) {
            let k = choose|k: int| 0 <= k < ps.len() && (#[trigger] ps[k]).0.rm() == i;
            assert(g[ps[k].0.rm()] is None);
        }
    }
}

} // verus!
