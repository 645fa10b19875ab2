//! Completions of a puzzle: what it means for a full valid grid to extend a
//! partial one, and the two subset inference rules proved against that model.
use crate::grid::{
    box_cell, cell_box, cell_col, cell_row, forbidden, grid_full, grid_seq_wf, grid_valid,
    lemma_box_cell_range, lemma_cell_id, lemma_rowcol_of, lemma_unit_cell_range,
    lemma_unit_cells_distinct, lemma_unit_cells_same_unit, lemma_unused_elsewhere, same_unit,
    unit_cell, used_in_box, used_in_col, used_in_row, Digit,
};
use vstd::prelude::*;
use vstd::set_lib::lemma_len_subset;

verus! {

/// A full valid grid that keeps every digit the puzzle placed.
pub open spec fn completes(g0: Seq<Option<Digit>>, g: Seq<Option<Digit>>) -> bool {
    &&& grid_seq_wf(g)
    &&& extends(g0, g)
    &&& grid_full(g)
    &&& grid_valid(g)
}

/// The puzzle has no completion at all.
pub open spec fn no_completion(g0: Seq<Option<Digit>>) -> bool {
    forall|g2: Seq<Option<Digit>>| !completes(g0, g2)
}

/// A completion of a further-filled grid also completes the grid it grew from.
pub proof fn lemma_completes_mono(
    ga: Seq<Option<Digit>>,
    gb: Seq<Option<Digit>>,
    g2: Seq<Option<Digit>>,
)
    requires
        extends(ga, gb),
        completes(gb, g2),
    ensures
        completes(ga, g2),
{
}

/// A completion that agrees with a placement still completes the grid after it.
pub proof fn lemma_completes_fill(gc: Seq<Option<Digit>>, i: int, d: Digit, g2: Seq<Option<Digit>>)
    requires
        grid_seq_wf(gc),
        0 <= i < 81,
        gc[i] is None,
        g2[i] == Some(d),
        completes(gc, g2),
    ensures
        completes(gc.update(i, Some(d)), g2),
{
    let gc2 = gc.update(i, Some(d));
    assert forall|j: int| 0 <= j < 81 && gc2[j] is Some implies g2[j] == gc2[j] by {
        if j != i {
            assert(gc[j] is Some);
        }
    }
}

// ---------------------------------------------------------------------------
// The subset inference rules.
// ---------------------------------------------------------------------------
/// The completion `g` keeps every digit the puzzle `g0` placed.
pub open spec fn extends(g0: Seq<Option<Digit>>, g: Seq<Option<Digit>>) -> bool {
    forall|i: int| 0 <= i < 81 && g0[i] is Some ==> g[i] == g0[i]
}

/// A digit is forbidden at an empty cell exactly when another cell of its
/// units already holds it.
pub proof fn lemma_forbidden_neighbor(g: Seq<Option<Digit>>, c: int, d: Digit)
    requires
        grid_seq_wf(g),
        0 <= c < 81,
        g[c] is None,
    ensures
        forbidden(g, c, d) <==> exists|j: int|
            0 <= j < 81 && j != c && same_unit(c, j) && #[trigger] g[j] == Some(d),
{
    lemma_cell_id(c);
    if forbidden(g, c, d) {
        if used_in_row(g, cell_row(c), d) {
            let jj = choose|jj: int| 0 <= jj < 9 && #[trigger] g[cell_row(c) * 9 + jj] == Some(d);
            lemma_rowcol_of(cell_row(c), jj);
            let b = cell_row(c) * 9 + jj;
            assert(0 <= b < 81 && b != c && same_unit(c, b) && g[b] == Some(d));
        } else if used_in_col(g, cell_col(c), d) {
            let jj = choose|jj: int| 0 <= jj < 9 && #[trigger] g[jj * 9 + cell_col(c)] == Some(d);
            lemma_rowcol_of(jj, cell_col(c));
            let b = jj * 9 + cell_col(c);
            assert(0 <= b < 81 && b != c && same_unit(c, b) && g[b] == Some(d));
        } else {
            let kk = choose|kk: int|
                0 <= kk < 9 && #[trigger] g[box_cell(cell_box(c), kk)] == Some(d);
            lemma_box_cell_range(cell_box(c), kk);
            let b = box_cell(cell_box(c), kk);
            assert(0 <= b < 81 && b != c && same_unit(c, b) && g[b] == Some(d));
        }
    }
    if exists|j: int| 0 <= j < 81 && j != c && same_unit(c, j) && #[trigger] g[j] == Some(d) {
        if !forbidden(g, c, d) {
            lemma_unused_elsewhere(g, c, d);
        }
    }
}

/// In any valid completion, a cell that the puzzle left empty takes a digit
/// its puzzle-time domain allowed.
pub proof fn lemma_completion_in_domain(g0: Seq<Option<Digit>>, g: Seq<Option<Digit>>, c: int)
    requires
        grid_seq_wf(g0),
        grid_seq_wf(g),
        extends(g0, g),
        grid_full(g),
        grid_valid(g),
        0 <= c < 81,
        g0[c] is None,
    ensures
        g[c] is Some,
        !forbidden(g0, c, g[c]->0),
{
    let d = g[c]->0;
    if forbidden(g0, c, d) {
        lemma_forbidden_neighbor(g0, c, d);
        let j = choose|j: int|
            0 <= j < 81 && j != c && same_unit(c, j) && #[trigger] g0[j] == Some(d);
        assert(g[j] == Some(d));
        assert(g[c] != g[j]);
        assert(false);
    }
}

/// A finite set that contains a subset of its own size contains nothing more.
proof fn lemma_subset_full<A>(sub: Set<A>, s: Set<A>)
    requires
        s.finite(),
        sub.subset_of(s),
        sub.len() == s.len(),
    ensures
        s =~= sub,
{
    broadcast use vstd::set::group_set_axioms;

    assert forall|x: A| s.contains(x) implies sub.contains(x) by {
        if !sub.contains(x) {
            assert(sub.subset_of(s.remove(x)));
            lemma_len_subset(sub, s.remove(x));
            assert(s.remove(x).len() == s.len() - 1);
        }
    }
}

/// The digits a full valid grid places on the given distinct slots of one
/// unit, as a sequence.
pub open spec fn unit_values(g: Seq<Option<Digit>>, u: int, ks: Seq<int>) -> Seq<Digit> {
    Seq::new(ks.len(), |m: int| g[unit_cell(u, ks[m])]->0)
}

pub proof fn lemma_unit_values_distinct(g: Seq<Option<Digit>>, u: int, ks: Seq<int>)
    requires
        grid_seq_wf(g),
        grid_full(g),
        grid_valid(g),
        0 <= u < 27,
        forall|m: int| 0 <= m < ks.len() ==> 0 <= #[trigger] ks[m] < 9,
        ks.no_duplicates(),
    ensures
        unit_values(g, u, ks).no_duplicates(),
{
    let vals = unit_values(g, u, ks);
    assert forall|m1: int, m2: int|
        0 <= m1 < m2 < ks.len() implies vals[m1] != vals[m2] by {
        lemma_unit_cell_range(u, ks[m1]);
        lemma_unit_cell_range(u, ks[m2]);
        lemma_unit_cells_distinct(u, ks[m1], ks[m2]);
        lemma_unit_cells_same_unit(u, ks[m1], ks[m2]);
        assert(g[unit_cell(u, ks[m1])] is Some);
        assert(g[unit_cell(u, ks[m1])] != g[unit_cell(u, ks[m2])]);
    }
}

/// Naked subset: if the `ks` slots of unit `u` are empty in the puzzle and
/// each allows exactly the digit set `s`, with as many digits as slots, then
/// any valid completion places on those slots exactly the digits of `s`.
pub proof fn law_naked_subset(
    g0: Seq<Option<Digit>>,
    g: Seq<Option<Digit>>,
    u: int,
    ks: Seq<int>,
    s: Set<Digit>,
)
    requires
        grid_seq_wf(g0),
        grid_seq_wf(g),
        extends(g0, g),
        grid_full(g),
        grid_valid(g),
        0 <= u < 27,
        forall|m: int| 0 <= m < ks.len() ==> 0 <= #[trigger] ks[m] < 9,
        ks.no_duplicates(),
        forall|m: int| 0 <= m < ks.len() ==> g0[unit_cell(u, #[trigger] ks[m])] is None,
        forall|m: int, d: Digit|
            #![trigger ks[m], s.contains(d)]
            0 <= m < ks.len() ==> (s.contains(d) <==> !forbidden(g0, unit_cell(u, ks[m]), d)),
        s.finite(),
        s.len() == ks.len(),
    ensures
        forall|m: int|
            0 <= m < ks.len() ==> g[unit_cell(u, #[trigger] ks[m])] is Some && s.contains(
                g[unit_cell(u, ks[m])]->0,
            ),
        forall|d: Digit|
            s.contains(d) ==> exists|m: int|
                0 <= m < ks.len() && g[unit_cell(u, #[trigger] ks[m])] == Some(d),
{
    let vals = unit_values(g, u, ks);
    assert forall|m: int|
        0 <= m < ks.len() implies g[unit_cell(u, #[trigger] ks[m])] is Some && s.contains(
        g[unit_cell(u, ks[m])]->0,
    ) by {
        lemma_unit_cell_range(u, ks[m]);
        lemma_completion_in_domain(g0, g, unit_cell(u, ks[m]));
    }
    lemma_unit_values_distinct(g, u, ks);
    vals.unique_seq_to_set();
    assert(vals.to_set().subset_of(s)) by {
        assert forall|d: Digit| vals.to_set().contains(d) implies s.contains(d) by {
            let m = choose|m: int| 0 <= m < vals.len() && vals[m] == d;
            assert(s.contains(g[unit_cell(u, ks[m])]->0));
        }
    }
    lemma_subset_full(vals.to_set(), s);
    assert forall|d: Digit| s.contains(d) implies exists|m: int|
        0 <= m < ks.len() && g[unit_cell(u, #[trigger] ks[m])] == Some(d) by {
        assert(vals.to_set().contains(d));
        let m = choose|m: int| 0 <= m < vals.len() && vals[m] == d;
        lemma_unit_cell_range(u, ks[m]);
        assert(g[unit_cell(u, ks[m])] is Some);
        assert(g[unit_cell(u, ks[m])] == Some(d));
    }
}

/// Hidden subset: if each digit of `s` is absent from unit `u` of the puzzle
/// and can only sit on the `ks` slots among the unit's empty slots, with as
/// many slots as digits, then any valid completion places on those slots
/// exactly the digits of `s`.
pub proof fn law_hidden_subset(
    g0: Seq<Option<Digit>>,
    g: Seq<Option<Digit>>,
    u: int,
    ks: Seq<int>,
    s: Set<Digit>,
)
    requires
        grid_seq_wf(g0),
        grid_seq_wf(g),
        extends(g0, g),
        grid_full(g),
        grid_valid(g),
        0 <= u < 27,
        forall|m: int| 0 <= m < ks.len() ==> 0 <= #[trigger] ks[m] < 9,
        ks.no_duplicates(),
        forall|m: int| 0 <= m < ks.len() ==> g0[unit_cell(u, #[trigger] ks[m])] is None,
        forall|d: Digit, k2: int|
            #![trigger s.contains(d), unit_cell(u, k2)]
            s.contains(d) && 0 <= k2 < 9 && g0[unit_cell(u, k2)] is None && !forbidden(
                g0,
                unit_cell(u, k2),
                d,
            ) ==> ks.contains(k2),
        forall|d: Digit, k2: int|
            #![trigger s.contains(d), unit_cell(u, k2)]
            s.contains(d) && 0 <= k2 < 9 ==> g0[unit_cell(u, k2)] != Some(d),
        s.finite(),
        s.len() == ks.len(),
    ensures
        forall|d: Digit|
            s.contains(d) ==> exists|m: int|
                0 <= m < ks.len() && g[unit_cell(u, #[trigger] ks[m])] == Some(d),
        forall|m: int|
            0 <= m < ks.len() ==> g[unit_cell(u, #[trigger] ks[m])] is Some && s.contains(
                g[unit_cell(u, ks[m])]->0,
            ),
{
    // Every digit appears somewhere in a full valid unit.
    lemma_unit_onto(g, u);
    // Each digit of `s` therefore sits on one of the `ks` slots.
    assert forall|d: Digit| s.contains(d) implies exists|m: int|
        0 <= m < ks.len() && g[unit_cell(u, #[trigger] ks[m])] == Some(d) by {
        assert(unit_has(g, u, d));
        let k2 = choose|k2: int| 0 <= k2 < 9 && #[trigger] g[unit_cell(u, k2)] == Some(d);
        lemma_unit_cell_range(u, k2);
        assert(g0[unit_cell(u, k2)] is None) by {
            if g0[unit_cell(u, k2)] is Some {
                assert(g[unit_cell(u, k2)] == g0[unit_cell(u, k2)]);
                assert(g0[unit_cell(u, k2)] != Some(d));
                assert(false);
            }
        }
        lemma_completion_in_domain(g0, g, unit_cell(u, k2));
        assert(ks.contains(k2));
        let m = choose|m: int| 0 <= m < ks.len() && ks[m] == k2;
        assert(g[unit_cell(u, ks[m])] == Some(d));
    }
    // With as many slots as digits, the slots carry nothing else.
    let vals = unit_values(g, u, ks);
    lemma_unit_values_distinct(g, u, ks);
    vals.unique_seq_to_set();
    assert(s.subset_of(vals.to_set())) by {
        assert forall|d: Digit| s.contains(d) implies vals.to_set().contains(d) by {
            let m = choose|m: int|
                0 <= m < ks.len() && g[unit_cell(u, #[trigger] ks[m])] == Some(d);
            assert(vals[m] == d);
        }
    }
    lemma_subset_full(s, vals.to_set());
    assert forall|m: int|
        0 <= m < ks.len() implies g[unit_cell(u, #[trigger] ks[m])] is Some && s.contains(
        g[unit_cell(u, ks[m])]->0,
    ) by {
        lemma_unit_cell_range(u, ks[m]);
        assert(vals[m] == g[unit_cell(u, ks[m])]->0);
        assert(vals.to_set().contains(vals[m]));
    }
}

/// Digit `d` appears somewhere in unit `u`.
pub open spec fn unit_has(g: Seq<Option<Digit>>, u: int, d: Digit) -> bool {
    exists|k: int| 0 <= k < 9 && #[trigger] g[unit_cell(u, k)] == Some(d)
}

/// A full valid grid shows every digit in every unit.
pub proof fn lemma_unit_onto(g: Seq<Option<Digit>>, u: int)
    requires
        grid_seq_wf(g),
        grid_full(g),
        grid_valid(g),
        0 <= u < 27,
    ensures
        forall|d: Digit| #[trigger] unit_has(g, u, d),
{
    let ks = Seq::new(9, |k: int| k);
    assert(ks.no_duplicates());
    let vals = unit_values(g, u, ks);
    lemma_unit_values_distinct(g, u, ks);
    vals.unique_seq_to_set();
    let all = all_digits();
    lemma_all_digits();
    assert(vals.to_set().subset_of(all)) by {
        assert forall|d: Digit| vals.to_set().contains(d) implies all.contains(d) by {
            lemma_all_digits();
        }
    }
    lemma_subset_full(vals.to_set(), all);
    assert forall|d: Digit| #[trigger] unit_has(g, u, d) by {
        assert(all.contains(d));
        assert(vals.to_set().contains(d));
        let m = choose|m: int| 0 <= m < vals.len() && vals[m] == d;
        lemma_unit_cell_range(u, ks[m]);
        assert(g[unit_cell(u, m)] is Some);
        assert(g[unit_cell(u, m)] == Some(d));
    }
}

/// The set of all nine digits.
pub open spec fn all_digits() -> Set<Digit> {
    seq![
        Digit::D1,
        Digit::D2,
        Digit::D3,
        Digit::D4,
        Digit::D5,
        Digit::D6,
        Digit::D7,
        Digit::D8,
        Digit::D9,
    ].to_set()
}

proof fn lemma_all_digits()
    ensures
        all_digits().finite(),
        all_digits().len() == 9,
        forall|d: Digit| all_digits().contains(d),
{
    let sq = seq![
        Digit::D1,
        Digit::D2,
        Digit::D3,
        Digit::D4,
        Digit::D5,
        Digit::D6,
        Digit::D7,
        Digit::D8,
        Digit::D9,
    ];
    assert(sq.no_duplicates());
    sq.unique_seq_to_set();
    broadcast use vstd::seq_lib::seq_to_set_is_finite;

    assert forall|d: Digit| all_digits().contains(d) by {
        match d {
            Digit::D1 => assert(sq[0] == d),
            Digit::D2 => assert(sq[1] == d),
            Digit::D3 => assert(sq[2] == d),
            Digit::D4 => assert(sq[3] == d),
            Digit::D5 => assert(sq[4] == d),
            Digit::D6 => assert(sq[5] == d),
            Digit::D7 => assert(sq[6] == d),
            Digit::D8 => assert(sq[7] == d),
            Digit::D9 => assert(sq[8] == d),
        }
    }
}


} // verus!
