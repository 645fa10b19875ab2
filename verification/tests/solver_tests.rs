use s2::cancellation_flag::{AlreadyCancelled, Atomic, CancellationFlag, NeverCancelled};
use s2::format::{read_from_string, write_string, RowMajorAscii};
use s2::grid::{with_diff, ArrGrid};
use s2::solver::{GreedySolver, Solver, SolverError};
use s2::status::{eval_status, is_complete, SudokuStatus};

fn parse(s: &str) -> ArrGrid {
    read_from_string(&RowMajorAscii::default(), s).unwrap()
}

fn solve_to_string(given: &ArrGrid) -> Result<String, SolverError> {
    let diff = GreedySolver::new().solve(&NeverCancelled::new(), given)?;
    let complete: ArrGrid = with_diff(given, &diff);
    assert!(is_complete(&complete));
    Ok(write_string(&RowMajorAscii::default(), &complete))
}

#[test]
fn test_empty() {
    let expected = "123456789\n456789123\n789123456\n261594378\n374812965\n598367241\n612948537\n835271694\n947635812";
    let given = ArrGrid::new();
    let complete = solve_to_string(&given).unwrap();
    assert_eq!(expected, complete.as_str());
}

#[test]
fn test_fuzzing_crash_1() {
    let given = parse(
        "_________\n_________\n_________\n_________\n_________\n_________\n_________\n_________\n8________",
    );
    let expected = "145236789\n267589134\n389147256\n431852967\n572693841\n698714325\n713468592\n924375618\n856921473";
    let complete = solve_to_string(&given).unwrap();
    assert_eq!(expected, complete.as_str());
}

#[test]
fn test_feasible() {
    let given = parse(
        "53__7____\n6__195___\n_98____6_\n8___6___3\n4__8_3__1\n7___2___6\n_6____28_\n___419__5\n____8__79",
    );
    let expected = "534678912\n672195348\n198342567\n859761423\n426853791\n713924856\n961537284\n287419635\n345286179";
    let complete = solve_to_string(&given).unwrap();
    assert_eq!(expected, complete.as_str());
}

#[test]
fn test_infeasible() {
    let given = parse(
        "_271_5___\n15__34___\n936___7__\n_8_72_456\n____4_1__\n__1____3_\n___913_4_\n___456___\n_4_8_____",
    );
    let r = GreedySolver::new().solve(&NeverCancelled::new(), &given);
    assert_eq!(r, Err(SolverError::Infeasible));
}

#[test]
fn test_near_empty_single_clue() {
    let given = parse(
        "_________\n_________\n_________\n_________\n_________\n_________\n_________\n_________\n8________",
    );
    let complete = solve_to_string(&given).unwrap();
    let rows: Vec<&str> = complete.split('\n').collect();
    assert!(rows[8].starts_with('8'));
}

#[test]
fn test_already_cancelled() {
    let given = parse(
        "53__7____\n6__195___\n_98____6_\n8___6___3\n4__8_3__1\n7___2___6\n_6____28_\n___419__5\n____8__79",
    );
    let r = GreedySolver::new().solve(&AlreadyCancelled::new(), &given);
    assert_eq!(r, Err(SolverError::Cancelled));
}

#[test]
fn test_constraints_violated() {
    // Two 1s in the first row: the status pre-check rejects the input before
    // any search.
    let given = parse(
        "11_______\n_________\n_________\n_________\n_________\n_________\n_________\n_________\n_________",
    );
    let r = GreedySolver::new().solve(&NeverCancelled::new(), &given);
    assert_eq!(r, Err(SolverError::ConstraintsViolated));
}

#[test]
fn test_overconstrained_is_infeasible() {
    // The three rightmost cells of the first row share the two-digit domain
    // {8, 9}: no duplicate is placed, so the checker accepts the grid, but the
    // root scan sees the over-constrained unit and reports infeasibility.
    let given = parse(
        "123456___\n______7__\n_________\n_________\n_________\n_________\n_________\n_________\n_________",
    );
    let r = GreedySolver::new().solve(&NeverCancelled::new(), &given);
    assert_eq!(r, Err(SolverError::Infeasible));
}

#[test]
fn test_complete_grid_gives_empty_diff() {
    let given = parse(
        "534678912\n672195348\n198342567\n859761423\n426853791\n713924856\n961537284\n287419635\n345286179",
    );
    let diff = GreedySolver::new().solve(&NeverCancelled::new(), &given).unwrap();
    assert_eq!(diff.len(), 0);
}

#[test]
fn test_deterministic() {
    let given = parse(
        "_________\n_________\n____1____\n_________\n_________\n_________\n_________\n_________\n8________",
    );
    let a = solve_to_string(&given).unwrap();
    let b = solve_to_string(&given).unwrap();
    assert_eq!(a, b);
}

#[test]
fn test_eval_status_cases() {
    let complete = parse(
        "534678912\n672195348\n198342567\n859761423\n426853791\n713924856\n961537284\n287419635\n345286179",
    );
    assert_eq!(eval_status(&complete), Ok(SudokuStatus::Complete));
    let incomplete = parse(
        "53__7____\n6__195___\n_98____6_\n8___6___3\n4__8_3__1\n7___2___6\n_6____28_\n___419__5\n____8__79",
    );
    assert_eq!(eval_status(&incomplete), Ok(SudokuStatus::Incomplete));
    let duplicate = parse(
        "11_______\n_________\n_________\n_________\n_________\n_________\n_________\n_________\n_________",
    );
    assert!(eval_status(&duplicate).is_err());
    assert!(!is_complete(&duplicate));
    assert!(is_complete(&complete));
}

#[test]
fn test_diff_covers_exactly_the_empty_cells() {
    let given = parse(
        "53__7____\n6__195___\n_98____6_\n8___6___3\n4__8_3__1\n7___2___6\n_6____28_\n___419__5\n____8__79",
    );
    let mut empties = Vec::new();
    for i in 0..81 {
        let cell = s2::grid::CellIdx::try_of_row_major(i).unwrap();
        if s2::grid::Grid::get(&given, cell).is_none() {
            empties.push(i);
        }
    }
    let diff = GreedySolver::new().solve(&NeverCancelled::new(), &given).unwrap();
    let mut placed: Vec<usize> = diff
        .iter()
        .map(|d| match d {
            s2::grid::GridDiff::Place(cell, _) => cell.row_major(),
            s2::grid::GridDiff::Unset(cell) => cell.row_major(),
        })
        .collect();
    placed.sort();
    assert_eq!(placed, empties);
}

#[test]
fn test_with_diff_unset() {
    let given = parse(
        "53__7____\n6__195___\n_98____6_\n8___6___3\n4__8_3__1\n7___2___6\n_6____28_\n___419__5\n____8__79",
    );
    let cell = s2::grid::CellIdx::try_of_row_major(0).unwrap();
    let cleared: ArrGrid = with_diff(&given, &vec![s2::grid::GridDiff::Unset(cell)]);
    assert_eq!(s2::grid::Grid::get(&cleared, cell), None);
}

#[test]
fn test_atomic_flag() {
    let flag = Atomic::new(false);
    assert!(!flag.cancelled());
    flag.cancel();
    assert!(flag.cancelled());
    let raised = Atomic::new(true);
    assert!(raised.cancelled());
}

#[test]
fn test_ok_or_cancelled() {
    assert_eq!(
        SolverError::ok_or_cancelled::<usize>(Ok(3)),
        Some(Ok(3))
    );
    assert_eq!(
        SolverError::ok_or_cancelled::<usize>(Err(SolverError::Cancelled)),
        Some(Err(SolverError::Cancelled))
    );
    assert_eq!(
        SolverError::ok_or_cancelled::<usize>(Err(SolverError::Infeasible)),
        None
    );
}
