//! A verified Sudoku solver: a cancellable backtracking search over packed
//! bit constraints, with naked- and hidden-subset inference, an exact status
//! checker, and an ASCII codec whose round trips are proved.
pub mod bits9;
pub mod bool_matrix;
pub mod cancellation_flag;
pub mod completion;
pub mod domain;
pub mod format;
pub mod grid;
pub mod hidden_sets;
pub mod laws;
pub mod permutator;
pub mod solver;
pub mod status;
