//! A verified Sudoku solving engine.
//!
//! The engine deduces the filling of a 9x9 grid (digits 1-9, each row,
//! column and 3x3 subgrid holding each digit exactly once) from a partially
//! filled starting grid.  Deduction combines unit propagation, naked-pair
//! elimination and singleton promotion; when deduction stalls, a
//! breadth-first guess-and-backtrack search over speculative boards takes
//! over.
//!
//! The central verified guarantees:
//! * a board reported as solved is a valid Sudoku grid (every row, column
//!   and subgrid holds each digit exactly once);
//! * candidate sets only ever shrink, so the given digits of the input
//!   reappear unchanged in any solution that is found;
//! * `solve` reports success exactly when every square ends up with a
//!   single candidate, and failure only when the input admits no solution
//!   at all (up to the machine limit of the guess-depth counter).
//!
//! The engine has no diagnostics hook: the design would let a caller inject
//! a function receiving trace text at each propagation, technique pass and
//! guess, but Verus supports neither bare function pointers nor string
//! formatting in verified code, so the engine runs silently.  A driver that
//! wants progress output can render `to_text` before and after a solve, as
//! `app` does.

pub mod games;
pub mod laws;
pub mod search;
pub mod square_value;
pub mod sudoku;
pub mod units;
