//! Example puzzles and their solutions, in the textual grid format: one line
//! per row, a digit for a given square and any other character for a blank.

use vstd::prelude::*;

verus! {

/// An easy puzzle: deduction alone solves it, no guessing needed.
pub fn easy_sudoku() -> (text: &'static str)
    ensures
        text@ == "\n...26.7.1\n68..7..9.\n19...45..\n82.1...4.\n..46.29..\n.5...3.28\n..93...74\n.4..5..36\n7.3.18...\n"@,
{
    "\n...26.7.1\n68..7..9.\n19...45..\n82.1...4.\n..46.29..\n.5...3.28\n..93...74\n.4..5..36\n7.3.18...\n"
}

/// The unique solution of `easy_sudoku`.
pub fn easy_sudoku_solution() -> (text: &'static str)
    ensures
        text@ == "\n435269781\n682571493\n197834562\n826195347\n374682915\n951743628\n519326874\n248957136\n763418259\n"@,
{
    "\n435269781\n682571493\n197834562\n826195347\n374682915\n951743628\n519326874\n248957136\n763418259\n"
}

/// A second easy puzzle.
pub fn easy_sudoku2() -> (text: &'static str)
    ensures
        text@ == "\n1..489..6\n73.....4.\n.....1295\n..712.6..\n5..7.3..8\n..6.957..\n9146.....\n.2.....37\n8..512..4\n"@,
{
    "\n1..489..6\n73.....4.\n.....1295\n..712.6..\n5..7.3..8\n..6.957..\n9146.....\n.2.....37\n8..512..4\n"
}

/// The unique solution of `easy_sudoku2`.
pub fn easy_sudoku2_solution() -> (text: &'static str)
    ensures
        text@ == "\n152489376\n739256841\n468371295\n387124659\n591763428\n246895713\n914637582\n625948137\n873512964\n"@,
{
    "\n152489376\n739256841\n468371295\n387124659\n591763428\n246895713\n914637582\n625948137\n873512964\n"
}

} // verus!
