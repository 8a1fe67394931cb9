use rust_sudoku::games::{easy_sudoku, easy_sudoku2, easy_sudoku2_solution, easy_sudoku_solution};
use rust_sudoku::sudoku::Game;

// Acceptance tests with increasingly difficult Sudokus to solve

#[test]
fn test_can_solve_easy_sudoku() {
    let mut game = Game::new("easy", easy_sudoku());
    game.solve();
    assert_eq!(easy_sudoku_solution(), game.to_text());
}

#[test]
fn test_can_solve_second_easy_sudoku() {
    let mut game = Game::new("easy2", easy_sudoku2());
    game.solve();
    assert_eq!(easy_sudoku2_solution(), game.to_text());
}
