use rust_sudoku::games::{easy_sudoku, easy_sudoku_solution};
use rust_sudoku::sudoku::{Board, Game};

/// Check that the rendered grid is a correctly solved Sudoku: every row,
/// column and 3x3 subgrid holds each digit 1-9 exactly once.
fn assert_valid_solution(text: &str) {
    let rows: Vec<Vec<u32>> = text
        .lines()
        .filter(|l| l.len() >= 9)
        .map(|l| l.chars().map(|c| c.to_digit(10).unwrap_or(0)).collect())
        .collect();
    assert_eq!(9, rows.len());
    for r in 0..9 {
        for c in 0..9 {
            assert!(rows[r][c] >= 1 && rows[r][c] <= 9);
        }
    }
    for i in 0..9 {
        let mut row_seen = [false; 10];
        let mut col_seen = [false; 10];
        let mut grid_seen = [false; 10];
        for j in 0..9 {
            assert!(!row_seen[rows[i][j] as usize]);
            row_seen[rows[i][j] as usize] = true;
            assert!(!col_seen[rows[j][i] as usize]);
            col_seen[rows[j][i] as usize] = true;
            let gr = (i / 3) * 3 + j / 3;
            let gc = (i % 3) * 3 + j % 3;
            assert!(!grid_seen[rows[gr][gc] as usize]);
            grid_seen[rows[gr][gc] as usize] = true;
        }
    }
}

/// Check that every given digit of the puzzle text reappears unchanged at
/// the same position in the solved text.
fn assert_givens_preserved(puzzle: &str, solution: &str) {
    let puzzle_rows: Vec<&str> = puzzle.lines().filter(|l| l.len() >= 9).collect();
    let solution_rows: Vec<&str> = solution.lines().filter(|l| l.len() >= 9).collect();
    for (r, line) in puzzle_rows.iter().enumerate() {
        for (c, ch) in line.chars().take(9).enumerate() {
            if ch.is_ascii_digit() && ch != '0' {
                assert_eq!(ch, solution_rows[r].chars().nth(c).unwrap());
            }
        }
    }
}

/// A puzzle that stalls deduction: the solution of the easy game with every
/// 1 and 2 removed.  Propagation narrows each blank square to the two
/// candidates 1 and 2 and no technique can decide between them, so the
/// engine must guess.
fn two_digit_puzzle() -> String {
    easy_sudoku_solution()
        .chars()
        .map(|c| if c == '1' || c == '2' { '.' } else { c })
        .collect()
}

#[test]
fn test_easy_sudoku_is_deduced_without_guessing() {
    let mut board = Board::new("easy", easy_sudoku());
    assert!(board.solve());
    assert_eq!(0, board.depth);

    let mut game = Game::new("easy", easy_sudoku());
    assert!(game.solve());
    assert!(game.solved());
    assert_eq!(0, game.depth());
    assert_eq!(81, game.possibilities());
    assert_eq!(easy_sudoku_solution(), game.to_text());
}

#[test]
fn test_empty_board_stalls_fully_open() {
    let mut board = Board::new("empty", "");
    assert!(!board.solve());
    assert!(!board.contains_contradiction());
    assert!(!board.solved());
    assert_eq!(729, board.possibilities());
}

#[test]
fn test_guessing_solves_a_stalled_puzzle() {
    let puzzle = two_digit_puzzle();

    // Deduction alone must not finish this puzzle.
    let mut board = Board::new("stalled", &puzzle);
    assert!(!board.solve());
    assert!(!board.contains_contradiction());

    // The search does, with at least one guess taken.
    let mut game = Game::new("stalled", &puzzle);
    assert!(game.solve());
    assert!(game.solved());
    assert!(game.depth() >= 1);
    let text = game.to_text();
    assert_valid_solution(&text);
    assert_givens_preserved(&puzzle, &text);
}

#[test]
fn test_solving_is_deterministic() {
    let puzzle = two_digit_puzzle();
    let mut first = Game::new("once", &puzzle);
    let mut second = Game::new("twice", &puzzle);
    assert_eq!(first.solve(), second.solve());
    assert_eq!(first.to_text(), second.to_text());
    assert_eq!(first.depth(), second.depth());
}

#[test]
fn test_conflicting_givens_reach_a_contradiction() {
    // Two 5s in the first row: propagating one removes the last candidate
    // of the other.
    let mut board = Board::new("conflict", "55.......");
    assert!(!board.solve());
    assert!(board.contains_contradiction());
    assert!(!board.solved());

    let mut game = Game::new("conflict", "55.......");
    assert!(!game.solve());
    assert!(!game.solved());
}

#[test]
fn test_exhausted_search_reports_no_solution() {
    // The first three squares of row one can each hold only 1 or 2: the row
    // leaves them {1, 2, 9} and the 9 in their subgrid removes the 9.
    // Three squares sharing a row cannot hold two digits, so the puzzle has
    // no solution, but no single deduction exposes the conflict: the search
    // tries both digits for the first square and runs out of experiments.
    let puzzle = "...345678\n.9.......";
    let mut board = Board::new("impossible", puzzle);
    assert!(!board.solve());
    assert!(!board.contains_contradiction());

    let mut game = Game::new("impossible", puzzle);
    assert!(!game.solve());
    assert!(!game.solved());
    assert!(game.possibilities() > 81);
}

#[test]
fn test_singleton_promotion_finds_the_forced_square() {
    // Eight 9s placed so that in row one only the last square can hold a 9:
    // the row, its columns and the subgrids rule the others out.
    let puzzle = "\
.........\n\
..9......\n\
.....9...\n\
9........\n\
...9.....\n\
......9..\n\
.9.......\n\
....9....\n\
.......9.";
    let mut board = Board::new("singleton", puzzle);
    board.solve();
    assert!(!board.contains_contradiction());
    let square = board.values[Board::position_of(1, 9)];
    assert!(square.has_known_value());
    assert_eq!(9, square.value());
}

#[test]
fn test_pure_pair_applies_despite_a_partial_overlap() {
    // In row one, the digits 1 and 2 can both go only to the first two
    // squares, and both of those squares hold exactly the candidates {1, 2}.
    // A third square of the row can still hold the 2 on its own, so the
    // pair qualifies only through the pure-pair relaxation.  Applying it
    // removes the 1 from the fourth square of the row.
    let puzzle = "\
.........\n\
36.2.....\n\
47.9.....\n\
5814.....\n\
69.51....\n\
73.6..1..\n\
84.7....1\n\
95.8.2...\n\
.......2.";
    let mut board = Board::new("pure pair", puzzle);
    board.solve();
    let fourth = board.values[Board::position_of(1, 4)];
    assert!(!fourth.is_possibly(1));
}

#[test]
fn test_pair_with_clean_unit_restricts_the_paired_squares() {
    // In column one, the digits 1 and 2 fit only into the first two squares,
    // though those squares are otherwise fully open; no other square of the
    // column can hold either digit.  The pair qualifies through the clean
    // unit and restricts both paired squares to exactly {1, 2}.
    let puzzle = "\
.........\n\
.........\n\
....12...\n\
.1.......\n\
.2.......\n\
.........\n\
..1......\n\
..2......\n\
.........";
    let mut board = Board::new("hidden pair", puzzle);
    board.solve();
    for (row, col) in [(1, 1), (2, 1)] {
        let square = board.values[Board::position_of(row, col)];
        for v in 3..=9 {
            assert!(!square.is_possibly(v));
        }
    }
}

#[test]
fn test_naked_pair_strips_the_shared_subgrid() {
    // Row one confines its first two squares to {1, 2}: a pure naked pair.
    // Both digits must go to those two squares, so the other squares of the
    // shared subgrid lose the candidates 1 and 2.
    let mut board = Board::new("pair", "..3456789");
    board.solve();
    assert!(!board.contains_contradiction());
    let below = board.values[Board::position_of(2, 1)];
    assert!(!below.is_possibly(1));
    assert!(!below.is_possibly(2));
    assert_eq!(6, below.possibilities());
}
