use rust_sudoku::games::{easy_sudoku, easy_sudoku_solution};
use rust_sudoku::sudoku::{parse_initial_sudoku_values, Board};

#[test]
fn test_create_game_with_name() {
    let game = Board::new("easy", easy_sudoku());
    assert_eq!("easy", game.name);
}

#[test]
fn test_parse_initial_values() {
    let output = parse_initial_sudoku_values(easy_sudoku());
    assert_eq!(81, output.len());

    // First line
    assert_eq!(0, output[0 + 0]);
    assert_eq!(0, output[0 + 1]);
    assert_eq!(0, output[0 + 2]);

    assert_eq!(2, output[0 + 3]);
    assert_eq!(6, output[0 + 4]);
    assert_eq!(0, output[0 + 5]);

    assert_eq!(7, output[0 + 6]);
    assert_eq!(0, output[0 + 7]);
    assert_eq!(1, output[0 + 8]);

    // Second line
    assert_eq!(6, output[9 + 0]);
    assert_eq!(8, output[9 + 1]);
    assert_eq!(0, output[9 + 2]);

    assert_eq!(0, output[9 + 3]);
    assert_eq!(7, output[9 + 4]);
    assert_eq!(0, output[9 + 5]);

    assert_eq!(0, output[9 + 6]);
    assert_eq!(9, output[9 + 7]);
    assert_eq!(0, output[9 + 8]);

    // Middle line
    assert_eq!(0, output[36 + 0]);
    assert_eq!(0, output[36 + 1]);
    assert_eq!(4, output[36 + 2]);

    assert_eq!(6, output[36 + 3]);
    assert_eq!(0, output[36 + 4]);
    assert_eq!(2, output[36 + 5]);

    assert_eq!(9, output[36 + 6]);
    assert_eq!(0, output[36 + 7]);
    assert_eq!(0, output[36 + 8]);

    // Last line
    assert_eq!(7, output[72 + 0]);
    assert_eq!(0, output[72 + 1]);
    assert_eq!(3, output[72 + 2]);

    assert_eq!(0, output[72 + 3]);
    assert_eq!(1, output[72 + 4]);
    assert_eq!(8, output[72 + 5]);

    assert_eq!(0, output[72 + 6]);
    assert_eq!(0, output[72 + 7]);
    assert_eq!(0, output[72 + 8]);
}

#[test]
fn test_parse_empty_initial_values() {
    let output = parse_initial_sudoku_values("");
    assert_eq!(81, output.len());
    for pos in 0..81 {
        assert_eq!(0, output[pos]);
    }
}

#[test]
fn test_parse_skips_short_lines() {
    let output = parse_initial_sudoku_values("ab\n\n123456789");
    for col in 0..9 {
        assert_eq!(col + 1, output[col]);
    }
    for pos in 9..81 {
        assert_eq!(0, output[pos]);
    }
}

#[test]
fn test_game_prints_initial_values() {
    let game = Board::new("easy", easy_sudoku());
    assert_eq!(easy_sudoku(), game.to_text());
}

#[test]
fn test_game_propagates_known_values() {
    let mut game = Board::new("easy", easy_sudoku());
    game.solve();
    for col in 1..9 {
        let cell = game.values[Board::position_of(1, col)];
        if !cell.has_known_value() {
            assert_eq!(9 - 4, cell.possibilities()); // 4 cells are known
        }
    }
    assert!(game.solved());
    assert_eq!(81, game.possibilities());
    assert_eq!(easy_sudoku_solution(), game.to_text());
}

#[test]
fn test_possibilities_counts_the_fresh_board() {
    // 36 given squares hold one candidate each; the 45 open squares are
    // still fully open with nine candidates each.
    let game = Board::new("easy", easy_sudoku());
    assert_eq!(36 + 45 * 9, game.possibilities());
    assert!(!game.solved());
    assert!(!game.contains_contradiction());
}
