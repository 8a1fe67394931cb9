use rust_sudoku::square_value::SquareValue;

#[test]
fn test_square_has_a_position_in_grid() {
    let mut value = SquareValue::new();
    value.at(4, 7);
    assert_eq!(4, value.row);
    assert_eq!(7, value.col);
}

#[test]
fn test_create_default_values() {
    for v in 1..=9 {
        let mut value = SquareValue::new();

        assert!(!value.has_known_value());
        for possible_value in 1..=9 {
            assert!(value.is_possibly(possible_value));
        }

        value.set_known_value(v);

        assert!(value.has_known_value());

        assert_eq!(v, value.value());

        for possible_value in 1..=9 {
            assert_eq!(possible_value == v, value.is_possibly(possible_value));
        }
    }
}

#[test]
fn test_propagating_known_values() {
    let mut value = SquareValue::new();

    assert_eq!(false, value.needs_to_be_propagated());

    value.set_known_value(5);
    assert_eq!(true, value.needs_to_be_propagated());

    value.has_been_propagated();
    assert_eq!(false, value.needs_to_be_propagated());
}

#[test]
fn test_reducing_possibilities_due_to_constraints() {
    let mut value = SquareValue::new();

    assert!(!value.has_known_value());
    value.cant_have_value(5);
    assert!(!value.has_known_value());

    for v in 1..=9 {
        if v != 7 {
            value.cant_have_value(v);
        }
    }

    assert!(value.has_known_value());
    assert_eq!(7, value.value());
}

#[test]
fn test_value_returns_lowest_candidate() {
    let mut value = SquareValue::new();
    assert_eq!(1, value.value());
    value.cant_have_value(1);
    assert_eq!(2, value.value());
    assert_eq!(8, value.possibilities());
}

#[test]
fn test_removing_every_candidate_is_a_contradiction() {
    let mut value = SquareValue::new();
    for v in 1..=9 {
        value.cant_have_value(v);
    }
    assert!(value.is_contradiction());
    assert_eq!(0, value.possibilities());
    assert_eq!(0, value.value());
}

#[test]
fn test_subgrid_coordinates() {
    let mut value = SquareValue::new();
    value.at(4, 9);
    assert_eq!(1, value.row_grid());
    assert_eq!(2, value.col_grid());
}
