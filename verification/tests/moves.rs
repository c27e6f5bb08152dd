use fianco_brain::board::{board_from_rows, Board, EngineError, Move};
use fianco_brain::moves::{get_all_possible_moves, get_possible_captures, get_valid_moves};

fn board_with(men: &[(usize, usize, i8)]) -> Board {
    let mut b = Board::empty();
    for &(r, c, v) in men {
        b.set(r, c, v);
    }
    b
}

#[test]
fn empty_board_has_no_moves() {
    let b = Board::empty();
    assert!(get_valid_moves(&b, 1).is_empty());
    assert!(get_valid_moves(&b, -1).is_empty());
}

#[test]
fn black_steps_down_and_sideways() {
    let b = board_with(&[(3, 4, 1)]);
    let moves: Vec<Move> = get_valid_moves(&b, 1);
    assert_eq!(moves, vec![(3, 4, 4, 4), (3, 4, 3, 3), (3, 4, 3, 5)]);
}

#[test]
fn white_steps_up_and_sideways() {
    let b = board_with(&[(3, 4, -1)]);
    let moves = get_valid_moves(&b, -1);
    assert_eq!(moves, vec![(3, 4, 2, 4), (3, 4, 3, 3), (3, 4, 3, 5)]);
}

#[test]
fn no_step_backwards_or_off_the_grid() {
    let b = board_with(&[(8, 0, 1), (0, 8, -1)]);
    assert_eq!(get_valid_moves(&b, 1), vec![(8, 0, 8, 1)]);
    assert_eq!(get_valid_moves(&b, -1), vec![(0, 8, 0, 7)]);
}

#[test]
fn steps_onto_occupied_cells_are_left_out() {
    let b = board_with(&[(3, 4, 1), (4, 4, 1), (3, 3, -1)]);
    let moves = get_all_possible_moves(&b, 1);
    assert_eq!(
        moves,
        vec![(3, 4, 3, 5), (4, 4, 5, 4), (4, 4, 4, 3), (4, 4, 4, 5)]
    );
}

#[test]
fn capture_is_forced() {
    // the black man on (3, 4) can step, and can capture the white man on (4, 5)
    let b = board_with(&[(3, 4, 1), (4, 5, -1), (0, 0, 1)]);
    let captures = get_possible_captures(&b, 1);
    assert_eq!(captures, vec![(3, 4, 5, 6)]);
    let quiet = get_all_possible_moves(&b, 1);
    assert!(!quiet.is_empty());
    let legal = get_valid_moves(&b, 1);
    assert_eq!(legal, vec![(3, 4, 5, 6)]);
    for m in quiet {
        assert!(!legal.contains(&m));
    }
}

#[test]
fn captures_to_both_sides_come_left_first() {
    let b = board_with(&[(3, 4, 1), (4, 3, -1), (4, 5, -1)]);
    assert_eq!(
        get_valid_moves(&b, 1),
        vec![(3, 4, 5, 2), (3, 4, 5, 6)]
    );
}

#[test]
fn white_captures_towards_row_zero() {
    let b = board_with(&[(5, 4, -1), (4, 3, 1)]);
    assert_eq!(get_valid_moves(&b, -1), vec![(5, 4, 3, 2)]);
}

#[test]
fn capture_needs_an_empty_landing_cell() {
    let b = board_with(&[(3, 4, 1), (4, 5, -1), (5, 6, -1)]);
    assert!(get_possible_captures(&b, 1).is_empty());
}

#[test]
fn capture_needs_the_landing_cell_on_the_grid() {
    let b = board_with(&[(7, 4, 1), (8, 5, -1), (3, 7, 1), (4, 8, -1)]);
    assert!(get_possible_captures(&b, 1).is_empty());
    let c = board_with(&[(3, 1, 1), (4, 0, -1)]);
    assert!(get_possible_captures(&c, 1).is_empty());
}

#[test]
fn own_man_cannot_be_captured() {
    let b = board_with(&[(3, 4, 1), (4, 5, 1)]);
    assert!(get_possible_captures(&b, 1).is_empty());
}

#[test]
fn blocked_side_has_no_moves() {
    // the black man in the corner is hemmed in by its own goal row and a neighbour
    let b = board_with(&[(8, 0, 1), (8, 1, -1)]);
    assert!(get_valid_moves(&b, 1).is_empty());
}

#[test]
fn moves_come_row_by_row() {
    let b = board_with(&[(5, 5, 1), (2, 2, 1)]);
    let moves = get_valid_moves(&b, 1);
    assert_eq!(
        moves,
        vec![
            (2, 2, 3, 2),
            (2, 2, 2, 1),
            (2, 2, 2, 3),
            (5, 5, 6, 5),
            (5, 5, 5, 4),
            (5, 5, 5, 6)
        ]
    );
}

#[test]
fn rows_of_the_right_shape_make_a_board() {
    let mut rows = vec![vec![0i8; 9]; 9];
    rows[0][3] = 1;
    rows[8][5] = -1;
    let b = board_from_rows(&rows).unwrap();
    assert_eq!(b.get(0, 3), 1);
    assert_eq!(b.get(8, 5), -1);
    assert_eq!(b.get(4, 4), 0);
}

#[test]
fn wrong_number_of_rows_is_refused() {
    let rows = vec![vec![0i8; 9]; 8];
    assert_eq!(board_from_rows(&rows).unwrap_err(), EngineError::InvalidShape);
    let none: Vec<Vec<i8>> = Vec::new();
    assert_eq!(board_from_rows(&none).unwrap_err(), EngineError::InvalidShape);
}

#[test]
fn wrong_row_length_is_refused() {
    let mut rows = vec![vec![0i8; 9]; 9];
    rows[4] = vec![0i8; 10];
    assert_eq!(board_from_rows(&rows).unwrap_err(), EngineError::InvalidShape);
}

#[test]
fn wrong_cell_value_is_refused() {
    let mut rows = vec![vec![0i8; 9]; 9];
    rows[2][2] = 2;
    assert_eq!(board_from_rows(&rows).unwrap_err(), EngineError::InvalidCell);
    rows[2][2] = -2;
    assert_eq!(board_from_rows(&rows).unwrap_err(), EngineError::InvalidCell);
}

#[test]
fn wrong_shape_is_reported_before_a_wrong_cell() {
    let mut rows = vec![vec![0i8; 9]; 9];
    rows[0][0] = 5;
    rows[8] = vec![0i8; 3];
    assert_eq!(board_from_rows(&rows).unwrap_err(), EngineError::InvalidShape);
}
