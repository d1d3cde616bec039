use boggle::board::{get_adjacent_points, get_letter, Board, InvalidBoardError, Point};

fn rows(texts: &[&str]) -> Vec<String> {
    texts.iter().map(|t| t.to_string()).collect()
}

fn sorted(mut points: Vec<Point>) -> Vec<(usize, usize)> {
    points.sort_by_key(|p| (p.x, p.y));
    points.into_iter().map(|p| (p.x, p.y)).collect()
}

#[test]
fn single_symbol_row_is_too_small() {
    let result = Board::from_rows(&rows(&["a"]));
    assert_eq!(result.err(), Some(InvalidBoardError::TooSmall));
}

#[test]
fn no_rows_is_too_small() {
    let result = Board::from_rows(&rows(&[]));
    assert_eq!(result.err(), Some(InvalidBoardError::TooSmall));
}

#[test]
fn empty_first_row_is_too_small() {
    let result = Board::from_rows(&rows(&["", "ab"]));
    assert_eq!(result.err(), Some(InvalidBoardError::TooSmall));
}

#[test]
fn short_second_row_is_a_mismatch() {
    let result = Board::from_rows(&rows(&["ab", "c"]));
    assert_eq!(result.err(), Some(InvalidBoardError::RowSizeMismatch(1)));
}

#[test]
fn long_third_row_is_a_mismatch() {
    let result = Board::from_rows(&rows(&["abc", "def", "ghij"]));
    assert_eq!(result.err(), Some(InvalidBoardError::RowSizeMismatch(2)));
}

#[test]
fn first_bad_row_is_named() {
    let result = Board::from_rows(&rows(&["abc", "de", "g"]));
    assert_eq!(result.err(), Some(InvalidBoardError::RowSizeMismatch(1)));
}

#[test]
fn missing_row_is_a_mismatch() {
    let result = Board::from_rows(&rows(&["ab"]));
    assert_eq!(result.err(), Some(InvalidBoardError::RowSizeMismatch(1)));
    let result = Board::from_rows(&rows(&["abc", "def"]));
    assert_eq!(result.err(), Some(InvalidBoardError::RowSizeMismatch(2)));
}

#[test]
fn surplus_row_is_a_mismatch() {
    let result = Board::from_rows(&rows(&["ab", "cd", "ef"]));
    assert_eq!(result.err(), Some(InvalidBoardError::RowSizeMismatch(2)));
}

#[test]
fn bad_row_before_the_surplus_is_named() {
    let result = Board::from_rows(&rows(&["ab", "c", "ef"]));
    assert_eq!(result.err(), Some(InvalidBoardError::RowSizeMismatch(1)));
}

#[test]
fn square_of_two_is_a_board() {
    let board = Board::from_rows(&rows(&["ab", "cd"])).unwrap();
    assert_eq!(board.size(), 2);
    assert_eq!(board.letters(), "abcd");
}

#[test]
fn square_of_three_is_a_board() {
    let board = Board::from_rows(&rows(&["abc", "def", "ghi"])).unwrap();
    assert_eq!(board.size(), 3);
    assert_eq!(board.letters(), "abcdefghi");
}

#[test]
fn rows_are_measured_in_symbols() {
    let board = Board::from_rows(&rows(&["é_", "ñu"])).unwrap();
    assert_eq!(board.size(), 2);
    assert_eq!(get_letter(&Point { x: 0, y: 1 }, &board), "ñ");
}

#[test]
fn letter_is_read_by_column_then_row() {
    let board = Board::from_rows(&rows(&["abc", "def", "ghi"])).unwrap();
    assert_eq!(get_letter(&Point { x: 0, y: 0 }, &board), "a");
    assert_eq!(get_letter(&Point { x: 2, y: 0 }, &board), "c");
    assert_eq!(get_letter(&Point { x: 0, y: 2 }, &board), "g");
    assert_eq!(get_letter(&Point { x: 1, y: 1 }, &board), "e");
    assert_eq!(get_letter(&Point { x: 2, y: 2 }, &board), "i");
    assert_eq!(get_letter(&Point { x: 1, y: 2 }, &board), "h");
}

#[test]
fn corner_has_three_neighbours() {
    let around = get_adjacent_points(&Point { x: 0, y: 0 }, &2);
    assert_eq!(sorted(around), vec![(0, 1), (1, 0), (1, 1)]);
    let around = get_adjacent_points(&Point { x: 2, y: 2 }, &3);
    assert_eq!(sorted(around), vec![(1, 1), (1, 2), (2, 1)]);
}

#[test]
fn edge_has_five_neighbours() {
    let around = get_adjacent_points(&Point { x: 1, y: 0 }, &3);
    assert_eq!(sorted(around), vec![(0, 0), (0, 1), (1, 1), (2, 0), (2, 1)]);
}

#[test]
fn middle_has_eight_neighbours() {
    let around = get_adjacent_points(&Point { x: 1, y: 1 }, &3);
    assert_eq!(
        sorted(around),
        vec![(0, 0), (0, 1), (0, 2), (1, 0), (1, 2), (2, 0), (2, 1), (2, 2)]
    );
}

#[test]
fn neighbours_never_hold_the_point_or_a_cell_twice() {
    for size in 2..5usize {
        for x in 0..size {
            for y in 0..size {
                let p = Point { x, y };
                let around = get_adjacent_points(&p, &size);
                let listed = sorted(around.clone());
                let mut unique = listed.clone();
                unique.dedup();
                assert_eq!(listed, unique);
                assert!(!around.contains(&p));
                for q in &around {
                    assert!(q.x < size && q.y < size);
                    assert!(q.x.abs_diff(x) <= 1 && q.y.abs_diff(y) <= 1);
                }
                let mut expected = 0;
                for qx in 0..size {
                    for qy in 0..size {
                        if (qx, qy) != (x, y) && qx.abs_diff(x) <= 1 && qy.abs_diff(y) <= 1 {
                            expected += 1;
                        }
                    }
                }
                assert_eq!(around.len(), expected);
            }
        }
    }
}

#[test]
fn point_off_the_board_touches_only_cells_of_the_board() {
    let around = get_adjacent_points(&Point { x: 3, y: 1 }, &3);
    assert_eq!(sorted(around), vec![(2, 0), (2, 1), (2, 2)]);
    let around = get_adjacent_points(&Point { x: 7, y: 7 }, &3);
    assert!(around.is_empty());
    let around = get_adjacent_points(&Point { x: usize::MAX, y: 0 }, &3);
    assert!(around.is_empty());
}
