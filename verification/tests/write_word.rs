use crossword_layout::clue::Direction;
use crossword_layout::placement::{blank_grid, write_word_to_grid, SquareValue};

use SquareValue::{Black, Blank, Char};

#[test]
fn blank_grid_is_square_and_empty() {
    let grid = blank_grid(3);
    assert_eq!(grid, vec![vec![Blank; 3]; 3]);
    assert_eq!(blank_grid(0), Vec::<Vec<SquareValue>>::new());
}

#[test]
fn across_word_is_written_with_both_ends_reserved() {
    let grid = write_word_to_grid(&blank_grid(6), "CAT", 1, 2, &Direction::Across);
    let mut expected = vec![vec![Blank; 6]; 6];
    expected[2] = vec![Black, Char('C'), Char('A'), Char('T'), Black, Blank];
    assert_eq!(grid, expected);
}

#[test]
fn down_word_is_written_with_both_ends_reserved() {
    let grid = write_word_to_grid(&blank_grid(5), "ON", 3, 1, &Direction::Down);
    let mut expected = vec![vec![Blank; 5]; 5];
    expected[0][3] = Black;
    expected[1][3] = Char('O');
    expected[2][3] = Char('N');
    expected[3][3] = Black;
    assert_eq!(grid, expected);
}

#[test]
fn square_behind_the_word_is_reserved_in_the_last_column_too() {
    let grid = write_word_to_grid(&blank_grid(5), "CAT", 1, 0, &Direction::Across);
    assert_eq!(grid[0], vec![Black, Char('C'), Char('A'), Char('T'), Black]);
    let grid = write_word_to_grid(&blank_grid(5), "CAT", 0, 1, &Direction::Down);
    assert_eq!(grid[0][0], Black);
    assert_eq!(grid[4][0], Black);
}

#[test]
fn word_from_edge_to_edge_reserves_nothing() {
    let grid = write_word_to_grid(&blank_grid(3), "CAT", 0, 1, &Direction::Across);
    let mut expected = vec![vec![Blank; 3]; 3];
    expected[1] = vec![Char('C'), Char('A'), Char('T')];
    assert_eq!(grid, expected);
}

#[test]
fn writing_leaves_the_given_grid_as_it_was() {
    let grid = blank_grid(3);
    let _ = write_word_to_grid(&grid, "CAT", 0, 0, &Direction::Across);
    assert_eq!(grid, vec![vec![Blank; 3]; 3]);
}

#[test]
fn letter_at_an_end_is_not_reserved() {
    // A letter already stands just before the start and just after the end.
    let mut grid = blank_grid(5);
    grid[0][0] = Char('X');
    grid[0][4] = Char('Y');
    let written = write_word_to_grid(&grid, "CAT", 1, 0, &Direction::Across);
    assert_eq!(written[0], vec![Char('X'), Char('C'), Char('A'), Char('T'), Char('Y')]);
}

#[test]
fn crossing_keeps_letters_and_reserved_squares() {
    let grid = write_word_to_grid(&blank_grid(4), "CAT", 0, 1, &Direction::Across);
    let grid = write_word_to_grid(&grid, "TAR", 1, 0, &Direction::Down);
    let expected = vec![
        vec![Blank, Char('T'), Blank, Blank],
        vec![Char('C'), Char('A'), Char('T'), Black],
        vec![Blank, Char('R'), Blank, Blank],
        vec![Blank, Black, Blank, Blank],
    ];
    assert_eq!(grid, expected);
}

#[test]
fn empty_word_reserves_the_squares_around_its_start() {
    let grid = write_word_to_grid(&blank_grid(3), "", 1, 1, &Direction::Across);
    assert_eq!(grid[1], vec![Black, Black, Blank]);
}
