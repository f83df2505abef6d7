use crossword_layout::can_place::{can_place, is_letter};
use crossword_layout::clue::Direction;
use crossword_layout::placement::{blank_grid, write_word_to_grid, Grid, SquareValue};

fn with_cat(size: usize, x: usize, y: usize) -> Grid {
    write_word_to_grid(&blank_grid(size), "CAT", x, y, &Direction::Across)
}

#[test]
fn first_word_goes_on_an_empty_grid() {
    let grid = blank_grid(3);
    assert!(can_place("CAT", &grid, 0, 0, &Direction::Across, true));
    assert!(can_place("CAT", &grid, 0, 2, &Direction::Across, true));
    assert!(can_place("CAT", &grid, 2, 0, &Direction::Down, true));
}

#[test]
fn later_word_must_cross_a_letter() {
    let grid = blank_grid(3);
    assert!(!can_place("CAT", &grid, 0, 0, &Direction::Across, false));
    assert!(!can_place("CAT", &grid, 0, 0, &Direction::Down, false));
}

#[test]
fn word_must_lie_inside_the_grid() {
    let grid = blank_grid(3);
    assert!(!can_place("CATS", &grid, 0, 0, &Direction::Across, true));
    assert!(!can_place("CAT", &grid, 1, 0, &Direction::Across, true));
    assert!(!can_place("CAT", &grid, 0, 1, &Direction::Down, true));
    assert!(!can_place("CAT", &grid, 0, 3, &Direction::Across, true));
    assert!(!can_place("CAT", &grid, 3, 0, &Direction::Down, true));
    assert!(!can_place("CAT", &grid, usize::MAX, 0, &Direction::Across, true));
    assert!(!can_place("CAT", &grid, 0, usize::MAX, &Direction::Down, true));
}

#[test]
fn crossing_word_needs_the_same_letter() {
    let grid = with_cat(3, 0, 0);
    assert!(can_place("CAR", &grid, 0, 0, &Direction::Down, false));
    assert!(can_place("AT", &grid, 1, 0, &Direction::Down, false));
    assert!(can_place("TA", &grid, 2, 0, &Direction::Down, false));
    assert!(!can_place("CAR", &grid, 1, 0, &Direction::Down, false));
    assert!(!can_place("CAR", &grid, 0, 0, &Direction::Across, false));
}

#[test]
fn same_word_may_lie_on_itself() {
    let grid = with_cat(3, 0, 0);
    assert!(can_place("CAT", &grid, 0, 0, &Direction::Across, false));
}

#[test]
fn word_may_not_abut_a_letter_at_its_ends() {
    let grid = with_cat(6, 0, 0);
    // Starts right behind the T.
    assert!(!can_place("DOG", &grid, 3, 0, &Direction::Across, true));
    // Ends right above the A of a word one row down.
    let lower = write_word_to_grid(&blank_grid(6), "CAT", 0, 3, &Direction::Across);
    assert!(!can_place("DOG", &lower, 1, 0, &Direction::Down, true));
    // Starts right below the A.
    assert!(!can_place("DOG", &grid, 1, 1, &Direction::Down, true));
}

#[test]
fn word_may_not_run_flush_beside_letters() {
    let grid = with_cat(5, 0, 1);
    assert!(!can_place("DOG", &grid, 0, 2, &Direction::Across, true));
    assert!(!can_place("DOG", &grid, 0, 0, &Direction::Across, true));
    assert!(can_place("DOG", &grid, 0, 3, &Direction::Across, true));
    let down = write_word_to_grid(&blank_grid(5), "CAT", 1, 0, &Direction::Down);
    assert!(!can_place("DOG", &down, 0, 0, &Direction::Down, true));
    assert!(!can_place("DOG", &down, 2, 0, &Direction::Down, true));
    assert!(can_place("DOG", &down, 3, 0, &Direction::Down, true));
}

#[test]
fn reserved_square_takes_no_letter() {
    let grid = with_cat(5, 1, 0);
    assert_eq!(grid[0][0], SquareValue::Black);
    assert!(!can_place("AB", &grid, 0, 0, &Direction::Down, true));
    assert_eq!(grid[0][4], SquareValue::Black);
    assert!(!can_place("AB", &grid, 4, 0, &Direction::Down, true));
}

#[test]
fn empty_word_is_placed_only_as_the_first() {
    let grid = blank_grid(2);
    assert!(can_place("", &grid, 0, 0, &Direction::Across, true));
    assert!(!can_place("", &grid, 0, 0, &Direction::Across, false));
    // It takes no square, so it may stand at the right edge.
    assert!(can_place("", &grid, 2, 0, &Direction::Across, true));
    assert!(!can_place("", &grid, 3, 0, &Direction::Across, true));
}

#[test]
fn letters_are_counted_not_bytes() {
    let grid = blank_grid(2);
    assert!(can_place("\u{e9}\u{e8}", &grid, 0, 0, &Direction::Across, true));
    let written = write_word_to_grid(&grid, "\u{e9}\u{e8}", 0, 0, &Direction::Across);
    assert_eq!(written[0][1], SquareValue::Char('\u{e8}'));
    assert!(can_place("\u{e8}a", &written, 1, 0, &Direction::Down, false));
}

#[test]
fn is_letter_is_false_outside_the_grid() {
    let grid = with_cat(3, 0, 0);
    assert!(is_letter(&grid, 0, 0));
    assert!(is_letter(&grid, 2, 0));
    assert!(!is_letter(&grid, 0, 1));
    assert!(!is_letter(&grid, 3, 0));
    assert!(!is_letter(&grid, 0, 3));
}
