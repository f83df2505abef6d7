use crossword_layout::clue::{Clue, Direction};
use crossword_layout::input_parser::{can_read_clue, read_clue, ClueParseError, State};
use crossword_layout::placement::BaseClue;

fn clue(x: usize, y: usize, direction: Direction, clue: &str, answer: &str) -> Clue {
    Clue { x, y, direction, base: BaseClue { clue: clue.into(), answer: answer.into() }, number: 1 }
}

#[test]
fn reads_column_direction_row_clue_and_answer() {
    assert_eq!(
        read_clue(String::from("3A4Some clue;ANSWER")),
        clue(3, 4, Direction::Across, "Some clue", "ANSWER")
    );
    assert_eq!(
        read_clue(String::from("12D107Feline;CAT")),
        clue(12, 107, Direction::Down, "Feline", "CAT")
    );
}

#[test]
fn answer_runs_to_the_end_of_the_text() {
    assert_eq!(read_clue(String::from("1D2a;b;c")), clue(1, 2, Direction::Down, "a", "b;c"));
    assert_eq!(read_clue(String::from("1D2a;")), clue(1, 2, Direction::Down, "a", ""));
}

#[test]
fn text_that_ends_early_leaves_the_rest_empty() {
    assert_eq!(read_clue(String::new()), clue(0, 0, Direction::Across, "", ""));
    assert_eq!(read_clue(String::from("42")), clue(42, 0, Direction::Across, "", ""));
    assert_eq!(read_clue(String::from("42D")), clue(42, 0, Direction::Down, "", ""));
    assert_eq!(read_clue(String::from("42D7")), clue(42, 7, Direction::Down, "", ""));
    assert_eq!(read_clue(String::from("42D7clue")), clue(42, 7, Direction::Down, "clue", ""));
}

#[test]
fn missing_numbers_read_as_zero() {
    assert_eq!(read_clue(String::from("Aclue;word")), clue(0, 0, Direction::Across, "clue", "word"));
    assert_eq!(read_clue(String::from("D;")), clue(0, 0, Direction::Down, "", ""));
}

#[test]
fn leading_zeros_and_other_digits() {
    assert_eq!(read_clue(String::from("007A010x;y")), clue(7, 10, Direction::Across, "x", "y"));
    // Only 0 to 9 are digits: a digit of another script starts the clue.
    assert_eq!(
        read_clue(String::from("1A2\u{663}x;y")),
        clue(1, 2, Direction::Across, "\u{663}x", "y")
    );
}

#[test]
fn clue_may_start_with_any_character_but_a_digit() {
    assert_eq!(read_clue(String::from("1A2 3;y")), clue(1, 2, Direction::Across, " 3", "y"));
    assert_eq!(read_clue(String::from("1AA;y")), clue(1, 0, Direction::Across, "A", "y"));
}

#[test]
fn states_and_errors_can_be_told_apart() {
    assert_ne!(State::InX, State::InY);
    assert_eq!(State::InDirection, State::InDirection);
    assert_ne!(State::InClue, State::InAnswer);
    let number_error = "x".parse::<u8>().unwrap_err();
    let errors = vec![
        ClueParseError::InvalidDirection('x'),
        ClueParseError::MissingCharacter,
        ClueParseError::NumberParseError(number_error),
        ClueParseError::UnexpectedEndOfInput,
    ];
    assert_eq!(format!("{:?}", errors[0]), "InvalidDirection('x')");
    assert_eq!(format!("{:?}", errors[1]), "MissingCharacter");
    assert!(format!("{:?}", errors[2]).starts_with("NumberParseError("));
    assert_eq!(format!("{:?}", errors[3]), "UnexpectedEndOfInput");
}

#[test]
fn text_is_readable_with_a_direction_and_numbers_that_fit() {
    assert!(can_read_clue("3A4Some clue;ANSWER"));
    assert!(can_read_clue(""));
    assert!(can_read_clue("42"));
    assert!(can_read_clue("D"));
    assert!(can_read_clue(&format!("{}A{}x;y", usize::MAX, usize::MAX)));
    assert!(!can_read_clue("3X4clue;ANSWER"));
    assert!(!can_read_clue("clue;ANSWER"));
    assert!(!can_read_clue("3a4clue;ANSWER"));
    assert!(!can_read_clue(&format!("{}0A1x;y", usize::MAX)));
    assert!(!can_read_clue(&format!("1A{}9x;y", usize::MAX)));
    assert!(!can_read_clue("99999999999999999999999999"));
}

#[test]
fn largest_coordinates_are_read() {
    let read = read_clue(format!("{}D{}x;y", usize::MAX, usize::MAX));
    assert_eq!(read, clue(usize::MAX, usize::MAX, Direction::Down, "x", "y"));
}
