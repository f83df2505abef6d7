use crossword_layout::clue::{Clue, Direction};
use crossword_layout::placement::BaseClue;
use crossword_layout::text::{char_string, decimal_string, letters_of};

#[test]
fn numbers_are_written_in_decimal() {
    assert_eq!(decimal_string(0), "0");
    assert_eq!(decimal_string(7), "7");
    assert_eq!(decimal_string(10), "10");
    assert_eq!(decimal_string(109), "109");
    assert_eq!(decimal_string(1234567890), "1234567890");
    assert_eq!(decimal_string(usize::MAX), usize::MAX.to_string());
}

#[test]
fn one_character_is_one_text() {
    assert_eq!(char_string('A'), "A");
    assert_eq!(char_string('\u{e9}'), "\u{e9}");
}

#[test]
fn letters_are_the_characters_in_order() {
    assert_eq!(letters_of(""), Vec::<char>::new());
    assert_eq!(letters_of("abc"), vec!['a', 'b', 'c']);
    assert_eq!(letters_of("h\u{e9}!"), vec!['h', '\u{e9}', '!']);
}

#[test]
fn direction_has_its_name() {
    assert_eq!(Direction::Down.to_text(), "Down");
    assert_eq!(Direction::Across.to_text(), "Across");
    assert!(Direction::Across.is_across());
    assert!(!Direction::Down.is_across());
}

#[test]
fn clue_is_written_on_two_lines() {
    let clue = Clue {
        x: 1,
        y: 20,
        direction: Direction::Down,
        base: BaseClue { clue: String::from("Feline"), answer: String::from("CAT") },
        number: 4,
    };
    assert_eq!(clue.to_text(), "(1,20) Down: Feline\n\tCAT");
}
