use crossword_layout::clue::{Clue, Direction};
use crossword_layout::clue_numbering::assign_clue_numbers;
use crossword_layout::placement::{blank_grid, write_word_to_grid, BaseClue, SquareValue};

fn placed(x: usize, y: usize, direction: Direction, answer: &str) -> Clue {
    Clue {
        x,
        y,
        direction,
        base: BaseClue { clue: format!("clue for {}", answer), answer: answer.into() },
        number: 0,
    }
}

fn numbers(clues: &Vec<Clue>) -> Vec<(String, usize)> {
    clues.iter().map(|c| (c.base.answer.clone(), c.number)).collect()
}

#[test]
fn clues_are_numbered_along_the_scan_and_put_in_that_order() {
    let grid = write_word_to_grid(&blank_grid(5), "CAT", 0, 0, &Direction::Across);
    let grid = write_word_to_grid(&grid, "TEA", 2, 0, &Direction::Down);
    let grid = write_word_to_grid(&grid, "ARM", 2, 2, &Direction::Across);
    let mut clues = vec![
        placed(2, 2, Direction::Across, "ARM"),
        placed(2, 0, Direction::Down, "TEA"),
        placed(0, 0, Direction::Across, "CAT"),
    ];
    assign_clue_numbers(&grid, &mut clues);
    assert_eq!(
        numbers(&clues),
        vec![(String::from("CAT"), 1), (String::from("TEA"), 2), (String::from("ARM"), 3)]
    );
}

#[test]
fn square_that_starts_two_words_has_one_number() {
    let grid = write_word_to_grid(&blank_grid(3), "CAT", 0, 0, &Direction::Across);
    let grid = write_word_to_grid(&grid, "CAR", 0, 0, &Direction::Down);
    let mut clues = vec![placed(0, 0, Direction::Down, "CAR"), placed(0, 0, Direction::Across, "CAT")];
    assign_clue_numbers(&grid, &mut clues);
    assert_eq!(numbers(&clues), vec![(String::from("CAR"), 1), (String::from("CAT"), 1)]);
}

#[test]
fn numbers_count_up_row_by_row() {
    // Row 0: ON from (0, 0), AT from (3, 0), and TO down from (4, 0).
    // Row 3: IS from (1, 3).
    let grid = write_word_to_grid(&blank_grid(6), "ON", 0, 0, &Direction::Across);
    let grid = write_word_to_grid(&grid, "AT", 3, 0, &Direction::Across);
    let grid = write_word_to_grid(&grid, "TO", 4, 0, &Direction::Down);
    let grid = write_word_to_grid(&grid, "IS", 1, 3, &Direction::Across);
    let mut clues = vec![
        placed(1, 3, Direction::Across, "IS"),
        placed(4, 0, Direction::Down, "TO"),
        placed(3, 0, Direction::Across, "AT"),
        placed(0, 0, Direction::Across, "ON"),
    ];
    assign_clue_numbers(&grid, &mut clues);
    assert_eq!(
        numbers(&clues),
        vec![
            (String::from("ON"), 1),
            (String::from("AT"), 2),
            (String::from("TO"), 3),
            (String::from("IS"), 4)
        ]
    );
    let given: Vec<usize> = clues.iter().map(|c| c.number).collect();
    assert!(given.windows(2).all(|w| w[0] < w[1]));
}

#[test]
fn single_letter_gets_no_number() {
    let grid = write_word_to_grid(&blank_grid(3), "A", 1, 1, &Direction::Across);
    let mut clues = vec![placed(1, 1, Direction::Across, "A")];
    assign_clue_numbers(&grid, &mut clues);
    assert_eq!(clues[0].number, 0);
}

#[test]
fn run_needs_an_edge_or_a_reserved_square_before_it() {
    // Letters put by hand: an empty square, not a reserved one, before the run.
    let mut grid = blank_grid(4);
    grid[1][1] = SquareValue::Char('A');
    grid[1][2] = SquareValue::Char('B');
    let mut clues = vec![placed(1, 1, Direction::Across, "AB")];
    assign_clue_numbers(&grid, &mut clues);
    assert_eq!(clues[0].number, 0);
    grid[1][0] = SquareValue::Black;
    assign_clue_numbers(&grid, &mut clues);
    assert_eq!(clues[0].number, 1);
}

#[test]
fn clues_with_one_number_keep_their_order() {
    let grid = blank_grid(3);
    let mut clues = vec![
        placed(2, 2, Direction::Across, "C"),
        placed(0, 0, Direction::Across, "A"),
        placed(1, 1, Direction::Down, "B"),
    ];
    assign_clue_numbers(&grid, &mut clues);
    assert_eq!(
        numbers(&clues),
        vec![(String::from("C"), 0), (String::from("A"), 0), (String::from("B"), 0)]
    );
}

#[test]
fn numbering_keeps_place_direction_and_texts() {
    let grid = write_word_to_grid(&blank_grid(3), "CAT", 0, 1, &Direction::Across);
    let mut clues = vec![placed(0, 1, Direction::Across, "CAT")];
    clues[0].number = 9;
    assign_clue_numbers(&grid, &mut clues);
    let mut expected = placed(0, 1, Direction::Across, "CAT");
    expected.number = 1;
    assert_eq!(clues, vec![expected]);
}
