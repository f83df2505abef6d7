use crossword_layout::can_place::can_place;
use crossword_layout::clue::{Clue, Direction};
use crossword_layout::clue_sorting::sort;
use crossword_layout::placement::{
    blank_grid, can_place_clues, place_clues, place_word, resolve, split_line, write_word_to_grid,
    BaseClue, Grid,
    SquareValue, UnsolvableLayout,
};

fn lines(texts: &[&str]) -> Vec<String> {
    texts.iter().map(|t| t.to_string()).collect()
}

fn pair(clue: &str, answer: &str) -> BaseClue {
    BaseClue { clue: clue.into(), answer: answer.into() }
}

fn solved(pairs: Vec<BaseClue>) -> (Vec<BaseClue>, Grid, Vec<Clue>) {
    let sorted = sort(pairs);
    match resolve(&sorted) {
        Ok((grid, placed)) => (sorted, grid, placed),
        Err(failure) => panic!("no layout: {}", failure.message()),
    }
}

fn square(clue: &Clue, i: usize) -> (usize, usize) {
    match clue.direction {
        Direction::Across => (clue.x + i, clue.y),
        Direction::Down => (clue.x, clue.y + i),
    }
}

fn squares(clue: &Clue) -> Vec<(usize, usize)> {
    (0..clue.base.answer.chars().count()).map(|i| square(clue, i)).collect()
}

fn holds_letter(grid: &Grid, x: i64, y: i64) -> bool {
    x >= 0
        && y >= 0
        && (y as usize) < grid.len()
        && (x as usize) < grid[y as usize].len()
        && matches!(grid[y as usize][x as usize], SquareValue::Char(_))
}

#[test]
fn cat_and_car_cross_at_their_first_letter() {
    let clues = place_clues(lines(&["Clue1;CAT", "Clue2;CAR"])).unwrap();
    let expected = vec![
        Clue { x: 0, y: 0, direction: Direction::Across, base: pair("Clue1", "CAT"), number: 1 },
        Clue { x: 0, y: 0, direction: Direction::Down, base: pair("Clue2", "CAR"), number: 1 },
    ];
    assert_eq!(clues, expected);
}

#[test]
fn words_without_a_common_letter_cannot_be_placed() {
    let outcome = place_clues(lines(&["Clue1;AB", "Clue2;CD"]));
    assert_eq!(
        outcome,
        Err(String::from("Failed to place the 2 clues. The longest word was AB."))
    );
}

#[test]
fn unsolvable_layout_carries_count_and_longest_answer() {
    let sorted = sort(vec![pair("Clue2", "CD"), pair("Clue1", "ABE"), pair("Clue3", "FG")]);
    match resolve(&sorted) {
        Ok(_) => panic!("a layout was found"),
        Err(failure) => {
            assert_eq!(failure.clue_count, 3);
            assert_eq!(failure.longest_answer, "ABE");
            assert_eq!(
                failure.message(),
                "Failed to place the 3 clues. The longest word was ABE."
            );
        },
    }
}

#[test]
fn failure_message_writes_the_count_in_decimal() {
    let failure = UnsolvableLayout { clue_count: 120, longest_answer: String::from("X") };
    assert_eq!(failure.message(), "Failed to place the 120 clues. The longest word was X.");
}

#[test]
fn single_word_goes_in_the_corner_of_the_smallest_grid() {
    let clues = place_clues(lines(&["Clue1;WORD"])).unwrap();
    assert_eq!(
        clues,
        vec![Clue {
            x: 0,
            y: 0,
            direction: Direction::Across,
            base: pair("Clue1", "WORD"),
            number: 1,
        }]
    );
    let (_, grid, placed) = solved(vec![pair("Clue1", "WORD")]);
    assert_eq!(grid.len(), 4);
    assert!(grid.iter().all(|grid_row| grid_row.len() == 4));
    assert_eq!(placed.len(), 1);
    assert_eq!(placed[0].number, 0);
    assert_eq!(
        grid[0],
        vec![
            SquareValue::Char('W'),
            SquareValue::Char('O'),
            SquareValue::Char('R'),
            SquareValue::Char('D')
        ]
    );
}

#[test]
fn longer_answer_is_placed_first() {
    let clues = place_clues(lines(&["short;AT", "long;CAT"])).unwrap();
    let expected = vec![
        Clue { x: 0, y: 0, direction: Direction::Across, base: pair("long", "CAT"), number: 1 },
        Clue { x: 1, y: 0, direction: Direction::Down, base: pair("short", "AT"), number: 2 },
    ];
    assert_eq!(clues, expected);
}

#[test]
fn search_takes_back_a_word_that_leads_nowhere() {
    // ABCA goes in the top row. AX goes down from the first A at once, but
    // then BX, which must go down from the B, would lie flush beside it. So
    // AX is taken back and goes down from the last A.
    let clues = place_clues(lines(&["1;ABCA", "2;AX", "3;BX"])).unwrap();
    let expected = vec![
        Clue { x: 0, y: 0, direction: Direction::Across, base: pair("1", "ABCA"), number: 1 },
        Clue { x: 1, y: 0, direction: Direction::Down, base: pair("3", "BX"), number: 2 },
        Clue { x: 3, y: 0, direction: Direction::Down, base: pair("2", "AX"), number: 3 },
    ];
    assert_eq!(clues, expected);
    let (_, grid, placed) = solved(vec![pair("1", "ABCA"), pair("2", "AX"), pair("3", "BX")]);
    assert_eq!(grid.len(), 4);
    let spots: Vec<(usize, usize)> = placed.iter().map(|c| (c.x, c.y)).collect();
    assert_eq!(spots, vec![(0, 0), (3, 0), (1, 0)]);
}

#[test]
fn grid_grows_until_the_words_fit() {
    // TOP starts at the T of CAT and PIT at the P of TOP, so the three words
    // need five squares one way; sizes 3 and 4 have no layout.
    let (sorted, grid, placed) = solved(vec![pair("1", "CAT"), pair("2", "TOP"), pair("3", "PIT")]);
    assert_eq!(sorted.len(), 3);
    assert_eq!(grid.len(), 5);
    let spots: Vec<(usize, usize, Direction)> =
        placed.into_iter().map(|c| (c.x, c.y, c.direction)).collect();
    assert_eq!(
        spots,
        vec![(0, 0, Direction::Across), (2, 0, Direction::Down), (2, 2, Direction::Across)]
    );
}

#[test]
fn same_lines_give_the_same_layout() {
    let texts = ["a;HELLO", "b;WORLD", "c;LOW", "d;OWL"];
    let first = place_clues(lines(&texts));
    let second = place_clues(lines(&texts));
    assert!(first.is_ok());
    assert_eq!(first, second);
}

#[test]
fn first_size_tried_is_the_longest_answer() {
    let (sorted, grid, _) = solved(vec![pair("b", "LOW"), pair("a", "HELLO"), pair("c", "WORLD")]);
    let longest = sorted[0].answer.chars().count();
    assert_eq!(longest, 5);
    assert!(grid.len() >= longest);
    assert!(grid.len() < 3 * longest);
    // No smaller size of the range has a layout.
    for size in longest..grid.len() {
        let mut placed = Vec::new();
        assert_eq!(place_word(0, blank_grid(size), &sorted, &mut placed), Err(false));
        assert!(placed.is_empty());
    }
}

#[test]
fn no_clues_left_is_success_at_once() {
    let sorted = vec![pair("a", "CAT")];
    let start = write_word_to_grid(&blank_grid(3), "CAT", 0, 0, &Direction::Across);
    let mut placed = Vec::new();
    assert_eq!(place_word(1, start.clone(), &sorted, &mut placed), Ok(start));
    assert!(placed.is_empty());
}

#[test]
fn failed_search_leaves_the_placed_clues_as_they_were() {
    let sorted = vec![pair("a", "AB"), pair("b", "CD")];
    let kept = Clue { x: 7, y: 7, direction: Direction::Down, base: pair("k", "KEPT"), number: 3 };
    let mut placed = vec![Clue {
        x: 7,
        y: 7,
        direction: Direction::Down,
        base: pair("k", "KEPT"),
        number: 3,
    }];
    assert_eq!(place_word(0, blank_grid(4), &sorted, &mut placed), Err(false));
    assert_eq!(placed, vec![kept]);
}

#[test]
fn placed_words_can_be_read_back_from_the_grid() {
    let (sorted, grid, placed) =
        solved(vec![pair("a", "HELLO"), pair("b", "WORLD"), pair("c", "LOW"), pair("d", "OWL")]);
    assert_eq!(placed.len(), sorted.len());
    for (clue, base) in placed.iter().zip(sorted.iter()) {
        assert_eq!(&clue.base, base);
        for (i, letter) in clue.base.answer.chars().enumerate() {
            let (x, y) = square(clue, i);
            assert_eq!(grid[y][x], SquareValue::Char(letter));
        }
    }
}

#[test]
fn overlapping_words_agree_on_their_letters() {
    let (_, _, placed) =
        solved(vec![pair("a", "HELLO"), pair("b", "WORLD"), pair("c", "LOW"), pair("d", "OWL")]);
    for one in &placed {
        for other in &placed {
            for (i, a) in one.base.answer.chars().enumerate() {
                for (j, b) in other.base.answer.chars().enumerate() {
                    if square(one, i) == square(other, j) {
                        assert_eq!(a, b);
                    }
                }
            }
        }
    }
}

#[test]
fn every_word_but_the_first_touches_an_earlier_word() {
    let (_, _, placed) =
        solved(vec![pair("a", "HELLO"), pair("b", "WORLD"), pair("c", "LOW"), pair("d", "OWL")]);
    for k in 1..placed.len() {
        let mine = squares(&placed[k]);
        let shared = placed[..k].iter().any(|earlier| squares(earlier).iter().any(|s| mine.contains(s)));
        assert!(shared, "word {} stands alone", k);
    }
}

#[test]
fn no_letter_lies_flush_beside_a_word() {
    let (_, grid, placed) =
        solved(vec![pair("a", "HELLO"), pair("b", "WORLD"), pair("c", "LOW"), pair("d", "OWL")]);
    for clue in &placed {
        for (x, y) in squares(clue) {
            let sides = match clue.direction {
                Direction::Across => [(x as i64, y as i64 - 1), (x as i64, y as i64 + 1)],
                Direction::Down => [(x as i64 - 1, y as i64), (x as i64 + 1, y as i64)],
            };
            for (nx, ny) in sides {
                if holds_letter(&grid, nx, ny) {
                    let crossed = placed.iter().any(|other| {
                        other.direction != clue.direction
                            && squares(other).contains(&(x, y))
                            && squares(other).contains(&(nx as usize, ny as usize))
                    });
                    assert!(crossed, "letter beside ({}, {}) without a crossing", x, y);
                }
            }
        }
    }
}

#[test]
fn each_word_was_accepted_by_the_grid_before_it() {
    let (sorted, found, placed) =
        solved(vec![pair("a", "HELLO"), pair("b", "WORLD"), pair("c", "LOW"), pair("d", "OWL")]);
    let mut grid = blank_grid(found.len());
    for (k, clue) in placed.iter().enumerate() {
        assert!(can_place(&sorted[k].answer, &grid, clue.x, clue.y, &clue.direction, k == 0));
        grid = write_word_to_grid(&grid, &sorted[k].answer, clue.x, clue.y, &clue.direction);
    }
    assert_eq!(grid, found);
}

#[test]
fn duplicate_clues_are_placed_one_on_the_other() {
    let clues = place_clues(lines(&["one;CAT", "two;CAT"])).unwrap();
    let expected = vec![
        Clue { x: 0, y: 0, direction: Direction::Across, base: pair("one", "CAT"), number: 1 },
        Clue { x: 0, y: 0, direction: Direction::Across, base: pair("two", "CAT"), number: 1 },
    ];
    assert_eq!(clues, expected);
}

#[test]
fn line_is_split_at_its_first_two_semicolons() {
    assert_eq!(split_line("clue;ANSWER"), pair("clue", "ANSWER"));
    assert_eq!(split_line(";"), pair("", ""));
    assert_eq!(split_line("a;b;c;d"), pair("a", "b"));
    assert_eq!(split_line("two words;X"), pair("two words", "X"));
    assert_eq!(split_line("caf\u{e9};\u{e9}t\u{e9};x"), pair("caf\u{e9}", "\u{e9}t\u{e9}"));
}

#[test]
fn empty_answer_cannot_be_placed() {
    let outcome = place_clues(lines(&["nothing;"]));
    assert_eq!(
        outcome,
        Err(String::from("Failed to place the 1 clues. The longest word was ."))
    );
}

#[test]
fn lines_need_a_clue_and_an_answer_each() {
    assert!(can_place_clues(&lines(&["Clue1;CAT", "Clue2;CAR"])));
    assert!(can_place_clues(&lines(&[";"])));
    assert!(can_place_clues(&lines(&["a;b;c"])));
    assert!(!can_place_clues(&lines(&[])));
    assert!(!can_place_clues(&lines(&["Clue1;CAT", "no answer here"])));
    assert!(!can_place_clues(&lines(&[""])));
}

#[test]
fn returned_clues_hang_together_and_follow_the_scan() {
    let texts = ["a;HELLO", "b;WORLD", "c;LOW", "d;OWL"];
    let clues = place_clues(lines(&texts)).unwrap();
    assert_eq!(clues.len(), 4);
    // Every clue is reached from the first through clues that share a square.
    let mut reached = vec![0usize];
    let mut grown = true;
    while grown {
        grown = false;
        for (q, clue) in clues.iter().enumerate() {
            if reached.contains(&q) {
                continue;
            }
            let mine = squares(clue);
            if reached.iter().any(|r| squares(&clues[*r]).iter().any(|s| mine.contains(s))) {
                reached.push(q);
                grown = true;
            }
        }
    }
    assert_eq!(reached.len(), clues.len());
    // Numbers start at 1, ascend, and order the clues by start square.
    for pair in clues.windows(2) {
        assert!(pair[0].number <= pair[1].number);
    }
    for one in &clues {
        assert!(one.number >= 1);
        for other in &clues {
            assert_eq!(one.number < other.number, (one.y, one.x) < (other.y, other.x));
            assert_eq!(one.number == other.number, (one.x, one.y) == (other.x, other.y));
        }
        // The longest answer has 5 letters: all squares lie below 3 x 5 - 1.
        for (x, y) in squares(one) {
            assert!(x < 14 && y < 14);
        }
    }
}
