use crossword_layout::clue::{Clue, Direction};
use crossword_layout::grid::{
    render_answer, render_answers, render_clue_squares, render_square, render_square_answer,
    render_squares, render_text, Grid, SQUARE_SIZE,
};
use crossword_layout::placement::BaseClue;

fn placed(x: usize, y: usize, direction: Direction, answer: &str, number: usize) -> Clue {
    Clue {
        x,
        y,
        direction,
        base: BaseClue { clue: String::from("Clue"), answer: String::from(answer) },
        number,
    }
}

#[test]
fn square_is_thirty_two_units_wide() {
    assert_eq!(SQUARE_SIZE, 32);
    assert_eq!(
        render_square(0, 0),
        "<rect width=\"32\" height=\"32\" x=\"0\" y=\"0\" class=\"square\"></rect>"
    );
    assert_eq!(
        render_square(1, 2),
        "<rect width=\"32\" height=\"32\" x=\"32\" y=\"64\" class=\"square\"></rect>"
    );
}

#[test]
fn text_element_has_its_class_where_one_is_given() {
    assert_eq!(
        render_text("A", 16, 17, Some(String::from("answer"))),
        "<text x=\"16\" y=\"17\" class=\"answer\">A</text>"
    );
    assert_eq!(render_text("t", 1, 2, None), "<text x=\"1\" y=\"2\" >t</text>");
}

#[test]
fn letter_stands_in_the_middle_of_its_square() {
    assert_eq!(
        render_square_answer('Q', 0, 0),
        "<text x=\"16\" y=\"17\" class=\"answer\">Q</text>"
    );
    assert_eq!(
        render_square_answer('Z', 2, 3),
        "<text x=\"80\" y=\"113\" class=\"answer\">Z</text>"
    );
}

#[test]
fn clue_squares_run_along_the_direction_with_the_number_first() {
    assert_eq!(
        render_clue_squares(&placed(1, 0, Direction::Across, "AB", 7)),
        format!(
            "{}{}{}",
            "<rect width=\"32\" height=\"32\" x=\"32\" y=\"0\" class=\"square\"></rect>",
            "<text x=\"37\" y=\"6\" class=\"number\">7</text>",
            "<rect width=\"32\" height=\"32\" x=\"64\" y=\"0\" class=\"square\"></rect>"
        )
    );
    assert_eq!(
        render_clue_squares(&placed(0, 1, Direction::Down, "AB", 12)),
        format!(
            "{}{}{}",
            "<rect width=\"32\" height=\"32\" x=\"0\" y=\"32\" class=\"square\"></rect>",
            "<text x=\"5\" y=\"38\" class=\"number\">12</text>",
            "<rect width=\"32\" height=\"32\" x=\"0\" y=\"64\" class=\"square\"></rect>"
        )
    );
    assert_eq!(render_clue_squares(&placed(0, 0, Direction::Down, "", 1)), "");
}

#[test]
fn answer_letters_run_along_the_direction() {
    assert_eq!(
        render_answer(&placed(0, 0, Direction::Across, "AB", 1)),
        format!(
            "{}{}",
            "<text x=\"16\" y=\"17\" class=\"answer\">A</text>",
            "<text x=\"48\" y=\"17\" class=\"answer\">B</text>"
        )
    );
    assert_eq!(
        render_answer(&placed(1, 1, Direction::Down, "\u{e9}Z", 1)),
        format!(
            "{}{}",
            "<text x=\"48\" y=\"49\" class=\"answer\">\u{e9}</text>",
            "<text x=\"48\" y=\"81\" class=\"answer\">Z</text>"
        )
    );
}

#[test]
fn groups_hold_the_clues_in_order() {
    let clues =
        vec![placed(0, 0, Direction::Across, "AB", 1), placed(0, 0, Direction::Down, "AC", 1)];
    assert_eq!(
        render_squares(&clues),
        format!(
            "<g id=\"grid\">{}{}</g>",
            render_clue_squares(&clues[0]),
            render_clue_squares(&clues[1])
        )
    );
    assert_eq!(
        render_answers(&clues),
        format!("<g id=\"answers\">{}{}</g>", render_answer(&clues[0]), render_answer(&clues[1]))
    );
    assert_eq!(render_squares(&vec![]), "<g id=\"grid\"></g>");
    assert_eq!(render_answers(&vec![]), "<g id=\"answers\"></g>");
}

#[test]
fn drawing_is_a_whole_svg_document() {
    let grid = Grid { clues: vec![placed(0, 0, Direction::Across, "AB", 1)], width: 2, height: 1 };
    let expected = format!(
        "{}{}{}{}{}{}{}{}{}",
        "<?xml version=\"1.0\" encoding=\"utf-8\"?><svg viewBox=\"0 0 64 32\" xmlns=\"http://www.w3.org/2000/svg\">",
        "<style>text{dominant-baseline:middle;}.square{fill:#FFFFFF;stroke:#000000;}.answer{ text-anchor:middle; font-family:Arial, Helvetica, sans-serif; font-weight:lighter;font-size:14px;}.number{font-size:8px;}</style>",
        "<g id=\"grid\"><rect width=\"32\" height=\"32\" x=\"0\" y=\"0\" class=\"square\"></rect>",
        "<text x=\"5\" y=\"6\" class=\"number\">1</text>",
        "<rect width=\"32\" height=\"32\" x=\"32\" y=\"0\" class=\"square\"></rect></g>",
        "<g id=\"answers\"><text x=\"16\" y=\"17\" class=\"answer\">A</text>",
        "<text x=\"48\" y=\"17\" class=\"answer\">B</text></g>",
        "</svg>",
        ""
    );
    assert_eq!(grid.render(), expected);
}

#[test]
fn grid_must_fit_the_coordinates_to_be_drawn() {
    let small = Grid { clues: vec![placed(0, 0, Direction::Across, "AB", 1)], width: 2, height: 1 };
    assert!(small.can_render());
    let wide = Grid { clues: vec![], width: usize::MAX / 32 + 1, height: 1 };
    assert!(!wide.can_render());
    let high = Grid { clues: vec![], width: 1, height: usize::MAX / 32 + 1 };
    assert!(!high.can_render());
    let edge = usize::MAX / 32 - 1;
    let at_edge =
        Grid { clues: vec![placed(edge - 1, edge, Direction::Across, "AB", 1)], width: 1, height: 1 };
    assert!(at_edge.can_render());
    let past_edge =
        Grid { clues: vec![placed(edge, 0, Direction::Across, "AB", 1)], width: 1, height: 1 };
    assert!(!past_edge.can_render());
    let far_down =
        Grid { clues: vec![placed(0, edge, Direction::Down, "AB", 1)], width: 1, height: 1 };
    assert!(!far_down.can_render());
    let nothing_to_draw =
        Grid { clues: vec![placed(usize::MAX, usize::MAX, Direction::Down, "", 1)], width: 1, height: 1 };
    assert!(nothing_to_draw.can_render());
}
