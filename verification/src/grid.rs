use vstd::prelude::*;
use vstd::std_specs::iter::IteratorSpec;
use vstd::string::StringExecFns;

use crate::board::{col, row};
use crate::clue::{Clue, Direction};
use crate::text::{char_string, decimal, decimal_string};

verus! {

/// The side of one square of the drawing, in units of the picture.
pub const SQUARE_SIZE: usize = 32;

/// The placed clues and the size of the grid they stand on, ready to draw.
pub struct Grid {
    pub clues: Vec<Clue>,
    pub width: usize,
    pub height: usize,
}

/// How far the clue reaches in the direction `along`, counted in squares
/// from the grid's edge: to the end of its answer along its own direction,
/// and one square past its start across it.
pub open spec fn reach(clue: Clue, along: Direction) -> int {
    let start = if along == Direction::Across {
        clue.x
    } else {
        clue.y
    };
    if clue.direction == along {
        start + clue.word().len()
    } else {
        start + 1
    }
}

/// `side` is the side, in the direction `along`, of the smallest box of at
/// least one square that holds every clue: no clue reaches further, and it
/// is one square or the reach of some clue.
pub open spec fn is_side(clues: Seq<Clue>, along: Direction, side: int) -> bool {
    &&& side >= 1
    &&& forall|i: int| 0 <= i < clues.len() ==> reach(#[trigger] clues[i], along) <= side
    &&& (side == 1 || exists|i: int| 0 <= i < clues.len() && reach(#[trigger] clues[i], along) == side)
}

/// The clue's reach can be counted on this machine: one past its start
/// across its direction, and its far end along it, fit in `usize`.
pub open spec fn is_countable(clue: Clue) -> bool {
    match clue.direction {
        Direction::Down => clue.x + 1 <= usize::MAX && clue.y + clue.word().len() <= usize::MAX,
        Direction::Across => clue.y + 1 <= usize::MAX && clue.x + clue.word().len() <= usize::MAX,
    }
}

/// Whether the reach of every clue can be counted, which `get_grid_size`
/// asks of the clues.
pub fn can_measure(clues: &Vec<Clue>) -> (ok: bool)
    ensures
        ok == forall|i: int| 0 <= i < clues.len() ==> is_countable(#[trigger] clues[i]),
{
    let mut i: usize = 0;
    while i < clues.len()
        invariant
            i <= clues.len(),
            forall|j: int| 0 <= j < i ==> is_countable(#[trigger] clues[j]),
        decreases clues.len() - i,
    {
        let clue = &clues[i];
        let len = clue.base.answer.as_str().unicode_len();
        let (along, beside) = match clue.direction {
            Direction::Down => (clue.y, clue.x),
            Direction::Across => (clue.x, clue.y),
        };
        if along.checked_add(len).is_none() || beside.checked_add(1).is_none() {
            assert(!is_countable(clues[i as int]));
            return false;
        }
        i += 1;
    }
    true
}

/// The width and the height of the smallest grid of at least one square
/// that holds every square of every clue.
pub fn get_grid_size(clues: &Vec<Clue>) -> (size: (usize, usize))
    requires
        forall|i: int| 0 <= i < clues.len() ==> is_countable(#[trigger] clues[i]),
    ensures
        is_side(clues@, Direction::Across, size.0 as int),
        is_side(clues@, Direction::Down, size.1 as int),
{
    let mut max_x: usize = 1;
    let mut max_y: usize = 1;
    let mut i: usize = 0;
    while i < clues.len()
        invariant
            i <= clues.len(),
            forall|j: int| 0 <= j < clues.len() ==> is_countable(#[trigger] clues[j]),
            is_side(clues@.take(i as int), Direction::Across, max_x as int),
            is_side(clues@.take(i as int), Direction::Down, max_y as int),
        decreases clues.len() - i,
    {
        let clue = &clues[i];
        assert(is_countable(clues[i as int]));
        let len = clue.base.answer.as_str().unicode_len();
        let ghost before = clues@.take(i as int);
        let ghost upto = clues@.take(i as int + 1);
        let ghost old_x = max_x as int;
        let ghost old_y = max_y as int;
        match clue.direction {
            Direction::Down => {
                let current_y_extent = clue.y + len;
                if current_y_extent > max_y {
                    max_y = current_y_extent;
                }
                if clue.x + 1 > max_x {
                    max_x = clue.x + 1;
                }
            },
            Direction::Across => {
                let current_x_extent = clue.x + len;
                if clue.y + 1 > max_y {
                    max_y = clue.y + 1;
                }
                if current_x_extent > max_x {
                    max_x = current_x_extent;
                }
            },
        }
        proof {
            assert(upto.drop_last() =~= before);
            assert(upto.last() == clues@[i as int]);
            lemma_side_grows(before, upto, Direction::Across, old_x, max_x as int);
            lemma_side_grows(before, upto, Direction::Down, old_y, max_y as int);
        }
        i += 1;
    }
    assert(clues@.take(clues@.len() as int) =~= clues@);
    (max_x, max_y)
}

/// Taking one more clue into the box: the side is the old side or the new
/// clue's reach, whichever is larger.
proof fn lemma_side_grows(before: Seq<Clue>, upto: Seq<Clue>, along: Direction, side: int, grown: int)
    requires
        upto.len() == before.len() + 1,
        before == upto.drop_last(),
        is_side(before, along, side),
        grown == if reach(upto.last(), along) > side {
            reach(upto.last(), along)
        } else {
            side
        },
    ensures
        is_side(upto, along, grown),
{
    let n = before.len() as int;
    assert forall|i: int| 0 <= i < upto.len() implies reach(#[trigger] upto[i], along) <= grown by {
        if i < n {
            assert(upto[i] == before[i]);
        }
    }
    if grown != 1 {
        if reach(upto.last(), along) > side {
            assert(reach(upto[n], along) == grown);
        } else {
            let w = choose|i: int| 0 <= i < before.len() && reach(#[trigger] before[i], along) == side;
            assert(upto[w] == before[w]);
            assert(reach(upto[w], along) == grown);
        }
    }
}

/// The class attribute of an element of the drawing, where it has one.
pub open spec fn class_attribute(class: Option<Seq<char>>) -> Seq<char> {
    match class {
        Some(name) => "class=\""@ + name + "\""@,
        None => Seq::<char>::empty(),
    }
}

/// The characters of an optional class name.
pub open spec fn class_name(class: Option<String>) -> Option<Seq<char>> {
    match class {
        Some(name) => Some(name@),
        None => None,
    }
}

/// A text element of the drawing at (x, y).
pub open spec fn text_element(text: Seq<char>, x: nat, y: nat, class: Option<Seq<char>>) -> Seq<
    char,
> {
    "<text x=\""@ + decimal(x) + "\" y=\""@ + decimal(y) + "\" "@ + class_attribute(class) + ">"@
        + text + "</text>"@
}

/// The outline of the square in column `x` and row `y`.
pub open spec fn square_element(x: nat, y: nat) -> Seq<char> {
    "<rect width=\""@ + decimal(SQUARE_SIZE as nat) + "\" height=\""@ + decimal(SQUARE_SIZE as nat)
        + "\" x=\""@ + decimal((x * SQUARE_SIZE) as nat) + "\" y=\""@ + decimal(
        (y * SQUARE_SIZE) as nat,
    )
        + "\" class=\"square\"></rect>"@
}

/// A letter in the middle of the square in column `x` and row `y`.
pub open spec fn letter_element(letter: char, x: nat, y: nat) -> Seq<char> {
    text_element(
        seq![letter],
        (x * SQUARE_SIZE + SQUARE_SIZE / 2) as nat,
        (y * SQUARE_SIZE + SQUARE_SIZE / 2 + 1) as nat,
        Some("answer"@),
    )
}

/// The clue's number in the corner of the square in column `x` and row `y`.
pub open spec fn number_element(number: nat, x: nat, y: nat) -> Seq<char> {
    text_element(
        decimal(number),
        (x * SQUARE_SIZE + 5) as nat,
        (y * SQUARE_SIZE + SQUARE_SIZE / 2 - 10) as nat,
        Some("number"@),
    )
}

/// The column of the clue's `i`-th square.
pub open spec fn letter_x(clue: Clue, i: int) -> nat {
    col(clue.x as int, clue.direction, i) as nat
}

/// The row of the clue's `i`-th square.
pub open spec fn letter_y(clue: Clue, i: int) -> nat {
    row(clue.y as int, clue.direction, i) as nat
}

/// The outlines of the clue's first `upto` squares, with the clue's number
/// behind the first.
pub open spec fn clue_squares_upto(clue: Clue, upto: int) -> Seq<char>
    decreases upto,
{
    if upto <= 0 {
        Seq::<char>::empty()
    } else {
        let i = upto - 1;
        clue_squares_upto(clue, i) + square_element(letter_x(clue, i), letter_y(clue, i)) + (if i
            == 0 {
            number_element(clue.number as nat, letter_x(clue, i), letter_y(clue, i))
        } else {
            Seq::<char>::empty()
        })
    }
}

/// The first `upto` letters of the clue's answer, each in its square.
pub open spec fn clue_letters_upto(clue: Clue, upto: int) -> Seq<char>
    decreases upto,
{
    if upto <= 0 {
        Seq::<char>::empty()
    } else {
        let i = upto - 1;
        clue_letters_upto(clue, i) + letter_element(
            clue.word()[i],
            letter_x(clue, i),
            letter_y(clue, i),
        )
    }
}

/// The squares of the first `upto` clues, one clue after another.
pub open spec fn all_squares_upto(clues: Seq<Clue>, upto: int) -> Seq<char>
    decreases upto,
{
    if upto <= 0 {
        Seq::<char>::empty()
    } else {
        all_squares_upto(clues, upto - 1) + clue_squares_upto(
            clues[upto - 1],
            clues[upto - 1].word().len() as int,
        )
    }
}

/// The letters of the first `upto` clues, one clue after another.
pub open spec fn all_letters_upto(clues: Seq<Clue>, upto: int) -> Seq<char>
    decreases upto,
{
    if upto <= 0 {
        Seq::<char>::empty()
    } else {
        all_letters_upto(clues, upto - 1) + clue_letters_upto(
            clues[upto - 1],
            clues[upto - 1].word().len() as int,
        )
    }
}

/// The group of all squares of the drawing.
pub open spec fn squares_group(clues: Seq<Clue>) -> Seq<char> {
    "<g id=\"grid\">"@ + all_squares_upto(clues, clues.len() as int) + "</g>"@
}

/// The group of all letters of the drawing.
pub open spec fn answers_group(clues: Seq<Clue>) -> Seq<char> {
    "<g id=\"answers\">"@ + all_letters_upto(clues, clues.len() as int) + "</g>"@
}

/// The whole drawing: the header with the picture's size, the styles, the
/// squares and the letters.
pub open spec fn drawing(clues: Seq<Clue>, width: nat, height: nat) -> Seq<char> {
    "<?xml version=\"1.0\" encoding=\"utf-8\"?><svg viewBox=\"0 0 "@ + decimal(
        (width * SQUARE_SIZE) as nat,
    ) + " "@ + decimal((height * SQUARE_SIZE) as nat)
        + "\" xmlns=\"http://www.w3.org/2000/svg\"><style>text{dominant-baseline:middle;}.square{fill:#FFFFFF;stroke:#000000;}.answer{ text-anchor:middle; font-family:Arial, Helvetica, sans-serif; font-weight:lighter;font-size:14px;}.number{font-size:8px;}</style>"@
        + squares_group(clues) + answers_group(clues) + "</svg>"@
}

/// The clue can be drawn on this machine: its last square, and so each of
/// its squares, lies within the coordinates that `usize` can hold.
pub open spec fn is_drawable(clue: Clue) -> bool {
    let last = clue.word().len() - 1;
    clue.word().len() > 0 ==> {
        &&& (letter_x(clue, last) + 1) * SQUARE_SIZE <= usize::MAX
        &&& (letter_y(clue, last) + 1) * SQUARE_SIZE <= usize::MAX
    }
}

/// Whether the square in column or row `at` lies within the coordinates
/// that `usize` can hold.
fn square_in_range(at: usize) -> (ok: bool)
    ensures
        ok == ((at + 1) * SQUARE_SIZE <= usize::MAX),
{
    match at.checked_add(1) {
        None => false,
        Some(next) => next.checked_mul(SQUARE_SIZE).is_some(),
    }
}

/// Whether the clue can be drawn.
fn can_draw(clue: &Clue) -> (ok: bool)
    ensures
        ok == is_drawable(*clue),
{
    let len = clue.base.answer.as_str().unicode_len();
    if len == 0 {
        return true;
    }
    let (along, beside) = match clue.direction {
        Direction::Down => (clue.y, clue.x),
        Direction::Across => (clue.x, clue.y),
    };
    match along.checked_add(len - 1) {
        None => false,
        Some(last) => square_in_range(last) && square_in_range(beside),
    }
}

/// Renders an SVG text element.
pub fn render_text(text: &str, x: usize, y: usize, class: Option<String>) -> (element: String)
    ensures
        element@ == text_element(text@, x as nat, y as nat, class_name(class)),
{
    let class_attr = match class {
        Some(class_name) => {
            String::from_str("class=\"").concat(class_name.as_str()).concat("\"")
        },
        None => String::new(),
    };
    let element = String::from_str("<text x=\"");
    let element = element.concat(decimal_string(x).as_str());
    let element = element.concat("\" y=\"");
    let element = element.concat(decimal_string(y).as_str());
    let element = element.concat("\" ");
    let element = element.concat(class_attr.as_str());
    let element = element.concat(">");
    let element = element.concat(text);
    element.concat("</text>")
}

/// Renders a single white square with a black stroke.
pub fn render_square(x: usize, y: usize) -> (element: String)
    requires
        x * SQUARE_SIZE <= usize::MAX,
        y * SQUARE_SIZE <= usize::MAX,
    ensures
        element@ == square_element(x as nat, y as nat),
{
    let x_root = x * SQUARE_SIZE;
    let y_root = y * SQUARE_SIZE;
    let element = String::from_str("<rect width=\"");
    let element = element.concat(decimal_string(SQUARE_SIZE).as_str());
    let element = element.concat("\" height=\"");
    let element = element.concat(decimal_string(SQUARE_SIZE).as_str());
    let element = element.concat("\" x=\"");
    let element = element.concat(decimal_string(x_root).as_str());
    let element = element.concat("\" y=\"");
    let element = element.concat(decimal_string(y_root).as_str());
    element.concat("\" class=\"square\"></rect>")
}

/// Renders one letter of an answer in the middle of its square.
pub fn render_square_answer(letter: char, x: usize, y: usize) -> (element: String)
    requires
        (x + 1) * SQUARE_SIZE <= usize::MAX,
        (y + 1) * SQUARE_SIZE <= usize::MAX,
    ensures
        element@ == letter_element(letter, x as nat, y as nat),
{
    let x_centre = x * SQUARE_SIZE + (SQUARE_SIZE / 2);
    let y_centre = y * SQUARE_SIZE + (SQUARE_SIZE / 2) + 1;
    render_text(char_string(letter).as_str(), x_centre, y_centre, Some(String::from_str("answer")))
}

/// Renders the SVG squares and clue number for a single clue.
pub fn render_clue_squares(clue: &Clue) -> (content: String)
    requires
        is_drawable(*clue),
    ensures
        content@ == clue_squares_upto(*clue, clue.word().len() as int),
{
    broadcast use vstd::string::group_string_axioms;

    let answer = clue.base.answer.as_str();
    let len = answer.unicode_len();
    let across = clue.direction.is_across();
    let mut content = String::new();
    let mut x = clue.x;
    let mut y = clue.y;
    let mut index: usize = 0;
    while index < len
        invariant
            is_drawable(*clue),
            len == clue.word().len(),
            across == (clue.direction == Direction::Across),
            index <= len,
            x == letter_x(*clue, index as int),
            y == letter_y(*clue, index as int),
            content@ == clue_squares_upto(*clue, index as int),
        decreases len - index,
    {
        assert((x + 1) * SQUARE_SIZE <= usize::MAX && (y + 1) * SQUARE_SIZE <= usize::MAX);
        content = content.concat(render_square(x, y).as_str());
        // Only add the clue number for the first square.
        if index == 0 {
            content = content.concat(
                render_text(
                    decimal_string(clue.number).as_str(),
                    x * SQUARE_SIZE + 5,
                    y * SQUARE_SIZE + (SQUARE_SIZE / 2) - 10,
                    Some(String::from_str("number")),
                ).as_str(),
            );
        }
        assert(content@ =~= clue_squares_upto(*clue, index as int + 1));
        if across {
            x += 1;
        } else {
            y += 1;
        }
        index += 1;
    }
    content
}

/// Renders the SVG text for the letters of a single clue's answer.
pub fn render_answer(clue: &Clue) -> (content: String)
    requires
        is_drawable(*clue),
    ensures
        content@ == clue_letters_upto(*clue, clue.word().len() as int),
{
    broadcast use vstd::string::group_string_axioms;

    let answer = clue.base.answer.as_str();
    let len = answer.unicode_len();
    let across = clue.direction.is_across();
    let mut content = String::new();
    let mut x = clue.x;
    let mut y = clue.y;
    let mut letters = answer.chars();
    let mut index: usize = 0;
    loop
        invariant
            is_drawable(*clue),
            answer@ == clue.word(),
            len == clue.word().len(),
            across == (clue.direction == Direction::Across),
            index <= len,
            letters.obeys_prophetic_iter_laws(),
            letters.remaining() == answer@.skip(index as int),
            x == letter_x(*clue, index as int),
            y == letter_y(*clue, index as int),
            content@ == clue_letters_upto(*clue, index as int),
        ensures
            content@ == clue_letters_upto(*clue, clue.word().len() as int),
        decreases len - index,
    {
        match letters.next() {
            None => {
                assert(index == len) by {
                    assert(answer@.skip(index as int).len() == 0);
                }
                break;
            },
            Some(letter) => {
                assert(index < len) by {
                    assert(answer@.skip(index as int).len() > 0);
                }
                assert(letter == answer@[index as int]);
                assert(answer@.skip(index as int).drop_first() =~= answer@.skip(index as int + 1));
                assert((x + 1) * SQUARE_SIZE <= usize::MAX && (y + 1) * SQUARE_SIZE <= usize::MAX);
                content = content.concat(render_square_answer(letter, x, y).as_str());
                if across {
                    x += 1;
                } else {
                    y += 1;
                }
                index += 1;
            },
        }
    }
    content
}

/// Renders the SVG group for the squares of the grid.
pub fn render_squares(clues: &[Clue]) -> (group: String)
    requires
        forall|i: int| 0 <= i < clues.len() ==> is_drawable(#[trigger] clues[i]),
    ensures
        group@ == squares_group(clues@),
{
    let mut content = String::new();
    let mut i: usize = 0;
    while i < clues.len()
        invariant
            i <= clues.len(),
            forall|j: int| 0 <= j < clues.len() ==> is_drawable(#[trigger] clues[j]),
            content@ == all_squares_upto(clues@, i as int),
        decreases clues.len() - i,
    {
        content = content.concat(render_clue_squares(&clues[i]).as_str());
        i += 1;
    }
    String::from_str("<g id=\"grid\">").concat(content.as_str()).concat("</g>")
}

/// Renders the SVG group for the letters (answers) on the grid.
pub fn render_answers(clues: &[Clue]) -> (group: String)
    requires
        forall|i: int| 0 <= i < clues.len() ==> is_drawable(#[trigger] clues[i]),
    ensures
        group@ == answers_group(clues@),
{
    let mut content = String::new();
    let mut i: usize = 0;
    while i < clues.len()
        invariant
            i <= clues.len(),
            forall|j: int| 0 <= j < clues.len() ==> is_drawable(#[trigger] clues[j]),
            content@ == all_letters_upto(clues@, i as int),
        decreases clues.len() - i,
    {
        content = content.concat(render_answer(&clues[i]).as_str());
        i += 1;
    }
    String::from_str("<g id=\"answers\">").concat(content.as_str()).concat("</g>")
}

impl Grid {
    /// The grid can be drawn on this machine: the picture's size and the
    /// coordinates of every clue's squares fit in `usize`.
    pub open spec fn is_drawable(self) -> bool {
        &&& self.width * SQUARE_SIZE <= usize::MAX
        &&& self.height * SQUARE_SIZE <= usize::MAX
        &&& forall|i: int| 0 <= i < self.clues.len() ==> is_drawable(#[trigger] self.clues[i])
    }

    /// Whether the grid can be drawn, which `render` asks of it.
    pub fn can_render(&self) -> (ok: bool)
        ensures
            ok == self.is_drawable(),
    {
        if self.width.checked_mul(SQUARE_SIZE).is_none() || self.height.checked_mul(
            SQUARE_SIZE,
        ).is_none() {
            return false;
        }
        let mut i: usize = 0;
        while i < self.clues.len()
            invariant
                i <= self.clues.len(),
                forall|j: int| 0 <= j < i ==> is_drawable(#[trigger] self.clues[j]),
            decreases self.clues.len() - i,
        {
            if !can_draw(&self.clues[i]) {
                return false;
            }
            i += 1;
        }
        true
    }

    /// Draws the grid as an SVG document.
    pub fn render(&self) -> (document: String)
        requires
            self.is_drawable(),
        ensures
            document@ == drawing(self.clues@, self.width as nat, self.height as nat),
    {
        let viewbox_width: usize = self.width * SQUARE_SIZE;
        let viewbox_height: usize = self.height * SQUARE_SIZE;
        let rendered_squares = render_squares(self.clues.as_slice());
        let rendered_answers = render_answers(self.clues.as_slice());
        let document = String::from_str(
            "<?xml version=\"1.0\" encoding=\"utf-8\"?><svg viewBox=\"0 0 ",
        );
        let document = document.concat(decimal_string(viewbox_width).as_str());
        let document = document.concat(" ");
        let document = document.concat(decimal_string(viewbox_height).as_str());
        let document = document.concat(
            "\" xmlns=\"http://www.w3.org/2000/svg\"><style>text{dominant-baseline:middle;}.square{fill:#FFFFFF;stroke:#000000;}.answer{ text-anchor:middle; font-family:Arial, Helvetica, sans-serif; font-weight:lighter;font-size:14px;}.number{font-size:8px;}</style>",
        );
        let document = document.concat(rendered_squares.as_str());
        let document = document.concat(rendered_answers.as_str());
        document.concat("</svg>")
    }
}

} // verus!
