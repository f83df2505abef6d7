use vstd::prelude::*;
use vstd::std_specs::iter::IteratorSpec;

use crate::board::{cells, col, height, holds_letter, in_bounds, is_rectangular, row, width, Board};
use crate::clue::Direction;
use crate::placement::{Grid, SquareValue};

verus! {

/// The squares of a word of `len` letters that starts at (x, y) lie inside
/// the board.
pub open spec fn fits(len: int, b: Board, x: int, y: int, direction: Direction) -> bool {
    &&& 0 <= x
    &&& 0 <= y
    &&& match direction {
        Direction::Across => x + len <= width(b) && (len > 0 ==> y < height(b)),
        Direction::Down => y + len <= height(b) && (len > 0 ==> x < width(b)),
    }
}

/// Neither the square just before the word's start nor the square just after
/// its end holds a letter.
pub open spec fn ends_clear(len: int, b: Board, x: int, y: int, direction: Direction) -> bool {
    &&& !holds_letter(b, col(x, direction, -1), row(y, direction, -1))
    &&& !holds_letter(b, col(x, direction, len), row(y, direction, len))
}

/// The word's `i`-th square already holds a letter.
pub open spec fn crosses_at(b: Board, x: int, y: int, direction: Direction, i: int) -> bool {
    holds_letter(b, col(x, direction, i), row(y, direction, i))
}

/// The board takes the word's `i`-th letter: its square is not reserved; if
/// it is empty, neither neighbour across the word's direction holds a letter;
/// if it holds a letter, that letter is the word's.
pub open spec fn accepts_at(
    word: Seq<char>,
    b: Board,
    x: int,
    y: int,
    direction: Direction,
    i: int,
) -> bool {
    let cx = col(x, direction, i);
    let cy = row(y, direction, i);
    let side = direction.turned();
    &&& in_bounds(b, cx, cy)
    &&& match b[cy][cx] {
        SquareValue::Black => false,
        SquareValue::Blank => {
            &&& !holds_letter(b, col(cx, side, -1), row(cy, side, -1))
            &&& !holds_letter(b, col(cx, side, 1), row(cy, side, 1))
        },
        SquareValue::Char(existing) => existing == word[i],
    }
}

/// The rule of placement: `word` may be written on `b` from (x, y) in the
/// given direction. It lies inside the board, does not abut a letter at
/// either end, every square takes its letter, and, unless it is the first
/// word, it crosses a letter that is already there.
pub open spec fn placeable(
    word: Seq<char>,
    b: Board,
    x: int,
    y: int,
    direction: Direction,
    first: bool,
) -> bool {
    &&& fits(word.len() as int, b, x, y, direction)
    &&& ends_clear(word.len() as int, b, x, y, direction)
    &&& forall|i: int| 0 <= i < word.len() ==> #[trigger] accepts_at(word, b, x, y, direction, i)
    &&& (first || exists|i: int| 0 <= i < word.len() && #[trigger] crosses_at(b, x, y, direction, i))
}

/// Whether (x, y) is a square of the grid that holds a letter.
pub fn is_letter(grid: &Grid, x: usize, y: usize) -> (letter: bool)
    ensures
        letter == holds_letter(cells(*grid), x as int, y as int),
{
    if y < grid.len() && x < grid[y].len() {
        match grid[y][x] {
            SquareValue::Char(_) => true,
            _ => false,
        }
    } else {
        false
    }
}

/// Checks if a word can be placed on the grid at a given position and
/// direction. `is_grid_empty` says that the word is the first to be placed,
/// which alone may stand without crossing a letter.
pub fn can_place(
    answer: &str,
    grid: &Grid,
    x: usize,
    y: usize,
    direction: &Direction,
    is_grid_empty: bool,
) -> (ok: bool)
    requires
        is_rectangular(cells(*grid)),
    ensures
        ok == placeable(answer@, cells(*grid), x as int, y as int, *direction, is_grid_empty),
{
    broadcast use vstd::string::group_string_axioms;

    let ghost b = cells(*grid);
    let word_len = answer.unicode_len();
    let grid_height = grid.len();
    let grid_width = grid[0].len();
    let across = direction.is_across();
    assert(grid_height == height(b) && grid_width == width(b));
    if across {
        if word_len > grid_width || x > grid_width - word_len {
            return false;
        }
        if word_len > 0 && y >= grid_height {
            return false;
        }
        if x > 0 && is_letter(grid, x - 1, y) {
            return false;
        }
        if is_letter(grid, x + word_len, y) {
            return false;
        }
    } else {
        if word_len > grid_height || y > grid_height - word_len {
            return false;
        }
        if word_len > 0 && x >= grid_width {
            return false;
        }
        if y > 0 && is_letter(grid, x, y - 1) {
            return false;
        }
        if is_letter(grid, x, y + word_len) {
            return false;
        }
    }

    let mut intersects = false;
    let mut letters = answer.chars();
    let mut i: usize = 0;
    loop
        invariant
            is_rectangular(b),
            b == cells(*grid),
            across == (*direction == Direction::Across),
            word_len == answer@.len(),
            grid_height == height(b),
            grid_width == width(b),
            fits(word_len as int, b, x as int, y as int, *direction),
            letters.obeys_prophetic_iter_laws(),
            i <= word_len,
            letters.remaining() == answer@.skip(i as int),
            forall|j: int| 0 <= j < i ==> #[trigger] accepts_at(answer@, b, x as int, y as int, *direction, j),
            intersects == exists|j: int| 0 <= j < i && #[trigger] crosses_at(b, x as int, y as int, *direction, j),
        ensures
            i == word_len,
            forall|j: int| 0 <= j < i ==> #[trigger] accepts_at(answer@, b, x as int, y as int, *direction, j),
            intersects == exists|j: int| 0 <= j < i && #[trigger] crosses_at(b, x as int, y as int, *direction, j),
        decreases word_len - i,
    {
        match letters.next() {
            None => {
                break;
            },
            Some(answer_char) => {
                assert(i < word_len) by {
                    assert(answer@.skip(i as int).len() > 0);
                }
                assert(answer_char == answer@[i as int]);
                assert(answer@.skip(i as int).drop_first() =~= answer@.skip(i as int + 1));
                let (curr_x, curr_y) = if across {
                    (x + i, y)
                } else {
                    (x, y + i)
                };
                assert(curr_x == col(x as int, *direction, i as int));
                assert(curr_y == row(y as int, *direction, i as int));
                assert(b[curr_y as int] == grid@[curr_y as int]@);
                match grid[curr_y][curr_x] {
                    SquareValue::Black => {
                        assert(!accepts_at(answer@, b, x as int, y as int, *direction, i as int));
                        return false;
                    },
                    SquareValue::Blank => {
                        let beside = if across {
                            (curr_y > 0 && is_letter(grid, curr_x, curr_y - 1)) || is_letter(
                                grid,
                                curr_x,
                                curr_y + 1,
                            )
                        } else {
                            (curr_x > 0 && is_letter(grid, curr_x - 1, curr_y)) || is_letter(
                                grid,
                                curr_x + 1,
                                curr_y,
                            )
                        };
                        if beside {
                            assert(!accepts_at(answer@, b, x as int, y as int, *direction, i as int));
                            return false;
                        }
                        assert(accepts_at(answer@, b, x as int, y as int, *direction, i as int));
                        assert(!crosses_at(b, x as int, y as int, *direction, i as int));
                    },
                    SquareValue::Char(existing_char) => {
                        if existing_char == answer_char {
                            intersects = true;
                            assert(crosses_at(b, x as int, y as int, *direction, i as int));
                        } else {
                            assert(!accepts_at(answer@, b, x as int, y as int, *direction, i as int));
                            return false;
                        }
                    },
                }
                i += 1;
            },
        }
    }
    is_grid_empty || intersects
}

} // verus!
