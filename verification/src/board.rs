use vstd::prelude::*;

use crate::clue::Direction;
use crate::placement::{Grid, SquareValue};

verus! {

/// The grid as a mathematical value: a sequence of rows of squares.
pub type Board = Seq<Seq<SquareValue>>;

/// The board that a grid stands for.
pub open spec fn cells(grid: Grid) -> Board {
    Seq::new(grid@.len(), |y: int| grid@[y]@)
}

/// A board has at least one row, and all its rows are as long as the first.
pub open spec fn is_rectangular(b: Board) -> bool {
    &&& b.len() > 0
    &&& forall|y: int| 0 <= y < b.len() ==> (#[trigger] b[y]).len() == b[0].len()
}

/// The number of rows.
pub open spec fn height(b: Board) -> int {
    b.len() as int
}

/// The number of columns (the length of the first row).
pub open spec fn width(b: Board) -> int {
    if b.len() > 0 {
        b[0].len() as int
    } else {
        0
    }
}

/// (x, y) names a square of the board.
pub open spec fn in_bounds(b: Board, x: int, y: int) -> bool {
    0 <= y < b.len() && 0 <= x < b[y].len()
}

/// (x, y) names a square of the board and that square holds a letter.
pub open spec fn holds_letter(b: Board, x: int, y: int) -> bool {
    in_bounds(b, x, y) && b[y][x] is Char
}

/// The column of the `i`-th square of a word that starts in column `x`.
pub open spec fn col(x: int, direction: Direction, i: int) -> int {
    if direction == Direction::Across {
        x + i
    } else {
        x
    }
}

/// The row of the `i`-th square of a word that starts in row `y`.
pub open spec fn row(y: int, direction: Direction, i: int) -> int {
    if direction == Direction::Down {
        y + i
    } else {
        y
    }
}

/// The word of `len` letters that starts at (x, y) occupies the square
/// (cx, cy).
pub open spec fn covers(len: int, x: int, y: int, direction: Direction, cx: int, cy: int) -> bool {
    match direction {
        Direction::Across => cy == y && x <= cx < x + len,
        Direction::Down => cx == x && y <= cy < y + len,
    }
}

/// Which letter of a word that starts at (x, y) falls on the square (cx, cy).
pub open spec fn offset(x: int, y: int, direction: Direction, cx: int, cy: int) -> int {
    match direction {
        Direction::Across => cx - x,
        Direction::Down => cy - y,
    }
}

/// (cx, cy) is the square just before the start, or just after the end, of
/// the word of `len` letters that starts at (x, y).
pub open spec fn is_end(len: int, x: int, y: int, direction: Direction, cx: int, cy: int) -> bool {
    ||| (cx == col(x, direction, -1) && cy == row(y, direction, -1))
    ||| (cx == col(x, direction, len) && cy == row(y, direction, len))
}

/// A board of `n` rows of `n` empty squares.
pub open spec fn blank(n: int) -> Board {
    Seq::new(n as nat, |y: int| Seq::new(n as nat, |x: int| SquareValue::Blank))
}

} // verus!
