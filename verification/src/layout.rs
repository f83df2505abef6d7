use vstd::prelude::*;

use crate::board::{blank, height, width, Board};
use crate::can_place::placeable;
use crate::clue::{Clue, Direction, Spot};
use crate::placement::{written, BaseClue};

verus! {

/// The answers of a list of clues, in order.
pub open spec fn answers(clues: Seq<BaseClue>) -> Seq<Seq<char>> {
    Seq::new(clues.len(), |i: int| clues[i].answer@)
}

/// The spots of a list of placed clues, in order.
pub open spec fn spots(placed: Seq<Clue>) -> Seq<Spot> {
    Seq::new(placed.len(), |i: int| placed[i].spot())
}

/// The spot starts on a square of the board.
pub open spec fn on_board(b: Board, s: Spot) -> bool {
    0 <= s.y < height(b) && 0 <= s.x < width(b)
}

/// The `k`-th word may go on `b` at spot `s`. Only the first word of the list
/// may stand without crossing a letter.
pub open spec fn admits(words: Seq<Seq<char>>, k: int, b: Board, s: Spot) -> bool {
    on_board(b, s) && placeable(words[k], b, s.x, s.y, s.direction, k == 0)
}

/// The board once `word` has been written on `b` at spot `s`.
pub open spec fn place(b: Board, word: Seq<char>, s: Spot) -> Board {
    written(b, word, s.x, s.y, s.direction)
}

/// `rest` places the words from the `k`-th on, one after another, starting
/// from board `b`: each word is admitted by the board that the words before
/// it have left.
pub open spec fn completes(words: Seq<Seq<char>>, k: int, b: Board, rest: Seq<Spot>) -> bool
    decreases rest.len(),
{
    if rest.len() == 0 {
        k == words.len()
    } else {
        &&& 0 <= k < words.len()
        &&& admits(words, k, b, rest[0])
        &&& completes(words, k + 1, place(b, words[k], rest[0]), rest.drop_first())
    }
}

/// The board that `rest` leaves when it places the words from the `k`-th on,
/// starting from `b`.
pub open spec fn board_after(words: Seq<Seq<char>>, k: int, b: Board, rest: Seq<Spot>) -> Board
    decreases rest.len(),
{
    if rest.len() == 0 {
        b
    } else {
        board_after(words, k + 1, place(b, words[k], rest[0]), rest.drop_first())
    }
}

/// The order in which the search tries spots: row by row, within a row
/// column by column, and on one square Across before Down.
pub open spec fn tried_before(a: Spot, b: Spot) -> bool {
    ||| a.y < b.y
    ||| (a.y == b.y && a.x < b.x)
    ||| (a.y == b.y && a.x == b.x && a.direction == Direction::Across && b.direction
        == Direction::Down)
}

/// `a` comes no later than `b` in the order of the search: where the two
/// first differ, `a` holds the spot that is tried first.
pub open spec fn no_later(a: Seq<Spot>, b: Seq<Spot>) -> bool
    decreases a.len(),
{
    if a.len() == 0 || b.len() == 0 {
        true
    } else if a[0] == b[0] {
        no_later(a.drop_first(), b.drop_first())
    } else {
        tried_before(a[0], b[0])
    }
}

/// `rest` is the completion that the search finds: it places the remaining
/// words, and no other completion comes before it.
pub open spec fn is_first_completion(
    words: Seq<Seq<char>>,
    k: int,
    b: Board,
    rest: Seq<Spot>,
) -> bool {
    &&& completes(words, k, b, rest)
    &&& forall|other: Seq<Spot>| #[trigger] completes(words, k, b, other) ==> no_later(rest, other)
}

/// No choice of spots places the words from the `k`-th on, starting from `b`.
pub open spec fn is_dead_end(words: Seq<Seq<char>>, k: int, b: Board) -> bool {
    forall|other: Seq<Spot>| !#[trigger] completes(words, k, b, other)
}

/// Every completion starts at `cursor` or at a spot that is tried after it.
pub open spec fn none_before(words: Seq<Seq<char>>, k: int, b: Board, cursor: Spot) -> bool {
    forall|other: Seq<Spot>| #[trigger]
        completes(words, k, b, other) ==> !tried_before(other[0], cursor)
}

/// `layout` places all the words on an empty board of `n` by `n` squares.
pub open spec fn is_layout(words: Seq<Seq<char>>, n: int, layout: Seq<Spot>) -> bool {
    completes(words, 0, blank(n), layout)
}

/// Some layout places all the words on an empty board of `n` by `n` squares.
pub open spec fn is_solvable(words: Seq<Seq<char>>, n: int) -> bool {
    exists|layout: Seq<Spot>| is_layout(words, n, layout)
}

/// The board that a layout leaves.
pub open spec fn layout_board(words: Seq<Seq<char>>, n: int, layout: Seq<Spot>) -> Board {
    board_after(words, 0, blank(n), layout)
}

/// What the sizing loop finds for clues in the order given: with L the
/// length of the first answer, `n` is the least size from L up to 3L - 1 for
/// which a layout exists, and `placed` holds the clues, in the order given, at
/// the spots of the first layout of that size.
pub open spec fn is_resolution(sorted: Seq<BaseClue>, n: int, placed: Seq<Clue>) -> bool {
    let words = answers(sorted);
    &&& words[0].len() <= n < 3 * words[0].len()
    &&& forall|m: int| words[0].len() <= m < n ==> !#[trigger] is_solvable(words, m)
    &&& carries(sorted, 0, placed)
    &&& is_first_completion(words, 0, blank(n), spots(placed))
}

/// No size from L up to 3L - 1, with L the length of the first answer, has
/// a layout of the clues.
pub open spec fn is_unsolvable(sorted: Seq<BaseClue>) -> bool {
    let words = answers(sorted);
    forall|m: int| words[0].len() <= m < 3 * words[0].len() ==> !#[trigger] is_solvable(words, m)
}

/// Writing a word changes no row's length, so a layout leaves a board of the
/// size it started from.
pub proof fn lemma_board_keeps_size(words: Seq<Seq<char>>, k: int, b: Board, rest: Seq<Spot>)
    ensures
        board_after(words, k, b, rest).len() == b.len(),
        forall|y: int|
            0 <= y < b.len() ==> (#[trigger] board_after(words, k, b, rest)[y]).len() == b[y].len(),
    decreases rest.len(),
{
    if rest.len() > 0 {
        lemma_board_keeps_size(words, k + 1, place(b, words[k], rest[0]), rest.drop_first());
    }
}

/// The placed clues are the clues from the `k`-th on, in order, none of them
/// numbered yet.
pub open spec fn carries(clues: Seq<BaseClue>, k: int, placed: Seq<Clue>) -> bool {
    &&& placed.len() == clues.len() - k
    &&& forall|j: int|
        0 <= j < placed.len() ==> (#[trigger] placed[j]).base == clues[k + j] && placed[j].number
            == 0
}

} // verus!
