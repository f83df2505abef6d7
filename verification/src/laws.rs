use vstd::prelude::*;

use crate::board::{blank, col, covers, holds_letter, in_bounds, offset, row, Board};
use crate::can_place::{accepts_at, crosses_at, ends_clear, placeable};
use crate::clue::{Clue, Direction, Spot};
use crate::clue_numbering::{is_start, starts_across, starts_down};
use crate::clue_sorting::{law_first_is_longest, ordered};
use crate::layout::{
    admits, answers, board_after, completes, is_first_completion, is_layout, is_resolution,
    layout_board, no_later, place,
};
use crate::placement::{BaseClue, SquareValue};

verus! {

/// The column of the `i`-th square of a word placed at `s`.
pub open spec fn square_x(s: Spot, i: int) -> int {
    col(s.x, s.direction, i)
}

/// The row of the `i`-th square of a word placed at `s`.
pub open spec fn square_y(s: Spot, i: int) -> int {
    row(s.y, s.direction, i)
}

/// The word of `len` letters placed at `s` occupies the square (cx, cy).
pub open spec fn occupies(len: int, s: Spot, cx: int, cy: int) -> bool {
    covers(len, s.x, s.y, s.direction, cx, cy)
}

/// The board after the first `j` words of the layout have been written on an
/// empty board of `n` by `n` squares.
pub open spec fn board_at(words: Seq<Seq<char>>, n: int, layout: Seq<Spot>, j: int) -> Board {
    board_after(words, 0, blank(n), layout.take(j))
}

/// A completion has one spot for each remaining word.
pub proof fn lemma_completion_length(words: Seq<Seq<char>>, k: int, b: Board, rest: Seq<Spot>)
    requires
        completes(words, k, b, rest),
    ensures
        k + rest.len() == words.len(),
    decreases rest.len(),
{
    if rest.len() > 0 {
        lemma_completion_length(words, k + 1, place(b, words[k], rest[0]), rest.drop_first());
    }
}

/// In a completion, the board that the first `j` spots leave admits the next
/// word at the next spot, and writing it gives the board that the first
/// `j + 1` spots leave.
pub proof fn lemma_completion_step(
    words: Seq<Seq<char>>,
    k: int,
    b: Board,
    rest: Seq<Spot>,
    j: int,
)
    requires
        completes(words, k, b, rest),
        0 <= j < rest.len(),
    ensures
        admits(words, k + j, board_after(words, k, b, rest.take(j)), rest[j]),
        board_after(words, k, b, rest.take(j + 1)) == place(
            board_after(words, k, b, rest.take(j)),
            words[k + j],
            rest[j],
        ),
    decreases j,
{
    let next = place(b, words[k], rest[0]);
    let tail = rest.drop_first();
    if j == 0 {
        assert(rest.take(0) =~= Seq::<Spot>::empty());
        assert(rest.take(1).drop_first() =~= Seq::<Spot>::empty());
        assert(rest.take(1)[0] == rest[0]);
        assert(board_after(words, k + 1, next, rest.take(1).drop_first()) == next);
    } else {
        lemma_completion_step(words, k + 1, next, tail, j - 1);
        assert(rest.take(j).drop_first() =~= tail.take(j - 1));
        assert(rest.take(j + 1).drop_first() =~= tail.take(j));
        assert(rest.take(j)[0] == rest[0]);
        assert(rest.take(j + 1)[0] == rest[0]);
    }
}

/// One step of a layout: the board before the `j`-th word admits it, and the
/// board after it is that board with the word written on it.
pub proof fn lemma_layout_step(words: Seq<Seq<char>>, n: int, layout: Seq<Spot>, j: int)
    requires
        is_layout(words, n, layout),
        0 <= j < layout.len(),
    ensures
        layout.len() == words.len(),
        admits(words, j, board_at(words, n, layout, j), layout[j]),
        board_at(words, n, layout, j + 1) == place(
            board_at(words, n, layout, j),
            words[j],
            layout[j],
        ),
{
    lemma_completion_length(words, 0, blank(n), layout);
    lemma_completion_step(words, 0, blank(n), layout, j);
}

/// Every spot of a completion starts on a square of the board.
pub proof fn lemma_spots_on_board(words: Seq<Seq<char>>, k: int, b: Board, rest: Seq<Spot>, j: int)
    requires
        completes(words, k, b, rest),
        0 <= j < rest.len(),
    ensures
        crate::layout::on_board(b, rest[j]),
{
    lemma_completion_step(words, k, b, rest, j);
    crate::layout::lemma_board_keeps_size(words, k, b, rest.take(j));
}

/// What writing an admitted word does to one square of the board: the
/// square stays a square; where the word runs it holds the word's letter; a
/// letter that was there stays, and so does a reserved square; and a letter
/// that is there afterwards was there before or is the word's.
pub proof fn lemma_place_square(words: Seq<Seq<char>>, k: int, b: Board, s: Spot, cx: int, cy: int)
    requires
        admits(words, k, b, s),
    ensures
        in_bounds(place(b, words[k], s), cx, cy) == in_bounds(b, cx, cy),
        occupies(words[k].len() as int, s, cx, cy) ==> in_bounds(b, cx, cy) && place(
            b,
            words[k],
            s,
        )[cy][cx] == SquareValue::Char(words[k][offset(s.x, s.y, s.direction, cx, cy)]),
        holds_letter(b, cx, cy) ==> place(b, words[k], s)[cy][cx] == b[cy][cx],
        in_bounds(b, cx, cy) && b[cy][cx] == SquareValue::Black ==> place(b, words[k], s)[cy][cx]
            == SquareValue::Black,
        holds_letter(place(b, words[k], s), cx, cy) ==> holds_letter(b, cx, cy) || occupies(
            words[k].len() as int,
            s,
            cx,
            cy,
        ),
{
    let word = words[k];
    let i = offset(s.x, s.y, s.direction, cx, cy);
    if occupies(word.len() as int, s, cx, cy) {
        assert(accepts_at(word, b, s.x, s.y, s.direction, i));
        assert(col(s.x, s.direction, i) == cx && row(s.y, s.direction, i) == cy);
    }
}

/// A letter on the board stays where it is while further words are placed.
pub proof fn lemma_letter_stays(
    words: Seq<Seq<char>>,
    n: int,
    layout: Seq<Spot>,
    j: int,
    later: int,
    cx: int,
    cy: int,
)
    requires
        is_layout(words, n, layout),
        0 <= j <= later <= layout.len(),
        holds_letter(board_at(words, n, layout, j), cx, cy),
    ensures
        holds_letter(board_at(words, n, layout, later), cx, cy),
        board_at(words, n, layout, later)[cy][cx] == board_at(words, n, layout, j)[cy][cx],
    decreases later - j,
{
    if j < later {
        lemma_letter_stays(words, n, layout, j, later - 1, cx, cy);
        lemma_layout_step(words, n, layout, later - 1);
        lemma_place_square(
            words,
            later - 1,
            board_at(words, n, layout, later - 1),
            layout[later - 1],
            cx,
            cy,
        );
    }
}

/// A reserved square stays reserved while further words are placed.
pub proof fn lemma_reserved_stays(
    words: Seq<Seq<char>>,
    n: int,
    layout: Seq<Spot>,
    j: int,
    later: int,
    cx: int,
    cy: int,
)
    requires
        is_layout(words, n, layout),
        0 <= j <= later <= layout.len(),
        in_bounds(board_at(words, n, layout, j), cx, cy),
        board_at(words, n, layout, j)[cy][cx] == SquareValue::Black,
    ensures
        in_bounds(board_at(words, n, layout, later), cx, cy),
        board_at(words, n, layout, later)[cy][cx] == SquareValue::Black,
    decreases later - j,
{
    if j < later {
        lemma_reserved_stays(words, n, layout, j, later - 1, cx, cy);
        lemma_layout_step(words, n, layout, later - 1);
        lemma_place_square(
            words,
            later - 1,
            board_at(words, n, layout, later - 1),
            layout[later - 1],
            cx,
            cy,
        );
    }
}

/// A placed word of two letters or more starts on a square where a run
/// begins in its direction: the square before it is the edge or stays
/// reserved, and the word's first two letters stand on the board.
pub proof fn lemma_word_starts_run(words: Seq<Seq<char>>, n: int, layout: Seq<Spot>, k: int)
    requires
        is_layout(words, n, layout),
        0 <= k < words.len(),
        words[k].len() >= 2,
    ensures
        layout[k].direction == Direction::Across ==> starts_across(
            layout_board(words, n, layout),
            layout[k].x,
            layout[k].y,
        ),
        layout[k].direction == Direction::Down ==> starts_down(
            layout_board(words, n, layout),
            layout[k].x,
            layout[k].y,
        ),
        is_start(layout_board(words, n, layout), layout[k].x, layout[k].y),
{
    let s = layout[k];
    let word = words[k];
    let len = layout.len() as int;
    let before = board_at(words, n, layout, k);
    let px = col(s.x, s.direction, -1);
    let py = row(s.y, s.direction, -1);
    lemma_completion_length(words, 0, blank(n), layout);
    law_words_read_back(words, n, layout, k, 0);
    law_words_read_back(words, n, layout, k, 1);
    assert(layout.take(len) =~= layout);
    lemma_layout_step(words, n, layout, k);
    crate::layout::lemma_board_keeps_size(words, 0, blank(n), layout.take(k));
    assert(placeable(word, before, s.x, s.y, s.direction, k == 0));
    assert(accepts_at(word, before, s.x, s.y, s.direction, 0));
    assert(ends_clear(word.len() as int, before, s.x, s.y, s.direction));
    if px >= 0 && py >= 0 {
        assert(before[py].len() == blank(n)[py].len());
        assert(before[s.y].len() == blank(n)[s.y].len());
        assert(in_bounds(before, px, py));
        let after = board_at(words, n, layout, k + 1);
        assert(after[py][px] == SquareValue::Black);
        lemma_reserved_stays(words, n, layout, k + 1, len, px, py);
    }
}

/// Every letter on the board belongs to a word placed so far: the result
/// names such a word and the index of the letter in it.
pub proof fn lemma_letter_owner(
    words: Seq<Seq<char>>,
    n: int,
    layout: Seq<Spot>,
    j: int,
    cx: int,
    cy: int,
) -> (owner: (int, int))
    requires
        is_layout(words, n, layout),
        0 <= j <= layout.len(),
        holds_letter(board_at(words, n, layout, j), cx, cy),
    ensures
        0 <= owner.0 < j,
        0 <= owner.1 < words[owner.0].len(),
        square_x(layout[owner.0], owner.1) == cx,
        square_y(layout[owner.0], owner.1) == cy,
    decreases j,
{
    if j == 0 {
        assert(layout.take(0) =~= Seq::<Spot>::empty());
        (0, 0)
    } else {
        let before = board_at(words, n, layout, j - 1);
        lemma_layout_step(words, n, layout, j - 1);
        lemma_place_square(words, j - 1, before, layout[j - 1], cx, cy);
        if holds_letter(before, cx, cy) {
            lemma_letter_owner(words, n, layout, j - 1, cx, cy)
        } else {
            let s = layout[j - 1];
            (j - 1, offset(s.x, s.y, s.direction, cx, cy))
        }
    }
}

/// Two letters side by side along `direction` belong to one word placed so
/// far that runs in that direction: the result names such a word.
pub proof fn lemma_neighbours_owner(
    words: Seq<Seq<char>>,
    n: int,
    layout: Seq<Spot>,
    j: int,
    cx: int,
    cy: int,
    direction: Direction,
) -> (owner: int)
    requires
        is_layout(words, n, layout),
        0 <= j <= layout.len(),
        holds_letter(board_at(words, n, layout, j), cx, cy),
        holds_letter(board_at(words, n, layout, j), col(cx, direction, 1), row(cy, direction, 1)),
    ensures
        0 <= owner < j,
        layout[owner].direction == direction,
        occupies(words[owner].len() as int, layout[owner], cx, cy),
        occupies(
            words[owner].len() as int,
            layout[owner],
            col(cx, direction, 1),
            row(cy, direction, 1),
        ),
    decreases j,
{
    let nx = col(cx, direction, 1);
    let ny = row(cy, direction, 1);
    if j == 0 {
        assert(layout.take(0) =~= Seq::<Spot>::empty());
        0
    } else {
        let before = board_at(words, n, layout, j - 1);
        let s = layout[j - 1];
        let word = words[j - 1];
        let len = word.len() as int;
        lemma_layout_step(words, n, layout, j - 1);
        lemma_place_square(words, j - 1, before, s, cx, cy);
        lemma_place_square(words, j - 1, before, s, nx, ny);
        if holds_letter(before, cx, cy) && holds_letter(before, nx, ny) {
            lemma_neighbours_owner(words, n, layout, j - 1, cx, cy, direction)
        } else {
            assert(placeable(word, before, s.x, s.y, s.direction, j - 1 == 0));
            assert(ends_clear(len, before, s.x, s.y, s.direction));
            if !holds_letter(before, cx, cy) {
                let i = offset(s.x, s.y, s.direction, cx, cy);
                assert(occupies(len, s, cx, cy));
                assert(accepts_at(word, before, s.x, s.y, s.direction, i));
            }
            if !holds_letter(before, nx, ny) {
                let i = offset(s.x, s.y, s.direction, nx, ny);
                assert(occupies(len, s, nx, ny));
                assert(accepts_at(word, before, s.x, s.y, s.direction, i));
            }
            j - 1
        }
    }
}

/// The `i`-th square of the `k`-th word is the `a`-th square of the `j`-th.
pub open spec fn shares_square(layout: Seq<Spot>, k: int, i: int, j: int, a: int) -> bool {
    &&& square_x(layout[k], i) == square_x(layout[j], a)
    &&& square_y(layout[k], i) == square_y(layout[j], a)
}

/// The `m`-th word runs across the `k`-th word's direction and occupies the
/// `k`-th word's `i`-th square as well as the square (nx, ny).
pub open spec fn crosses_through(
    words: Seq<Seq<char>>,
    layout: Seq<Spot>,
    k: int,
    i: int,
    m: int,
    nx: int,
    ny: int,
) -> bool {
    &&& layout[m].direction == layout[k].direction.turned()
    &&& occupies(words[m].len() as int, layout[m], square_x(layout[k], i), square_y(layout[k], i))
    &&& occupies(words[m].len() as int, layout[m], nx, ny)
}

/// Every placed word can be read back from the board: going from its start
/// along its direction, the board holds the word's letters, one for one.
pub proof fn law_words_read_back(words: Seq<Seq<char>>, n: int, layout: Seq<Spot>, k: int, i: int)
    requires
        is_layout(words, n, layout),
        0 <= k < words.len(),
        0 <= i < words[k].len(),
    ensures
        in_bounds(
            layout_board(words, n, layout),
            square_x(layout[k], i),
            square_y(layout[k], i),
        ),
        layout_board(words, n, layout)[square_y(layout[k], i)][square_x(layout[k], i)]
            == SquareValue::Char(words[k][i]),
{
    let cx = square_x(layout[k], i);
    let cy = square_y(layout[k], i);
    lemma_completion_length(words, 0, blank(n), layout);
    lemma_layout_step(words, n, layout, k);
    lemma_place_square(words, k, board_at(words, n, layout, k), layout[k], cx, cy);
    assert(occupies(words[k].len() as int, layout[k], cx, cy));
    lemma_letter_stays(words, n, layout, k + 1, layout.len() as int, cx, cy);
    assert(layout.take(layout.len() as int) =~= layout);
}

/// Where two placed words share a square, they have the same letter there.
pub proof fn law_overlaps_agree(
    words: Seq<Seq<char>>,
    n: int,
    layout: Seq<Spot>,
    k: int,
    i: int,
    j: int,
    a: int,
)
    requires
        is_layout(words, n, layout),
        0 <= k < words.len(),
        0 <= i < words[k].len(),
        0 <= j < words.len(),
        0 <= a < words[j].len(),
        shares_square(layout, k, i, j, a),
    ensures
        words[k][i] == words[j][a],
{
    law_words_read_back(words, n, layout, k, i);
    law_words_read_back(words, n, layout, j, a);
}

/// Every placed word but the first shares a square with a word that was
/// placed before it.
pub proof fn law_words_connected(words: Seq<Seq<char>>, n: int, layout: Seq<Spot>, k: int)
    requires
        is_layout(words, n, layout),
        1 <= k < words.len(),
    ensures
        exists|i: int, j: int, a: int|
            0 <= i < words[k].len() && 0 <= j < k && 0 <= a < words[j].len() && #[trigger] shares_square(
                layout,
                k,
                i,
                j,
                a,
            ),
{
    lemma_completion_length(words, 0, blank(n), layout);
    lemma_layout_step(words, n, layout, k);
    let before = board_at(words, n, layout, k);
    let s = layout[k];
    assert(placeable(words[k], before, s.x, s.y, s.direction, false));
    let i = choose|i: int| 0 <= i < words[k].len() && #[trigger] crosses_at(before, s.x, s.y, s.direction, i);
    let owner = lemma_letter_owner(words, n, layout, k, square_x(s, i), square_y(s, i));
    assert(shares_square(layout, k, i, owner.0, owner.1));
}

/// No letter lies flush beside a placed word: where the square next to a
/// word's square, across the word's direction, holds a letter, a word that
/// runs across the first one occupies both squares, so the first word's
/// square is a crossing.
pub proof fn law_no_flush_neighbours(
    words: Seq<Seq<char>>,
    n: int,
    layout: Seq<Spot>,
    k: int,
    i: int,
    step: int,
)
    requires
        is_layout(words, n, layout),
        0 <= k < words.len(),
        0 <= i < words[k].len(),
        step == 1 || step == -1,
        holds_letter(
            layout_board(words, n, layout),
            col(square_x(layout[k], i), layout[k].direction.turned(), step),
            row(square_y(layout[k], i), layout[k].direction.turned(), step),
        ),
    ensures
        exists|m: int|
            0 <= m < words.len() && #[trigger] crosses_through(
                words,
                layout,
                k,
                i,
                m,
                col(square_x(layout[k], i), layout[k].direction.turned(), step),
                row(square_y(layout[k], i), layout[k].direction.turned(), step),
            ),
{
    let side = layout[k].direction.turned();
    let cx = square_x(layout[k], i);
    let cy = square_y(layout[k], i);
    let nx = col(cx, side, step);
    let ny = row(cy, side, step);
    let len = layout.len() as int;
    lemma_completion_length(words, 0, blank(n), layout);
    law_words_read_back(words, n, layout, k, i);
    assert(layout.take(len) =~= layout);
    let m = if step == 1 {
        lemma_neighbours_owner(words, n, layout, len, cx, cy, side)
    } else {
        lemma_neighbours_owner(words, n, layout, len, nx, ny, side)
    };
    assert(crosses_through(words, layout, k, i, m, nx, ny));
}

/// Of two sequences of spots of one length, each no later than the other,
/// there is only one.
pub proof fn lemma_no_later_both_ways(a: Seq<Spot>, b: Seq<Spot>)
    requires
        a.len() == b.len(),
        no_later(a, b),
        no_later(b, a),
    ensures
        a == b,
    decreases a.len(),
{
    if a.len() > 0 {
        assert(a[0] == b[0]);
        lemma_no_later_both_ways(a.drop_first(), b.drop_first());
        assert(a =~= seq![a[0]] + a.drop_first());
        assert(b =~= seq![b[0]] + b.drop_first());
    } else {
        assert(a =~= b);
    }
}

/// The search has one answer: two first completions of the same words from
/// the same board are the same.
pub proof fn law_first_completion_unique(
    words: Seq<Seq<char>>,
    k: int,
    b: Board,
    one: Seq<Spot>,
    other: Seq<Spot>,
)
    requires
        is_first_completion(words, k, b, one),
        is_first_completion(words, k, b, other),
    ensures
        one == other,
{
    lemma_completion_length(words, k, b, one);
    lemma_completion_length(words, k, b, other);
    lemma_no_later_both_ways(one, other);
}

/// The grid that is found is no smaller than the longest answer, and it is
/// one of the 2 x L sizes from L on, with L the length of the longest answer.
pub proof fn law_grid_size_in_range(pairs: Seq<BaseClue>, n: int, placed: Seq<Clue>, i: int)
    requires
        is_resolution(ordered(pairs), n, placed),
        0 <= i < pairs.len(),
    ensures
        pairs[i].answer@.len() <= ordered(pairs)[0].answer@.len() <= n,
        n - ordered(pairs)[0].answer@.len() < 2 * ordered(pairs)[0].answer@.len(),
{
    law_first_is_longest(pairs, i);
    crate::clue_sorting::law_ordered_is_permutation(pairs);
    assert(answers(ordered(pairs))[0] == ordered(pairs)[0].answer@);
}

} // verus!
