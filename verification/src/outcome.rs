use vstd::prelude::*;

use crate::board::{blank, height, in_bounds, is_rectangular, width};
use crate::clue::Clue;
use crate::clue_numbering::{
    is_ascending, law_by_number_is_stable, law_numbers_increase, lemma_by_number_position,
    lemma_number_bound, number_at, numbered, starts_earlier,
};
use crate::clue_sorting::{
    law_first_is_longest, law_ordered_by_answers, law_ordered_is_stable, ordered, same_answers,
};
use crate::laws::{
    law_overlaps_agree, law_words_connected, law_words_read_back, lemma_completion_length,
    lemma_word_starts_run, shares_square, square_x, square_y,
};
use crate::layout::{
    answers, is_layout, is_solvable, layout_board, lemma_board_keeps_size, spots,
};
use crate::placement::{
    answer_text, are_placeable, fails_with, grid_fits, is_failure, is_parsed, is_placement, places,
    BaseClue,
};

verus! {

/// The clue at index `q` of the list returned is the clue that the search
/// placed as its `k`-th, with its number.
pub open spec fn is_clue_of(
    pairs: Seq<BaseClue>,
    n: int,
    placed: Seq<Clue>,
    clues: Seq<Clue>,
    q: int,
    k: int,
) -> bool {
    let words = answers(ordered(pairs));
    &&& 0 <= q < clues.len()
    &&& 0 <= k < placed.len()
    &&& placed.len() == words.len()
    &&& clues.len() == placed.len()
    &&& clues[q].spot() == spots(placed)[k]
    &&& clues[q].word() == words[k]
    &&& clues[q].base == ordered(pairs)[k]
    &&& clues[q].number == number_at(
        layout_board(words, n, spots(placed)),
        clues[q].x as int,
        clues[q].y as int,
    ) as usize
}

/// What is returned is a layout: the spots of the placed clues lay the
/// ordered answers out on an empty grid of `n` by `n` squares.
pub proof fn lemma_placement_is_layout(
    lines: Seq<String>,
    pairs: Seq<BaseClue>,
    n: int,
    placed: Seq<Clue>,
    clues: Seq<Clue>,
)
    requires
        is_placement(lines, pairs, n, placed, clues),
    ensures
        is_layout(answers(ordered(pairs)), n, spots(placed)),
        placed.len() == answers(ordered(pairs)).len(),
        clues.len() == placed.len(),
{
    let words = answers(ordered(pairs));
    let board = layout_board(words, n, spots(placed));
    lemma_completion_length(words, 0, blank(n), spots(placed));
    let origin = law_by_number_is_stable(numbered(board, placed));
}

/// Each clue returned is one of the placed clues: the result is its index in
/// the order of placement.
pub proof fn lemma_clue_origin(
    lines: Seq<String>,
    pairs: Seq<BaseClue>,
    n: int,
    placed: Seq<Clue>,
    clues: Seq<Clue>,
    q: int,
) -> (k: int)
    requires
        is_placement(lines, pairs, n, placed, clues),
        0 <= q < clues.len(),
    ensures
        is_clue_of(pairs, n, placed, clues, q, k),
{
    let words = answers(ordered(pairs));
    let board = layout_board(words, n, spots(placed));
    let given = numbered(board, placed);
    lemma_placement_is_layout(lines, pairs, n, placed, clues);
    let origin = law_by_number_is_stable(given);
    let k = origin[q];
    assert(clues[q] == given[k]);
    assert(placed[k].base == ordered(pairs)[k]);
    k
}

/// Each placed clue is among the clues returned: the result is its index in
/// the list returned.
pub proof fn lemma_clue_position(
    lines: Seq<String>,
    pairs: Seq<BaseClue>,
    n: int,
    placed: Seq<Clue>,
    clues: Seq<Clue>,
    k: int,
) -> (q: int)
    requires
        is_placement(lines, pairs, n, placed, clues),
        0 <= k < placed.len(),
    ensures
        is_clue_of(pairs, n, placed, clues, q, k),
{
    let words = answers(ordered(pairs));
    let board = layout_board(words, n, spots(placed));
    let given = numbered(board, placed);
    lemma_placement_is_layout(lines, pairs, n, placed, clues);
    let q = lemma_by_number_position(given, k);
    assert(clues[q] == given[k]);
    assert(placed[k].base == ordered(pairs)[k]);
    q
}

/// The `i`-th square of one clue is the `j`-th square of another.
pub open spec fn on_one_square(one: Clue, i: int, other: Clue, j: int) -> bool {
    &&& square_x(one.spot(), i) == square_x(other.spot(), j)
    &&& square_y(one.spot(), i) == square_y(other.spot(), j)
}

/// Where two of the clues returned share a square, their answers have the
/// same letter there.
pub proof fn law_placed_overlaps_agree(
    lines: Seq<String>,
    clues: Seq<Clue>,
    a: int,
    i: int,
    b: int,
    j: int,
)
    requires
        places(lines, clues),
        0 <= a < clues.len(),
        0 <= i < clues[a].word().len(),
        0 <= b < clues.len(),
        0 <= j < clues[b].word().len(),
        on_one_square(clues[a], i, clues[b], j),
    ensures
        clues[a].word()[i] == clues[b].word()[j],
{
    let (pairs, n, placed) = choose|pairs: Seq<BaseClue>, n: int, placed: Seq<Clue>| #[trigger]
        is_placement(lines, pairs, n, placed, clues);
    let words = answers(ordered(pairs));
    let layout = spots(placed);
    lemma_placement_is_layout(lines, pairs, n, placed, clues);
    let ka = lemma_clue_origin(lines, pairs, n, placed, clues, a);
    let kb = lemma_clue_origin(lines, pairs, n, placed, clues, b);
    assert(shares_square(layout, ka, i, kb, j));
    law_overlaps_agree(words, n, layout, ka, i, kb, j);
}

/// The longest answer of the lines, in letters; 0 where there is no line.
pub open spec fn longest_answer(lines: Seq<String>) -> nat
    decreases lines.len(),
{
    if lines.len() == 0 {
        0
    } else {
        let before = longest_answer(lines.drop_last());
        let last = answer_text(lines.last()@).len();
        if last > before {
            last
        } else {
            before
        }
    }
}

/// No answer is longer than the longest, and where there is a line, one of
/// the answers is that long.
pub proof fn lemma_longest_answer(lines: Seq<String>)
    ensures
        forall|i: int|
            0 <= i < lines.len() ==> answer_text(#[trigger] lines[i]@).len() <= longest_answer(lines),
        lines.len() > 0 ==> exists|i: int|
            0 <= i < lines.len() && answer_text(#[trigger] lines[i]@).len() == longest_answer(lines),
    decreases lines.len(),
{
    if lines.len() > 0 {
        let front = lines.drop_last();
        lemma_longest_answer(front);
        assert forall|i: int| 0 <= i < lines.len() implies answer_text(#[trigger] lines[i]@).len()
            <= longest_answer(lines) by {
            if i < front.len() {
                assert(front[i] == lines[i]);
            }
        }
        if answer_text(lines.last()@).len() > longest_answer(front) || front.len() == 0 {
            assert(answer_text(lines[lines.len() - 1]@).len() == longest_answer(lines));
        } else {
            let w = choose|i: int|
                0 <= i < front.len() && answer_text(#[trigger] front[i]@).len() == longest_answer(
                    front,
                );
            assert(front[w] == lines[w]);
            assert(answer_text(lines[w]@).len() == longest_answer(lines));
        }
    }
}

/// The first of the ordered clues has the longest answer of the lines.
pub proof fn lemma_first_answer_is_longest(lines: Seq<String>, pairs: Seq<BaseClue>)
    requires
        is_parsed(lines, pairs),
        lines.len() > 0,
    ensures
        ordered(pairs).len() == pairs.len(),
        ordered(pairs)[0].answer@.len() == longest_answer(lines),
{
    let sorted = ordered(pairs);
    let origin = law_ordered_is_stable(pairs);
    lemma_longest_answer(lines);
    let w = choose|i: int|
        0 <= i < lines.len() && answer_text(#[trigger] lines[i]@).len() == longest_answer(lines);
    law_first_is_longest(pairs, w);
    assert(sorted[0] == pairs[origin[0]]);
    assert(answer_text(lines[origin[0]]@).len() <= longest_answer(lines));
}

/// The layout lies on a grid of fewer than 3 x L rows and columns, with L
/// the length of the longest answer: every square of every clue returned has
/// both coordinates from 0 up to, and not including, 3 x L - 1.
pub proof fn law_placed_within_range(lines: Seq<String>, clues: Seq<Clue>, q: int, i: int)
    requires
        places(lines, clues),
        0 <= q < clues.len(),
        0 <= i < clues[q].word().len(),
    ensures
        0 <= square_x(clues[q].spot(), i) < 3 * longest_answer(lines) - 1,
        0 <= square_y(clues[q].spot(), i) < 3 * longest_answer(lines) - 1,
{
    let (pairs, n, placed) = choose|pairs: Seq<BaseClue>, n: int, placed: Seq<Clue>| #[trigger]
        is_placement(lines, pairs, n, placed, clues);
    let words = answers(ordered(pairs));
    let layout = spots(placed);
    lemma_placement_is_layout(lines, pairs, n, placed, clues);
    let k = lemma_clue_origin(lines, pairs, n, placed, clues, q);
    law_words_read_back(words, n, layout, k, i);
    lemma_board_keeps_size(words, 0, blank(n), layout);
    lemma_first_answer_is_longest(lines, pairs);
    assert(words[0] == ordered(pairs)[0].answer@);
    let sy = square_y(layout[k], i);
    assert(blank(n)[sy].len() == n);
}

/// The grid that is found has `n` rows of `n` squares, and on a machine that
/// takes the lines it has fewer squares than `usize` can count.
pub proof fn lemma_found_grid(
    lines: Seq<String>,
    pairs: Seq<BaseClue>,
    n: int,
    placed: Seq<Clue>,
    clues: Seq<Clue>,
)
    requires
        is_placement(lines, pairs, n, placed, clues),
        lines.len() > 0,
    ensures
        n >= 0,
        height(layout_board(answers(ordered(pairs)), n, spots(placed))) == n,
        n > 0 ==> is_rectangular(layout_board(answers(ordered(pairs)), n, spots(placed))),
        n > 0 ==> width(layout_board(answers(ordered(pairs)), n, spots(placed))) == n,
        are_placeable(lines) ==> n * n < usize::MAX,
{
    let words = answers(ordered(pairs));
    let layout = spots(placed);
    let board = layout_board(words, n, layout);
    lemma_board_keeps_size(words, 0, blank(n), layout);
    assert forall|y: int| 0 <= y < board.len() implies (#[trigger] board[y]).len() == n by {
        assert(blank(n)[y].len() == n);
    }
    lemma_first_answer_is_longest(lines, pairs);
    assert(words[0] == ordered(pairs)[0].answer@);
    if are_placeable(lines) {
        lemma_longest_answer(lines);
        let w = choose|i: int|
            0 <= i < lines.len() && answer_text(#[trigger] lines[i]@).len() == longest_answer(
                lines,
            );
        assert(grid_fits(answer_text(lines[w]@).len()));
        let longest = longest_answer(lines) as int;
        assert(n * n < usize::MAX) by (nonlinear_arith)
            requires
                0 <= n < 3 * longest,
                (3 * longest) * (3 * longest) < usize::MAX,
        ;
    }
}

/// Of the clues returned, each with an answer of two letters or more has a
/// number from 1 on; the clues stand by ascending number; and the numbers
/// follow the scan of the grid: of two such clues the one that starts
/// earlier has the smaller number, and they share a number exactly when they
/// start on the same square. The lines are ones that the machine takes.
pub proof fn law_placed_numbers_follow_scan(lines: Seq<String>, clues: Seq<Clue>, a: int, b: int)
    requires
        places(lines, clues),
        are_placeable(lines),
        0 <= a < clues.len(),
        0 <= b < clues.len(),
        clues[a].word().len() >= 2,
        clues[b].word().len() >= 2,
    ensures
        clues[a].number >= 1,
        is_ascending(clues),
        clues[a].number < clues[b].number <==> starts_earlier(clues[a], clues[b]),
        clues[a].number == clues[b].number <==> clues[a].x == clues[b].x && clues[a].y == clues[b].y,
{
    let (pairs, n, placed) = choose|pairs: Seq<BaseClue>, n: int, placed: Seq<Clue>| #[trigger]
        is_placement(lines, pairs, n, placed, clues);
    let words = answers(ordered(pairs));
    let layout = spots(placed);
    let board = layout_board(words, n, layout);
    lemma_placement_is_layout(lines, pairs, n, placed, clues);
    lemma_found_grid(lines, pairs, n, placed, clues);
    let origin = law_by_number_is_stable(numbered(board, placed));
    let ka = lemma_clue_origin(lines, pairs, n, placed, clues, a);
    let kb = lemma_clue_origin(lines, pairs, n, placed, clues, b);
    lemma_word_starts_run(words, n, layout, ka);
    lemma_word_starts_run(words, n, layout, kb);
    let one = clues[a];
    let other = clues[b];
    assert(in_bounds(board, one.x as int, one.y as int));
    lemma_number_bound(board, one.x as int, one.y as int);
    lemma_number_bound(board, other.x as int, other.y as int);
    if starts_earlier(one, other) {
        law_numbers_increase(board, one.x as int, one.y as int, other.x as int, other.y as int);
    }
    if starts_earlier(other, one) {
        law_numbers_increase(board, other.x as int, other.y as int, one.x as int, one.y as int);
    }
}

/// Two clues touch: some square is a square of both.
pub open spec fn touch(one: Clue, other: Clue) -> bool {
    exists|i: int, j: int|
        0 <= i < one.word().len() && 0 <= j < other.word().len() && #[trigger] on_one_square(
            one,
            i,
            other,
            j,
        )
}

/// The clue at place `s` of the path touches the next clue of the path.
pub open spec fn edge_at(clues: Seq<Clue>, path: Seq<int>, s: int) -> bool {
    touch(clues[path[s]], clues[path[s + 1]])
}

/// `path` leads from the clue at index `from` to the clue at index `to`
/// through clues of the list, each touching the next.
pub open spec fn is_path(clues: Seq<Clue>, path: Seq<int>, from: int, to: int) -> bool {
    &&& path.len() > 0
    &&& path[0] == from
    &&& path[path.len() - 1] == to
    &&& forall|s: int| 0 <= s < path.len() ==> 0 <= #[trigger] path[s] < clues.len()
    &&& forall|s: int| 0 <= s < path.len() - 1 ==> #[trigger] edge_at(clues, path, s)
}

/// Touching goes both ways.
pub proof fn lemma_touch_both_ways(one: Clue, other: Clue)
    requires
        touch(one, other),
    ensures
        touch(other, one),
{
    let (i, j) = choose|i: int, j: int|
        0 <= i < one.word().len() && 0 <= j < other.word().len() && #[trigger] on_one_square(
            one,
            i,
            other,
            j,
        );
    assert(on_one_square(other, j, one, i));
}

/// A path walked backwards is a path.
pub proof fn lemma_path_back(clues: Seq<Clue>, path: Seq<int>, from: int, to: int)
    requires
        is_path(clues, path, from, to),
    ensures
        is_path(clues, path.reverse(), to, from),
{
    let back = path.reverse();
    let len = path.len() as int;
    assert forall|s: int| 0 <= s < back.len() implies 0 <= #[trigger] back[s] < clues.len() by {
        assert(back[s] == path[len - 1 - s]);
    }
    assert forall|s: int| 0 <= s < back.len() - 1 implies #[trigger] edge_at(clues, back, s) by {
        assert(back[s] == path[len - 1 - s]);
        assert(back[s + 1] == path[len - 2 - s]);
        assert(edge_at(clues, path, len - 2 - s));
        lemma_touch_both_ways(clues[path[len - 2 - s]], clues[path[len - 1 - s]]);
    }
}

/// A path that ends where another starts goes on along the other.
pub proof fn lemma_path_on(
    clues: Seq<Clue>,
    first: Seq<int>,
    from: int,
    middle: int,
    second: Seq<int>,
    to: int,
)
    requires
        is_path(clues, first, from, middle),
        is_path(clues, second, middle, to),
    ensures
        is_path(clues, first + second.drop_first(), from, to),
{
    let rest = second.drop_first();
    let whole = first + rest;
    let len = first.len() as int;
    assert forall|s: int| 0 <= s < whole.len() implies 0 <= #[trigger] whole[s] < clues.len() by {
        if s < len {
            assert(whole[s] == first[s]);
        } else {
            assert(whole[s] == second[s - len + 1]);
        }
    }
    assert forall|s: int| 0 <= s < whole.len() - 1 implies #[trigger] edge_at(clues, whole, s) by {
        if s + 1 < len {
            assert(whole[s] == first[s] && whole[s + 1] == first[s + 1]);
            assert(edge_at(clues, first, s));
        } else {
            assert(whole[s + 1] == second[s - len + 2]);
            if s < len {
                assert(whole[s] == first[len - 1]);
                assert(whole[s] == second[0]);
            } else {
                assert(whole[s] == second[s - len + 1]);
            }
            assert(edge_at(clues, second, s - len + 1));
        }
    }
    if rest.len() == 0 {
        assert(whole[whole.len() - 1] == first[len - 1]);
    } else {
        assert(whole[whole.len() - 1] == second[second.len() - 1]);
    }
}

/// From every clue returned a path leads to the clue that was placed first:
/// each clue but the first touches one placed before it.
pub proof fn lemma_path_to_first(
    lines: Seq<String>,
    pairs: Seq<BaseClue>,
    n: int,
    placed: Seq<Clue>,
    clues: Seq<Clue>,
    q: int,
    k: int,
    root: int,
) -> (path: Seq<int>)
    requires
        is_placement(lines, pairs, n, placed, clues),
        is_clue_of(pairs, n, placed, clues, q, k),
        is_clue_of(pairs, n, placed, clues, root, 0),
    ensures
        is_path(clues, path, q, root),
    decreases k,
{
    let words = answers(ordered(pairs));
    let layout = spots(placed);
    lemma_placement_is_layout(lines, pairs, n, placed, clues);
    if k == 0 {
        let path = seq![q, root];
        // Both are the first word, which has a letter: they share its square.
        assert(words[0].len() >= 1);
        assert(on_one_square(clues[q], 0, clues[root], 0));
        assert(edge_at(clues, path, 0));
        path
    } else {
        law_words_connected(words, n, layout, k);
        let (i, j, a) = choose|i: int, j: int, a: int|
            0 <= i < words[k].len() && 0 <= j < k && 0 <= a < words[j].len() && #[trigger] shares_square(
                layout,
                k,
                i,
                j,
                a,
            );
        let next = lemma_clue_position(lines, pairs, n, placed, clues, j);
        let onward = lemma_path_to_first(lines, pairs, n, placed, clues, next, j, root);
        let step = seq![q, next];
        assert(on_one_square(clues[q], i, clues[next], a));
        assert(edge_at(clues, step, 0));
        lemma_path_on(clues, step, q, next, onward, root);
        step + onward.drop_first()
    }
}

/// The clues returned hang together: between any two of them a path leads
/// through the clues, each touching the next.
pub proof fn law_placed_clues_connected(lines: Seq<String>, clues: Seq<Clue>, a: int, b: int) -> (path:
    Seq<int>)
    requires
        places(lines, clues),
        0 <= a < clues.len(),
        0 <= b < clues.len(),
    ensures
        is_path(clues, path, a, b),
{
    let (pairs, n, placed) = choose|pairs: Seq<BaseClue>, n: int, placed: Seq<Clue>| #[trigger]
        is_placement(lines, pairs, n, placed, clues);
    lemma_placement_is_layout(lines, pairs, n, placed, clues);
    let ka = lemma_clue_origin(lines, pairs, n, placed, clues, a);
    let kb = lemma_clue_origin(lines, pairs, n, placed, clues, b);
    let root = lemma_clue_position(lines, pairs, n, placed, clues, 0);
    let there = lemma_path_to_first(lines, pairs, n, placed, clues, a, ka, root);
    let back = lemma_path_to_first(lines, pairs, n, placed, clues, b, kb, root);
    lemma_path_back(clues, back, b, root);
    lemma_path_on(clues, there, a, root, back.reverse(), b);
    there + back.reverse().drop_first()
}

/// A grid of `n` by `n` squares, one of the sizes from L up to 3 x L - 1,
/// takes the clues of the lines in their search order; `pairs` are those
/// clues and L is the length of the longest answer.
pub open spec fn is_size_with_layout(lines: Seq<String>, pairs: Seq<BaseClue>, n: int) -> bool {
    let words = answers(ordered(pairs));
    &&& is_parsed(lines, pairs)
    &&& words[0].len() <= n < 3 * words[0].len()
    &&& is_solvable(words, n)
}

/// One of the sizes that are tried takes the clues of the lines.
pub open spec fn has_layout(lines: Seq<String>) -> bool {
    exists|pairs: Seq<BaseClue>, n: int| #[trigger] is_size_with_layout(lines, pairs, n)
}

/// Two readings of the same lines give the same answers in the same search
/// order.
pub proof fn lemma_same_lines_same_words(lines: Seq<String>, one: Seq<BaseClue>, other: Seq<BaseClue>)
    requires
        is_parsed(lines, one),
        is_parsed(lines, other),
    ensures
        answers(ordered(one)) == answers(ordered(other)),
{
    assert(same_answers(one, other));
    law_ordered_by_answers(one, other);
    assert(answers(ordered(one)) =~= answers(ordered(other)));
}

/// Clues are returned only where one of the sizes that are tried takes
/// them, and they are laid out on the least such size.
pub proof fn law_success_is_least_layout(
    lines: Seq<String>,
    pairs: Seq<BaseClue>,
    n: int,
    placed: Seq<Clue>,
    clues: Seq<Clue>,
    other_pairs: Seq<BaseClue>,
    m: int,
)
    requires
        is_placement(lines, pairs, n, placed, clues),
    ensures
        is_size_with_layout(lines, pairs, n),
        has_layout(lines),
        is_size_with_layout(lines, other_pairs, m) ==> n <= m,
{
    let words = answers(ordered(pairs));
    assert(is_layout(words, n, spots(placed)));
    assert(is_solvable(words, n));
    assert(is_size_with_layout(lines, pairs, n));
    if is_size_with_layout(lines, other_pairs, m) {
        lemma_same_lines_same_words(lines, pairs, other_pairs);
        if m < n {
            assert(!is_solvable(words, m));
        }
    }
}

/// The failure is reported only where none of the sizes that are tried
/// takes the clues. So clues are returned exactly where one of them does.
pub proof fn law_failure_has_no_layout(lines: Seq<String>, message: Seq<char>)
    requires
        fails_with(lines, message),
    ensures
        !has_layout(lines),
{
    let pairs = choose|pairs: Seq<BaseClue>| #[trigger] is_failure(lines, pairs, message);
    let words = answers(ordered(pairs));
    assert forall|other: Seq<BaseClue>, n: int| !#[trigger] is_size_with_layout(lines, other, n) by {
        if is_size_with_layout(lines, other, n) {
            lemma_same_lines_same_words(lines, pairs, other);
            assert(!is_solvable(words, n));
        }
    }
}

} // verus!
